//! In which order a search visits a tree.
use vstd::prelude::*;

use crate::tree::best::{ascending, lemma_ascending, lemma_rank_bounds, rank, squeeze_in};
use crate::tree::kernel::{box_dist, sq_dist, K};
use crate::tree::model::{children_ok, height, leaf_entries, node_ok, structured, weight, Entry, Node};
use crate::tree::walk::{
    bound_of, far_child, near_child, offered, scanned, stack_weight, walked, Best, STACK_CAP,
};

verus! {

/// Whether a list is one of the nearest, in order.
pub open spec fn in_line(b: Best) -> bool {
    b.0.len() == K && b.1.len() == K && ascending(b.0)
}

/// Offering entries keeps a list in order, and its last no further away.
proof fn lemma_scanned_lowers(b: Best, q: Seq<i16>, es: Seq<Entry>)
    requires
        in_line(b),
    ensures
        in_line(scanned(b, q, es)),
        scanned(b, q, es).0[K - 1] <= b.0[K - 1],
    decreases es.len(),
{
    if es.len() > 0 {
        let e = es.last();
        lemma_scanned_lowers(b, q, es.drop_last());
        let mid = scanned(b, q, es.drop_last());
        let dist = sq_dist(q, e.0) as i64;
        let after = offered(mid, dist, e.1);
        lemma_rank_bounds(mid.0, dist);
        lemma_ascending(mid.0, after.0, dist);
        if dist < mid.0[K - 1] {
            let at = rank(mid.0, dist);
            assert(after.0 == squeeze_in(mid.0, at, dist));
            assert(after.0[K - 1] <= mid.0[K - 1]) by {
                if at < K - 1 {
                    assert(after.0[K - 1] == mid.0[K - 2]);
                }
            }
        }
    }
}

/// Whether a search has room for what is still to wait.
spec fn has_room(nodes: Seq<Node>, cur: int, stack: Seq<int>) -> bool {
    &&& 0 <= cur < nodes.len()
    &&& height(nodes, cur) + stack.len() <= STACK_CAP
    &&& forall|j: int|
        0 <= j < stack.len() ==> 0 <= #[trigger] stack[j] < nodes.len() && height(nodes, stack[j])
            + j <= STACK_CAP
}

/// What a search goes on with when it is done with a subtree.
spec fn resumed(
    nodes: Seq<Node>,
    vectors: Seq<i16>,
    labels: Seq<u8>,
    q: Seq<i16>,
    b: Best,
    stack: Seq<int>,
) -> Best {
    if stack.len() == 0 {
        b
    } else {
        walked(nodes, vectors, labels, q, b, stack.last(), stack.drop_last())
    }
}

/// A subtree is searched as if nothing else waited; then comes what waits.
proof fn lemma_resumed(
    nodes: Seq<Node>,
    vectors: Seq<i16>,
    labels: Seq<u8>,
    q: Seq<i16>,
    b: Best,
    cur: int,
    stack: Seq<int>,
)
    requires
        structured(nodes, vectors.len(), labels.len()),
        has_room(nodes, cur, stack),
    ensures
        walked(nodes, vectors, labels, q, b, cur, stack) == resumed(
            nodes,
            vectors,
            labels,
            q,
            walked(nodes, vectors, labels, q, b, cur, Seq::empty()),
            stack,
        ),
    decreases weight(nodes, cur) + stack_weight(nodes, stack),
{
    let none = Seq::<int>::empty();
    let open = bound_of(nodes, q, cur) < b.0[K - 1];
    assert(node_ok(nodes, vectors.len(), labels.len(), cur));
    if open && nodes[cur].left >= 0 {
        let near = near_child(nodes, q, cur);
        let far = far_child(nodes, q, cur);
        let more = stack.push(far);
        let one = none.push(far);
        let b1 = walked(nodes, vectors, labels, q, b, near, none);
        assert(more.drop_last() =~= stack);
        assert(one.drop_last() =~= none);
        if bound_of(nodes, q, far) < b.0[K - 1] {
            assert forall|j: int| 0 <= j < more.len() implies 0 <= #[trigger] more[j]
                < nodes.len() && height(nodes, more[j]) + j <= STACK_CAP by {
                if j < stack.len() {
                    assert(more[j] == stack[j]);
                }
            }
            assert(stack_weight(nodes, one) == stack_weight(nodes, none) + weight(nodes, far));
            lemma_resumed(nodes, vectors, labels, q, b, near, more);
            lemma_resumed(nodes, vectors, labels, q, b, near, one);
            lemma_resumed(nodes, vectors, labels, q, b1, far, stack);
        } else {
            lemma_resumed(nodes, vectors, labels, q, b, near, stack);
        }
    }
}

/// A search leaves its list in order, and the last of it no further away.
proof fn lemma_walked_lowers(
    nodes: Seq<Node>,
    vectors: Seq<i16>,
    labels: Seq<u8>,
    q: Seq<i16>,
    b: Best,
    cur: int,
    stack: Seq<int>,
)
    requires
        in_line(b),
    ensures
        in_line(walked(nodes, vectors, labels, q, b, cur, stack)),
        walked(nodes, vectors, labels, q, b, cur, stack).0[K - 1] <= b.0[K - 1],
    decreases weight(nodes, cur) + stack_weight(nodes, stack),
{
    let open = bound_of(nodes, q, cur) < b.0[K - 1];
    if open && 0 <= cur < nodes.len() && nodes[cur].left >= 0 && children_ok(nodes, cur) {
        let far = far_child(nodes, q, cur);
        let waits = bound_of(nodes, q, far) < b.0[K - 1] && stack.len() < STACK_CAP;
        assert(stack.push(far).drop_last() =~= stack);
        lemma_walked_lowers(
            nodes,
            vectors,
            labels,
            q,
            b,
            near_child(nodes, q, cur),
            if waits {
                stack.push(far)
            } else {
                stack
            },
        );
    } else {
        let leaf = leaf_entries(
            vectors,
            labels,
            nodes[cur].start as int,
            nodes[cur].count as nat,
        );
        lemma_scanned_lowers(b, q, leaf);
        let next = if open && nodes[cur].left < 0 {
            scanned(b, q, leaf)
        } else {
            b
        };
        if stack.len() > 0 {
            lemma_walked_lowers(
                nodes,
                vectors,
                labels,
                q,
                next,
                stack.last(),
                stack.drop_last(),
            );
        }
    }
}

/// A search of a tree is a search of the child whose box is nearer, the left one
/// where both are as near, and then of the other. What is no nearer than the last
/// of the list is left out, and the entries of a leaf are offered one by one.
pub proof fn nearer_children_come_first(
    nodes: Seq<Node>,
    vectors: Seq<i16>,
    labels: Seq<u8>,
    q: Seq<i16>,
    b: Best,
    cur: int,
)
    requires
        structured(nodes, vectors.len(), labels.len()),
        0 <= cur < nodes.len(),
        height(nodes, cur) <= STACK_CAP,
        in_line(b),
    ensures
        ({
            let none = Seq::<int>::empty();
            let node = nodes[cur];
            let after = walked(nodes, vectors, labels, q, b, cur, none);
            if box_dist(q, node.min@, node.max@) >= b.0[K - 1] {
                after == b
            } else if node.left < 0 {
                after == scanned(
                    b,
                    q,
                    leaf_entries(vectors, labels, node.start as int, node.count as nat),
                )
            } else {
                let l = nodes[node.left as int];
                let r = nodes[node.right as int];
                let (one, other) = if box_dist(q, l.min@, l.max@) <= box_dist(q, r.min@, r.max@) {
                    (node.left as int, node.right as int)
                } else {
                    (node.right as int, node.left as int)
                };
                after == walked(
                    nodes,
                    vectors,
                    labels,
                    q,
                    walked(nodes, vectors, labels, q, b, one, none),
                    other,
                    none,
                )
            }
        }),
{
    let none = Seq::<int>::empty();
    assert(node_ok(nodes, vectors.len(), labels.len(), cur));
    if bound_of(nodes, q, cur) < b.0[K - 1] && nodes[cur].left >= 0 {
        let near = near_child(nodes, q, cur);
        let far = far_child(nodes, q, cur);
        let one = none.push(far);
        assert(one.drop_last() =~= none);
        let b1 = walked(nodes, vectors, labels, q, b, near, none);
        lemma_walked_lowers(nodes, vectors, labels, q, b, near, none);
        assert(node_ok(nodes, vectors.len(), labels.len(), far));
        if bound_of(nodes, q, far) < b.0[K - 1] {
            assert forall|j: int| 0 <= j < one.len() implies 0 <= #[trigger] one[j] < nodes.len()
                && height(nodes, one[j]) + j <= STACK_CAP by {}
            lemma_resumed(nodes, vectors, labels, q, b, near, one);
        }
    }
}

} // verus!
