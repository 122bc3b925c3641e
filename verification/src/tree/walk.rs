//! Which entries a search visits, in which order, and what it ends up with.
use vstd::multiset::Multiset;
use vstd::prelude::*;

use crate::nearest::nearest;
use crate::tree::best::{
    ascending, held, lemma_ascending, lemma_offer, lemma_pass_over, lemma_rank_bounds, rank,
    squeeze_in,
};
use crate::tree::kernel::{
    box_dist, lemma_box_dist_bound, lemma_sq_dist_bound, sq_dist, DIMS, K,
};
use crate::tree::model::{
    boxed, children_ok, entries, height, hit, hits, leaf_entries, lemma_box_bounds_hits,
    lemma_hits_add, lemma_hits_push, node_ok, structured, weight, Entry, Node,
};

verus! {

/// Subtrees that can wait to be visited.
pub const STACK_CAP: usize = 64;

/// The list of the nearest: distances and labels.
pub type Best = (Seq<i64>, Seq<u8>);

/// The list after a candidate: it goes behind those that are no further and the
/// last is dropped, or it is turned away where it is no nearer than the last.
pub open spec fn offered(b: Best, dist: i64, label: u8) -> Best {
    if dist >= b.0[K - 1] {
        b
    } else {
        (squeeze_in(b.0, rank(b.0, dist), dist), squeeze_in(b.1, rank(b.0, dist), label))
    }
}

/// The list after all of the entries, one by one.
pub open spec fn scanned(b: Best, q: Seq<i16>, es: Seq<Entry>) -> Best
    decreases es.len(),
{
    if es.len() == 0 {
        b
    } else {
        let e = es.last();
        offered(scanned(b, q, es.drop_last()), sq_dist(q, e.0) as i64, e.1)
    }
}

/// How near the box of a node is.
pub open spec fn bound_of(nodes: Seq<Node>, q: Seq<i16>, i: int) -> int {
    box_dist(q, nodes[i].min@, nodes[i].max@)
}

/// The child whose box is nearer; the left one where both are equally near.
pub open spec fn near_child(nodes: Seq<Node>, q: Seq<i16>, i: int) -> int {
    if bound_of(nodes, q, nodes[i].left as int) <= bound_of(nodes, q, nodes[i].right as int) {
        nodes[i].left as int
    } else {
        nodes[i].right as int
    }
}

/// The other child.
pub open spec fn far_child(nodes: Seq<Node>, q: Seq<i16>, i: int) -> int {
    if bound_of(nodes, q, nodes[i].left as int) <= bound_of(nodes, q, nodes[i].right as int) {
        nodes[i].right as int
    } else {
        nodes[i].left as int
    }
}

/// The nodes at and below the waiting subtrees.
pub open spec fn stack_weight(nodes: Seq<Node>, stack: Seq<int>) -> nat
    decreases stack.len(),
{
    if stack.len() == 0 {
        0
    } else {
        stack_weight(nodes, stack.drop_last()) + weight(nodes, stack.last())
    }
}

/// The list after the subtree of `cur` and then those that wait, the last one
/// first. A subtree whose box is no nearer than the last of the list is left
/// out. Of two children the nearer is visited first, while the other waits.
pub open spec fn walked(
    nodes: Seq<Node>,
    vectors: Seq<i16>,
    labels: Seq<u8>,
    q: Seq<i16>,
    b: Best,
    cur: int,
    stack: Seq<int>,
) -> Best
    decreases weight(nodes, cur) + stack_weight(nodes, stack),
{
    let open = bound_of(nodes, q, cur) < b.0[K - 1];
    if open && 0 <= cur < nodes.len() && nodes[cur].left >= 0 && children_ok(nodes, cur) {
        let far = far_child(nodes, q, cur);
        let waits = bound_of(nodes, q, far) < b.0[K - 1] && stack.len() < STACK_CAP;
        proof {
            assert(stack.push(far).drop_last() =~= stack);
        }
        walked(
            nodes,
            vectors,
            labels,
            q,
            b,
            near_child(nodes, q, cur),
            if waits {
                stack.push(far)
            } else {
                stack
            },
        )
    } else {
        let next = if open && nodes[cur].left < 0 {
            scanned(
                b,
                q,
                leaf_entries(vectors, labels, nodes[cur].start as int, nodes[cur].count as nat),
            )
        } else {
            b
        };
        if stack.len() == 0 {
            next
        } else {
            walked(nodes, vectors, labels, q, next, stack.last(), stack.drop_last())
        }
    }
}

/// Whether a search from `root` reaches every entry that matters: the boxes
/// hold, and the tree is shallow enough for its stack.
pub open spec fn searchable(
    nodes: Seq<Node>,
    vectors: Seq<i16>,
    labels: Seq<u8>,
    root: int,
) -> bool {
    &&& boxed(nodes, vectors, labels)
    &&& height(nodes, root) <= STACK_CAP
}

/// Whether a list is in order, and is the nearest of everything seen.
pub open spec fn best_of(all: Multiset<(int, int)>, b: Best) -> bool {
    &&& b.0.len() == K
    &&& b.1.len() == K
    &&& ascending(b.0)
    &&& nearest(all, K as nat, held(b.0, b.1))
}

/// The hits below the waiting subtrees.
spec fn waiting(
    nodes: Seq<Node>,
    vectors: Seq<i16>,
    labels: Seq<u8>,
    q: Seq<i16>,
    stack: Seq<int>,
) -> Multiset<(int, int)>
    decreases stack.len(),
{
    if stack.len() == 0 {
        Multiset::empty()
    } else {
        waiting(nodes, vectors, labels, q, stack.drop_last()).add(
            hits(q, entries(nodes, vectors, labels, stack.last())),
        )
    }
}

/// A list keeps its length.
proof fn lemma_offered_len(b: Best, dist: i64, label: u8)
    requires
        b.0.len() == K,
        b.1.len() == K,
    ensures
        offered(b, dist, label).0.len() == K,
        offered(b, dist, label).1.len() == K,
{
    lemma_rank_bounds(b.0, dist);
}

/// Offering entries keeps the nearest.
proof fn lemma_scanned(seen: Multiset<(int, int)>, b: Best, q: Seq<i16>, es: Seq<Entry>)
    requires
        best_of(seen, b),
    ensures
        best_of(seen.add(hits(q, es)), scanned(b, q, es)),
    decreases es.len(),
{
    if es.len() == 0 {
        broadcast use vstd::seq_lib::group_to_multiset_ensures;

        assert(es.map_values(|e: Entry| hit(q, e)) =~= Seq::empty());
        assert(seen.add(hits(q, es)) =~= seen);
    } else {
        let front = es.drop_last();
        let e = es.last();
        let mid = scanned(b, q, front);
        let dist = sq_dist(q, e.0) as i64;
        let after = offered(mid, dist, e.1);
        lemma_scanned(seen, b, q, front);
        lemma_sq_dist_bound(q, e.0, DIMS as nat);
        lemma_offered_len(mid, dist, e.1);
        lemma_ascending(mid.0, after.0, dist);
        lemma_offer(
            seen.add(hits(q, front)),
            mid.0,
            mid.1,
            after.0,
            after.1,
            dist,
            e.1,
        );
        assert(front.push(e) =~= es);
        lemma_hits_push(q, front, e);
        assert(seen.add(hits(q, front)).insert(hit(q, e)) =~= seen.add(hits(q, es)));
    }
}

/// What a walk may find: every node that it comes to is there, and the stack has
/// room for what is still to wait.
spec fn at_hand(nodes: Seq<Node>, cur: int, stack: Seq<int>, top: nat) -> bool {
    &&& 0 <= cur < nodes.len()
    &&& top <= STACK_CAP
    &&& height(nodes, cur) + stack.len() <= top
    &&& forall|j: int|
        0 <= j < stack.len() ==> 0 <= #[trigger] stack[j] < nodes.len() && height(nodes, stack[j])
            + j <= top
}

/// A subtree that is left out has nothing that is nearer.
proof fn lemma_left_out(
    nodes: Seq<Node>,
    vectors: Seq<i16>,
    labels: Seq<u8>,
    q: Seq<i16>,
    b: Best,
    i: int,
    seen: Multiset<(int, int)>,
)
    requires
        boxed(nodes, vectors, labels),
        0 <= i < nodes.len(),
        best_of(seen, b),
        bound_of(nodes, q, i) >= b.0[K - 1],
    ensures
        best_of(seen.add(hits(q, entries(nodes, vectors, labels, i))), b),
{
    lemma_box_dist_bound(q, nodes[i].min@, nodes[i].max@, DIMS as nat);
    lemma_box_bounds_hits(nodes, vectors, labels, i, q);
    lemma_pass_over(
        seen,
        hits(q, entries(nodes, vectors, labels, i)),
        b.0,
        b.1,
        bound_of(nodes, q, i),
    );
}

/// A walk ends with the nearest of everything below the subtrees it started
/// with.
proof fn lemma_walked(
    nodes: Seq<Node>,
    vectors: Seq<i16>,
    labels: Seq<u8>,
    q: Seq<i16>,
    b: Best,
    cur: int,
    stack: Seq<int>,
    seen: Multiset<(int, int)>,
    top: nat,
)
    requires
        structured(nodes, vectors.len(), labels.len()),
        boxed(nodes, vectors, labels),
        at_hand(nodes, cur, stack, top),
        best_of(seen, b),
    ensures
        best_of(
            seen.add(hits(q, entries(nodes, vectors, labels, cur))).add(
                waiting(nodes, vectors, labels, q, stack),
            ),
            walked(nodes, vectors, labels, q, b, cur, stack),
        ),
    decreases weight(nodes, cur) + stack_weight(nodes, stack),
{
    let here = hits(q, entries(nodes, vectors, labels, cur));
    let rest = waiting(nodes, vectors, labels, q, stack);
    let open = bound_of(nodes, q, cur) < b.0[K - 1];
    assert(node_ok(nodes, vectors.len(), labels.len(), cur));
    if open && nodes[cur].left >= 0 {
        let near = near_child(nodes, q, cur);
        let far = far_child(nodes, q, cur);
        let nh = hits(q, entries(nodes, vectors, labels, near));
        let fh = hits(q, entries(nodes, vectors, labels, far));
        lemma_hits_add(
            q,
            entries(nodes, vectors, labels, nodes[cur].left as int),
            entries(nodes, vectors, labels, nodes[cur].right as int),
        );
        assert(here =~= nh.add(fh));
        assert(stack.push(far).drop_last() =~= stack);
        if bound_of(nodes, q, far) < b.0[K - 1] {
            let more = stack.push(far);
            assert(stack.len() < STACK_CAP);
            assert forall|j: int| 0 <= j < more.len() implies 0 <= #[trigger] more[j]
                < nodes.len() && height(nodes, more[j]) + j <= top by {
                if j < stack.len() {
                    assert(more[j] == stack[j]);
                }
            }
            lemma_walked(nodes, vectors, labels, q, b, near, more, seen, top);
            assert(seen.add(here).add(rest) =~= seen.add(nh).add(
                waiting(nodes, vectors, labels, q, more),
            ));
        } else {
            lemma_left_out(nodes, vectors, labels, q, b, far, seen);
            lemma_walked(nodes, vectors, labels, q, b, near, stack, seen.add(fh), top);
            assert(seen.add(here).add(rest) =~= seen.add(fh).add(nh).add(rest));
        }
    } else {
        let leaf = leaf_entries(
            vectors,
            labels,
            nodes[cur].start as int,
            nodes[cur].count as nat,
        );
        let next = if open {
            scanned(b, q, leaf)
        } else {
            b
        };
        if open {
            lemma_scanned(seen, b, q, leaf);
        } else {
            lemma_left_out(nodes, vectors, labels, q, b, cur, seen);
        }
        if stack.len() == 0 {
            assert(seen.add(here).add(rest) =~= seen.add(here));
        } else {
            let down = stack.drop_last();
            assert forall|j: int| 0 <= j < down.len() implies 0 <= #[trigger] down[j]
                < nodes.len() && height(nodes, down[j]) + j <= top by {
                assert(down[j] == stack[j]);
            }
            assert(stack.last() == stack[stack.len() - 1]);
            lemma_walked(
                nodes,
                vectors,
                labels,
                q,
                next,
                stack.last(),
                down,
                seen.add(here),
                top,
            );
            let last = hits(q, entries(nodes, vectors, labels, stack.last()));
            assert(seen.add(here).add(rest) =~= seen.add(here).add(last).add(
                waiting(nodes, vectors, labels, q, down),
            ));
        }
    }
}

/// A search from the root ends with the nearest of all that was seen and all
/// that lies below.
pub proof fn walks_find_the_nearest(
    nodes: Seq<Node>,
    vectors: Seq<i16>,
    labels: Seq<u8>,
    q: Seq<i16>,
    b: Best,
    root: int,
    seen: Multiset<(int, int)>,
)
    requires
        structured(nodes, vectors.len(), labels.len()),
        searchable(nodes, vectors, labels, root),
        0 <= root < nodes.len(),
        best_of(seen, b),
    ensures
        best_of(
            seen.add(hits(q, entries(nodes, vectors, labels, root))),
            walked(nodes, vectors, labels, q, b, root, Seq::empty()),
        ),
{
    let all = seen.add(hits(q, entries(nodes, vectors, labels, root)));
    let none = Seq::<int>::empty();
    lemma_walked(nodes, vectors, labels, q, b, root, none, seen, height(nodes, root));
    assert(all.add(waiting(nodes, vectors, labels, q, none)) =~= all);
}

} // verus!
