//! The nodes of a partition and the entries that a subtree stands for.
use vstd::multiset::Multiset;
use vstd::prelude::*;

use crate::tree::kernel::{
    box_dist, box_dist_is_lower_bound, in_box, lane_vec, sq_dist, QVec, BLOCK, DIMS, LANES,
};

verus! {

/// A tree node. An inner node has two children, given by their indices within
/// the partition's nodes. A leaf has `left` and `right` at -1 and owns `count`
/// vectors, packed in blocks from block `start` on.
#[derive(Clone, Copy)]
pub struct Node {
    pub left: i32,
    pub right: i32,
    pub start: u32,
    pub count: u32,
    pub min: QVec,
    pub max: QVec,
}

/// A stored vector without its padding, and its label.
pub type Entry = (Seq<i16>, u8);

/// Blocks that `count` vectors take up.
pub open spec fn blocks(count: int) -> int {
    (count + LANES - 1) / LANES as int
}

/// The `i`-th entry of a leaf whose first block is `start`.
pub open spec fn leaf_entry(vectors: Seq<i16>, labels: Seq<u8>, start: int, i: int) -> Entry {
    (
        lane_vec(vectors, (start + i / LANES as int) * BLOCK, i % LANES as int),
        labels[start * LANES + i],
    )
}

/// The entries of a leaf.
pub open spec fn leaf_entries(
    vectors: Seq<i16>,
    labels: Seq<u8>,
    start: int,
    count: nat,
) -> Seq<Entry> {
    Seq::new(count, |i: int| leaf_entry(vectors, labels, start, i))
}

/// Whether both children of an inner node are there.
pub open spec fn links_in(nodes: Seq<Node>, i: int) -> bool {
    &&& 0 <= nodes[i].left < nodes.len()
    &&& 0 <= nodes[i].right < nodes.len()
}

/// Whether every way down from node `i` comes to a leaf after fewer than `n`
/// steps.
pub open spec fn ends_within(nodes: Seq<Node>, i: int, n: nat) -> bool
    decreases n,
{
    &&& n > 0
    &&& 0 <= i < nodes.len()
    &&& nodes[i].left >= 0 ==> {
        &&& links_in(nodes, i)
        &&& ends_within(nodes, nodes[i].left as int, (n - 1) as nat)
        &&& ends_within(nodes, nodes[i].right as int, (n - 1) as nat)
    }
}

/// Whether every way down from node `i` comes to a leaf.
#[verifier::opaque]
pub open spec fn ends(nodes: Seq<Node>, i: int) -> bool {
    exists|n: nat| #[trigger] ends_within(nodes, i, n)
}

/// The fewest steps that every way down from node `i` stays below.
#[verifier::opaque]
pub open spec fn rank(nodes: Seq<Node>, i: int) -> nat {
    choose|n: nat| #[trigger]
        ends_within(nodes, i, n) && forall|m: nat| m < n ==> !#[trigger] ends_within(nodes, i, m)
}

/// Whether the children of an inner node are there, and the ways down through
/// them come to leaves.
pub open spec fn children_ok(nodes: Seq<Node>, i: int) -> bool {
    links_in(nodes, i) && ends(nodes, i)
}

pub proof fn lemma_ends_later(nodes: Seq<Node>, i: int, n: nat, m: nat)
    requires
        ends_within(nodes, i, n),
        n <= m,
    ensures
        ends_within(nodes, i, m),
    decreases n,
{
    if nodes[i].left >= 0 {
        lemma_ends_later(nodes, nodes[i].left as int, (n - 1) as nat, (m - 1) as nat);
        lemma_ends_later(nodes, nodes[i].right as int, (n - 1) as nat, (m - 1) as nat);
    }
}

/// There is a fewest number of steps.
proof fn lemma_rank(nodes: Seq<Node>, i: int, n: nat)
    requires
        ends_within(nodes, i, n),
    ensures
        ends_within(nodes, i, rank(nodes, i)),
        rank(nodes, i) <= n,
    decreases n,
{
    reveal(rank);
    if exists|m: nat| m < n && #[trigger] ends_within(nodes, i, m) {
        let m = choose|m: nat| m < n && #[trigger] ends_within(nodes, i, m);
        lemma_rank(nodes, i, m);
    } else {
        assert(ends_within(nodes, i, n) && forall|m: nat|
            m < n ==> !#[trigger] ends_within(nodes, i, m));
        let r = rank(nodes, i);
        if n < r {
            assert(!ends_within(nodes, i, n));
        }
    }
}

/// The ways down from a child are shorter.
pub proof fn lemma_children_rank(nodes: Seq<Node>, i: int)
    requires
        0 <= i < nodes.len(),
        nodes[i].left >= 0,
        children_ok(nodes, i),
    ensures
        ends(nodes, nodes[i].left as int),
        ends(nodes, nodes[i].right as int),
        rank(nodes, nodes[i].left as int) < rank(nodes, i),
        rank(nodes, nodes[i].right as int) < rank(nodes, i),
{
    reveal(ends);
    let n = choose|n: nat| #[trigger] ends_within(nodes, i, n);
    lemma_rank(nodes, i, n);
    let r = rank(nodes, i);
    assert(ends_within(nodes, i, r));
    lemma_rank(nodes, nodes[i].left as int, (r - 1) as nat);
    lemma_rank(nodes, nodes[i].right as int, (r - 1) as nat);
}

/// The ways down from a node come to leaves where those from its children do.
pub proof fn lemma_ends_join(nodes: Seq<Node>, i: int)
    requires
        0 <= i < nodes.len(),
        nodes[i].left >= 0 ==> links_in(nodes, i) && ends(nodes, nodes[i].left as int) && ends(
            nodes,
            nodes[i].right as int,
        ),
    ensures
        ends(nodes, i),
{
    reveal(ends);
    if nodes[i].left >= 0 {
        let l = nodes[i].left as int;
        let r = nodes[i].right as int;
        let a = choose|n: nat| #[trigger] ends_within(nodes, l, n);
        let b = choose|n: nat| #[trigger] ends_within(nodes, r, n);
        lemma_ends_later(nodes, l, a, a + b);
        lemma_ends_later(nodes, r, b, a + b);
        assert(ends_within(nodes, i, a + b + 1));
    } else {
        assert(ends_within(nodes, i, 1));
    }
}

/// The entries below node `i`.
pub open spec fn entries(
    nodes: Seq<Node>,
    vectors: Seq<i16>,
    labels: Seq<u8>,
    i: int,
) -> Seq<Entry>
    decreases rank(nodes, i),
{
    if !(0 <= i < nodes.len()) {
        Seq::empty()
    } else if nodes[i].left < 0 {
        leaf_entries(vectors, labels, nodes[i].start as int, nodes[i].count as nat)
    } else if children_ok(nodes, i) {
        proof {
            lemma_children_rank(nodes, i);
        }
        entries(nodes, vectors, labels, nodes[i].left as int) + entries(
            nodes,
            vectors,
            labels,
            nodes[i].right as int,
        )
    } else {
        Seq::empty()
    }
}

/// How many nodes lie at and below node `i`.
pub open spec fn weight(nodes: Seq<Node>, i: int) -> nat
    decreases rank(nodes, i),
{
    if 0 <= i < nodes.len() && nodes[i].left >= 0 && children_ok(nodes, i) {
        proof {
            lemma_children_rank(nodes, i);
        }
        1 + weight(nodes, nodes[i].left as int) + weight(nodes, nodes[i].right as int)
    } else {
        1
    }
}

/// How many levels lie below node `i`.
pub open spec fn height(nodes: Seq<Node>, i: int) -> nat
    decreases rank(nodes, i),
{
    if 0 <= i < nodes.len() && nodes[i].left >= 0 && children_ok(nodes, i) {
        proof {
            lemma_children_rank(nodes, i);
        }
        let l = height(nodes, nodes[i].left as int);
        let r = height(nodes, nodes[i].right as int);
        1 + if l >= r {
            l
        } else {
            r
        }
    } else {
        0
    }
}

/// Whether node `i` points only at what is there: children that lead to leaves,
/// or blocks and labels within the partition.
pub open spec fn node_ok(nodes: Seq<Node>, vectors: nat, labels: nat, i: int) -> bool {
    if nodes[i].left < 0 {
        let end = nodes[i].start + blocks(nodes[i].count as int);
        &&& end * BLOCK <= vectors
        &&& end * LANES <= labels
    } else {
        children_ok(nodes, i)
    }
}

/// Whether every node of a partition points only at what is there.
pub open spec fn structured(nodes: Seq<Node>, vectors: nat, labels: nat) -> bool {
    forall|i: int| 0 <= i < nodes.len() ==> #[trigger] node_ok(nodes, vectors, labels, i)
}

/// Whether the box of `inner` lies in the box of `outer`.
pub open spec fn nested(outer: Node, inner: Node) -> bool {
    forall|d: int|
        0 <= d < DIMS ==> #[trigger] outer.min[d] <= inner.min[d] && inner.max[d] <= outer.max[d]
}

/// Whether the box of node `i` holds the leaf's vectors or the children's boxes.
pub open spec fn box_ok(nodes: Seq<Node>, vectors: Seq<i16>, labels: Seq<u8>, i: int) -> bool {
    if nodes[i].left < 0 {
        forall|j: int|
            0 <= j < nodes[i].count ==> in_box(
                (#[trigger] leaf_entry(vectors, labels, nodes[i].start as int, j)).0,
                nodes[i].min@,
                nodes[i].max@,
            )
    } else {
        &&& nested(nodes[i], nodes[nodes[i].left as int])
        &&& nested(nodes[i], nodes[nodes[i].right as int])
    }
}

/// Whether every box of a partition holds what lies below it.
pub open spec fn boxed(nodes: Seq<Node>, vectors: Seq<i16>, labels: Seq<u8>) -> bool {
    forall|i: int| 0 <= i < nodes.len() ==> #[trigger] box_ok(nodes, vectors, labels, i)
}

/// An entry as a hit: its squared distance from the query, and its label.
pub open spec fn hit(q: Seq<i16>, e: Entry) -> (int, int) {
    (sq_dist(q, e.0), e.1 as int)
}

/// The hits of a list of entries.
pub open spec fn hits(q: Seq<i16>, es: Seq<Entry>) -> Multiset<(int, int)> {
    es.map_values(|e: Entry| hit(q, e)).to_multiset()
}

/// Hits of two lists add up.
pub proof fn lemma_hits_add(q: Seq<i16>, a: Seq<Entry>, b: Seq<Entry>)
    ensures
        hits(q, a + b) == hits(q, a).add(hits(q, b)),
{
    let f = |e: Entry| hit(q, e);
    assert((a + b).map_values(f) =~= a.map_values(f) + b.map_values(f));
    vstd::seq_lib::lemma_multiset_commutative(a.map_values(f), b.map_values(f));
}

/// One more entry is one more hit.
pub proof fn lemma_hits_push(q: Seq<i16>, a: Seq<Entry>, e: Entry)
    ensures
        hits(q, a.push(e)) == hits(q, a).insert(hit(q, e)),
{
    broadcast use vstd::seq_lib::group_to_multiset_ensures;

    let f = |e: Entry| hit(q, e);
    assert(a.push(e).map_values(f) =~= a.map_values(f).push(hit(q, e)));
}

/// Hits do not depend on the order of the entries.
pub proof fn lemma_hits_permuted(q: Seq<i16>, a: Seq<Entry>, b: Seq<Entry>)
    requires
        a.to_multiset() == b.to_multiset(),
    ensures
        hits(q, a) == hits(q, b),
    decreases a.len(),
{
    broadcast use vstd::seq_lib::group_to_multiset_ensures;

    assert(a.to_multiset().len() == a.len());
    assert(b.to_multiset().len() == b.len());
    let f = |e: Entry| hit(q, e);
    if a.len() == 0 {
        assert(a =~= b);
    } else {
        let e = a.last();
        assert(a.contains(e));
        assert(b.to_multiset().count(e) > 0);
        let j = choose|j: int| 0 <= j < b.len() && b[j] == e;
        assert(a.drop_last() =~= a.remove(a.len() - 1));
        lemma_hits_permuted(q, a.drop_last(), b.remove(j));
        assert(a =~= a.drop_last().push(e));
        lemma_hits_push(q, a.drop_last(), e);
        assert(b.map_values(f).remove(j) =~= b.remove(j).map_values(f));
        assert(b.map_values(f)[j] == hit(q, e));
        assert(hits(q, b.remove(j)) == hits(q, b).remove(hit(q, e)));
        assert(b.map_values(f).contains(hit(q, e)));
        assert(hits(q, b) =~= hits(q, b.remove(j)).insert(hit(q, e)));
    }
}

/// What an inner box holds, the outer box holds.
proof fn lemma_in_outer_box(outer: Node, inner: Node, v: Seq<i16>)
    requires
        nested(outer, inner),
        in_box(v, inner.min@, inner.max@),
    ensures
        in_box(v, outer.min@, outer.max@),
{
    assert forall|d: int| 0 <= d < DIMS implies outer.min@[d] <= #[trigger] v[d]
        <= outer.max@[d] by {
        assert(outer.min[d] <= inner.min[d]);
    }
}

/// The box of a node holds every entry below it.
pub proof fn lemma_entries_in_box(
    nodes: Seq<Node>,
    vectors: Seq<i16>,
    labels: Seq<u8>,
    i: int,
    j: int,
)
    requires
        boxed(nodes, vectors, labels),
        0 <= i < nodes.len(),
        0 <= j < entries(nodes, vectors, labels, i).len(),
    ensures
        in_box(entries(nodes, vectors, labels, i)[j].0, nodes[i].min@, nodes[i].max@),
    decreases rank(nodes, i),
{
    assert(box_ok(nodes, vectors, labels, i));
    if nodes[i].left < 0 {
        assert(entries(nodes, vectors, labels, i)[j] == leaf_entry(
            vectors,
            labels,
            nodes[i].start as int,
            j,
        ));
    } else if children_ok(nodes, i) {
        let l = nodes[i].left as int;
        let r = nodes[i].right as int;
        lemma_children_rank(nodes, i);
        let le = entries(nodes, vectors, labels, l);
        let v = entries(nodes, vectors, labels, i)[j].0;
        let c = if j < le.len() {
            l
        } else {
            r
        };
        if j < le.len() {
            lemma_entries_in_box(nodes, vectors, labels, l, j);
        } else {
            lemma_entries_in_box(nodes, vectors, labels, r, j - le.len());
        }
        lemma_in_outer_box(nodes[i], nodes[c], v);
    }
}

/// No entry below a node is nearer than the node's box.
pub proof fn lemma_box_bounds_hits(
    nodes: Seq<Node>,
    vectors: Seq<i16>,
    labels: Seq<u8>,
    i: int,
    q: Seq<i16>,
)
    requires
        boxed(nodes, vectors, labels),
        0 <= i < nodes.len(),
    ensures
        forall|h: (int, int)| #[trigger]
            hits(q, entries(nodes, vectors, labels, i)).contains(h) ==> box_dist(
                q,
                nodes[i].min@,
                nodes[i].max@,
            ) <= h.0,
{
    broadcast use vstd::seq_lib::group_to_multiset_ensures;

    let es = entries(nodes, vectors, labels, i);
    let f = |e: Entry| hit(q, e);
    assert forall|h: (int, int)| #[trigger] hits(q, es).contains(h) implies box_dist(
        q,
        nodes[i].min@,
        nodes[i].max@,
    ) <= h.0 by {
        assert(es.map_values(f).contains(h));
        let j = choose|j: int| 0 <= j < es.len() && es.map_values(f)[j] == h;
        lemma_entries_in_box(nodes, vectors, labels, i, j);
        box_dist_is_lower_bound(q, es[j].0, nodes[i].min@, nodes[i].max@);
    }
}

} // verus!
