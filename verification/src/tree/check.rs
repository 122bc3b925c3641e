//! Deciding whether the nodes of a partition point only at what is there.
use vstd::prelude::*;

use crate::tree::model::{
    blocks, children_ok, ends, ends_within, lemma_ends_join, links_in, node_ok, structured, Node,
};

verus! {

/// How many places are not marked.
spec fn unmarked(marks: Seq<bool>) -> nat
    decreases marks.len(),
{
    if marks.len() == 0 {
        0
    } else {
        unmarked(marks.drop_last()) + if marks.last() {
            0nat
        } else {
            1nat
        }
    }
}

/// A mark more leaves one place fewer.
proof fn lemma_mark(marks: Seq<bool>, i: int)
    requires
        0 <= i < marks.len(),
        !marks[i],
    ensures
        unmarked(marks) == unmarked(marks.update(i, true)) + 1,
    decreases marks.len(),
{
    let next = marks.update(i, true);
    if i == marks.len() - 1 {
        assert(next.drop_last() =~= marks.drop_last());
    } else {
        assert(next.drop_last() =~= marks.drop_last().update(i, true));
        lemma_mark(marks.drop_last(), i);
    }
}

/// Where no place is left, all are marked.
proof fn lemma_all_marked(marks: Seq<bool>)
    ensures
        unmarked(marks) == 0 <==> forall|i: int| 0 <= i < marks.len() ==> #[trigger] marks[i],
    decreases marks.len(),
{
    if marks.len() > 0 {
        let rest = marks.drop_last();
        lemma_all_marked(rest);
        assert(forall|i: int| 0 <= i < rest.len() ==> #[trigger] rest[i] == marks[i]);
        if unmarked(marks) == 0 {
            assert forall|i: int| 0 <= i < marks.len() implies #[trigger] marks[i] by {
                if i < rest.len() {
                    assert(rest[i]);
                }
            }
        } else if marks.last() {
            let i = choose|i: int| 0 <= i < rest.len() && !#[trigger] rest[i];
            assert(!marks[i]);
        } else {
            assert(!marks[marks.len() - 1]);
        }
    }
}

/// No place is marked at first.
proof fn lemma_none_marked(marks: Seq<bool>)
    requires
        forall|i: int| 0 <= i < marks.len() ==> !#[trigger] marks[i],
    ensures
        unmarked(marks) == marks.len(),
    decreases marks.len(),
{
    if marks.len() > 0 {
        lemma_none_marked(marks.drop_last());
    }
}

/// Whether node `i` has its mark, or a child without one.
spec fn waits(nodes: Seq<Node>, marks: Seq<bool>, i: int) -> bool {
    marks[i] || (nodes[i].left >= 0 && !(marks[nodes[i].left as int]
        && marks[nodes[i].right as int]))
}

/// Where every node without a mark waits for a child, every node that leads to
/// leaves has its mark.
proof fn lemma_marks_are_final(nodes: Seq<Node>, marks: Seq<bool>, i: int, n: nat)
    requires
        marks.len() == nodes.len(),
        forall|j: int| 0 <= j < nodes.len() ==> #[trigger] waits(nodes, marks, j),
        ends_within(nodes, i, n),
    ensures
        marks[i],
    decreases n,
{
    assert(waits(nodes, marks, i));
    if nodes[i].left >= 0 {
        lemma_marks_are_final(nodes, marks, nodes[i].left as int, (n - 1) as nat);
        lemma_marks_are_final(nodes, marks, nodes[i].right as int, (n - 1) as nat);
    }
}

/// Decides whether the ways down from every node come to leaves: marks nodes
/// from the leaves upwards, until a pass over the nodes marks no more.
fn all_end(nodes: &[Node]) -> (ok: bool)
    requires
        forall|i: int|
            0 <= i < nodes@.len() && nodes@[i].left >= 0 ==> #[trigger] links_in(nodes@, i),
    ensures
        ok == forall|i: int| 0 <= i < nodes@.len() ==> #[trigger] ends(nodes@, i),
{
    let n: usize = nodes.len();
    let mut marks: Vec<bool> = Vec::new();
    while marks.len() < n
        invariant
            marks@.len() <= n,
            forall|i: int| 0 <= i < marks@.len() ==> !#[trigger] marks@[i],
        decreases n - marks@.len(),
    {
        marks.push(false);
    }
    proof {
        lemma_none_marked(marks@);
    }
    let mut left: usize = n;
    loop
        invariant
            n == nodes@.len(),
            marks@.len() == n,
            left == unmarked(marks@),
            forall|i: int|
                0 <= i < nodes@.len() && nodes@[i].left >= 0 ==> #[trigger] links_in(nodes@, i),
            forall|i: int| 0 <= i < n && #[trigger] marks@[i] ==> ends(nodes@, i),
        decreases left,
    {
        let before: usize = left;
        let mut i: usize = n;
        while i > 0
            invariant
                n == nodes@.len(),
                i <= n,
                marks@.len() == n,
                left == unmarked(marks@),
                left <= before,
                forall|i: int|
                    0 <= i < nodes@.len() && nodes@[i].left >= 0 ==> #[trigger] links_in(nodes@, i),
                forall|i: int| 0 <= i < n && #[trigger] marks@[i] ==> ends(nodes@, i),
                left == before ==> forall|j: int|
                    i <= j < n ==> #[trigger] waits(nodes@, marks@, j),
            decreases i,
        {
            i = i - 1;
            let node = nodes[i];
            assert(node.left >= 0 ==> links_in(nodes@, i as int));
            if !marks[i] && (node.left < 0 || (marks[node.left as usize]
                && marks[node.right as usize])) {
                proof {
                    lemma_ends_join(nodes@, i as int);
                    lemma_mark(marks@, i as int);
                }
                marks.set(i, true);
                left = left - 1;
            }
        }
        if left == before {
            proof {
                lemma_all_marked(marks@);
                if left == 0 {
                    assert forall|j: int| 0 <= j < n implies #[trigger] ends(nodes@, j) by {
                        assert(marks@[j]);
                    }
                } else {
                    let j = choose|j: int| 0 <= j < n && !#[trigger] marks@[j];
                    assert(!ends(nodes@, j)) by {
                        reveal(ends);
                        if ends(nodes@, j) {
                            let m = choose|m: nat| #[trigger] ends_within(nodes@, j, m);
                            lemma_marks_are_final(nodes@, marks@, j, m);
                        }
                    }
                }
            }
            return left == 0;
        }
    }
}

/// Decides `structured`.
pub fn nodes_hold(nodes: &[Node], vectors: usize, labels: usize) -> (ok: bool)
    ensures
        ok == structured(nodes@, vectors as nat, labels as nat),
{
    let n: usize = nodes.len();
    let mut i: usize = 0;
    while i < n
        invariant
            n == nodes@.len(),
            i <= n,
            forall|j: int|
                0 <= j < i && nodes@[j].left >= 0 ==> #[trigger] links_in(nodes@, j),
            forall|j: int|
                0 <= j < i && nodes@[j].left < 0 ==> #[trigger] node_ok(
                    nodes@,
                    vectors as nat,
                    labels as nat,
                    j,
                ),
        decreases n - i,
    {
        let node = nodes[i];
        let ok = if node.left < 0 {
            let end: u64 = node.start as u64 + (node.count as u64 + 7) / 8;
            assert(end == node.start + blocks(node.count as int));
            end * 112 <= vectors as u64 && end * 8 <= labels as u64
        } else {
            (node.left as usize) < n && node.right >= 0 && (node.right as usize) < n
        };
        if !ok {
            assert(!node_ok(nodes@, vectors as nat, labels as nat, i as int));
            return false;
        }
        i = i + 1;
    }
    let ok = all_end(nodes);
    proof {
        if ok {
            assert forall|j: int| 0 <= j < n implies #[trigger] node_ok(
                nodes@,
                vectors as nat,
                labels as nat,
                j,
            ) by {
                assert(ends(nodes@, j));
                if nodes@[j].left >= 0 {
                    assert(links_in(nodes@, j));
                }
            }
        } else {
            let j = choose|j: int| 0 <= j < n && !#[trigger] ends(nodes@, j);
            if nodes@[j].left < 0 {
                lemma_ends_join(nodes@, j);
            }
            assert(!children_ok(nodes@, j));
            assert(!node_ok(nodes@, vectors as nat, labels as nat, j));
        }
    }
    ok
}

} // verus!
