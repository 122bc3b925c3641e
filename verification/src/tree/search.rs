//! Walking a partition's tree for the nearest entries.
use vstd::prelude::*;

use crate::tree::best::insert_best;
use crate::tree::kernel::{
    lane_vec, lower_bound_box, scan_block, sq_dist, QVec, BLOCK, K, LANES,
};
use crate::tree::model::{
    blocks, leaf_entries, leaf_entry, node_ok, structured, weight, Node,
};
use crate::tree::walk::{bound_of, scanned, stack_weight, walked, STACK_CAP};

verus! {

/// The waiting subtrees.
spec fn ids(stack: Seq<(usize, i64)>, n: nat) -> Seq<int> {
    Seq::new(n, |j: int| stack[j].0 as int)
}

/// Offers every entry of a leaf to the list.
fn scan_leaf(
    node: &Node,
    vectors: &[i16],
    labels: &[u8],
    q: &QVec,
    best_dists: &mut [i64; 5],
    best_lbl: &mut [u8; 5],
)
    requires
        node.left < 0,
        (node.start + blocks(node.count as int)) * BLOCK <= vectors@.len(),
        (node.start + blocks(node.count as int)) * LANES <= labels@.len(),
    ensures
        (final(best_dists)@, final(best_lbl)@) == scanned(
            (old(best_dists)@, old(best_lbl)@),
            q@,
            leaf_entries(vectors@, labels@, node.start as int, node.count as nat),
        ),
{
    let start: usize = node.start as usize;
    let count: usize = node.count as usize;
    let nv: usize = vectors.len();
    let nl: usize = labels.len();
    let ghost all = leaf_entries(vectors@, labels@, start as int, count as nat);
    let ghost b0 = (best_dists@, best_lbl@);
    let mut i: usize = 0;
    let mut b: usize = 0;
    assert(all.take(0) =~= Seq::empty());
    while i < count
        invariant
            start == node.start,
            count == node.count,
            nv == vectors@.len(),
            nl == labels@.len(),
            (start + blocks(count as int)) * BLOCK <= nv,
            (start + blocks(count as int)) * LANES <= nl,
            all == leaf_entries(vectors@, labels@, start as int, count as nat),
            i <= count,
            i < count ==> i == b * LANES,
            (best_dists@, best_lbl@) == scanned(b0, q@, all.take(i as int)),
        decreases count - i,
    {
        assert(b + 1 <= blocks(count as int));
        let block_base = (start + b) * BLOCK;
        let label_base = (start + b) * LANES;
        let dists = scan_block(vectors, block_base, q);
        let lanes: usize = if count - i < LANES {
            count - i
        } else {
            LANES
        };
        let mut lane: usize = 0;
        while lane < lanes
            invariant
                start == node.start,
                count == node.count,
                nl == labels@.len(),
                all == leaf_entries(vectors@, labels@, start as int, count as nat),
                i == b * LANES,
                i + lanes <= count,
                lane <= lanes <= LANES,
                block_base == (start + b) * BLOCK,
                label_base == (start + b) * LANES,
                label_base + LANES <= nl,
                forall|j: int|
                    0 <= j < LANES ==> #[trigger] dists[j] == sq_dist(
                        q@,
                        lane_vec(vectors@, block_base as int, j),
                    ),
                (best_dists@, best_lbl@) == scanned(b0, q@, all.take(i + lane)),
            decreases lanes - lane,
        {
            let dist = dists[lane];
            let label = labels[label_base + lane];
            insert_best(dist, label, best_dists, best_lbl);
            proof {
                let at = i + lane;
                assert(at / LANES as int == b && at % LANES as int == lane);
                assert(all[at] == leaf_entry(vectors@, labels@, start as int, at));
                assert(all.take(at + 1).drop_last() =~= all.take(at));
                assert(all.take(at + 1).last() == all[at]);
            }
            lane = lane + 1;
        }
        i = i + lanes;
        b = b + 1;
    }
    assert(all.take(count as int) =~= all);
}

/// Visits the tree below `root`, nearer child first, and leaves out every
/// subtree whose box is no nearer than the last of the list.
pub(crate) fn search(
    root: usize,
    nodes: &[Node],
    vectors: &[i16],
    labels: &[u8],
    q: &QVec,
    best_dists: &mut [i64; 5],
    best_lbl: &mut [u8; 5],
)
    requires
        root < nodes@.len(),
        structured(nodes@, vectors@.len(), labels@.len()),
    ensures
        (final(best_dists)@, final(best_lbl)@) == walked(
            nodes@,
            vectors@,
            labels@,
            q@,
            (old(best_dists)@, old(best_lbl)@),
            root as int,
            Seq::empty(),
        ),
{
    let ghost ns = nodes@;
    let ghost vs = vectors@;
    let ghost ls = labels@;
    let ghost result = walked(
        ns,
        vs,
        ls,
        q@,
        (best_dists@, best_lbl@),
        root as int,
        Seq::empty(),
    );
    let mut stack: [(usize, i64); 64] = [(0usize, 0i64); 64];
    let mut stack_len: usize = 0;
    let mut cur: usize = root;
    let mut cur_bound: i64 = lower_bound_box(q, &nodes[root].min, &nodes[root].max);
    assert(ids(stack@, 0) =~= Seq::<int>::empty());
    let mut going: bool = true;
    while going
        invariant
            ns == nodes@,
            vs == vectors@,
            ls == labels@,
            structured(ns, vs.len(), ls.len()),
            stack_len <= STACK_CAP,
            stack@.len() == STACK_CAP,
            cur < ns.len(),
            cur_bound == bound_of(ns, q@, cur as int),
            forall|j: int|
                0 <= j < stack_len ==> (#[trigger] stack[j]).0 < ns.len() && stack[j].1
                    == bound_of(ns, q@, stack[j].0 as int),
            going ==> result == walked(
                ns,
                vs,
                ls,
                q@,
                (best_dists@, best_lbl@),
                cur as int,
                ids(stack@, stack_len as nat),
            ),
            !going ==> result == (best_dists@, best_lbl@),
        decreases
                (if going {
                    1 + weight(ns, cur as int) + stack_weight(ns, ids(stack@, stack_len as nat))
                } else {
                    0
                }),
    {
        let ghost stack0 = stack@;
        let ghost len0 = stack_len;
        let ghost wait0 = ids(stack0, len0 as nat);
        assert(node_ok(ns, vs.len(), ls.len(), cur as int));
        let mut descend: bool = false;
        if cur_bound < best_dists[K - 1] {
            let node = nodes[cur];
            if node.left < 0 {
                scan_leaf(&node, vectors, labels, q, best_dists, best_lbl);
            } else {
                let l: usize = node.left as usize;
                let r: usize = node.right as usize;
                let lb = lower_bound_box(q, &nodes[l].min, &nodes[l].max);
                let rb = lower_bound_box(q, &nodes[r].min, &nodes[r].max);
                let (near, near_b, far, far_b) = if lb <= rb {
                    (l, lb, r, rb)
                } else {
                    (r, rb, l, lb)
                };
                assert(wait0.push(far as int).drop_last() =~= wait0);
                if far_b < best_dists[K - 1] && stack_len < STACK_CAP {
                    stack[stack_len] = (far, far_b);
                    stack_len = stack_len + 1;
                    assert(ids(stack@, stack_len as nat) =~= wait0.push(far as int));
                }
                cur = near;
                cur_bound = near_b;
                descend = true;
            }
        }
        if !descend {
            if stack_len == 0 {
                going = false;
            } else {
                stack_len = stack_len - 1;
                let (c, b) = stack[stack_len];
                cur = c;
                cur_bound = b;
                assert(ids(stack@, stack_len as nat) =~= wait0.drop_last());
                assert(wait0.last() == cur);
            }
        }
    }
}

} // verus!
