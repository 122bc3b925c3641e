//! The finished graph and its queries.
use std::collections::HashMap;

use vstd::prelude::*;
use vstd::slice::slice_subrange;

use crate::distance::{sq_dist, sq_dist_over, BVec};
use crate::hnsw::search::{
    beam, beam_search, closed_under, greedy, greedy_single, lemma_greedy_stays, Dists, Layer, Links,
};
use crate::hnsw::visited::{Met, VisitedTable};
use crate::touch::{id_sum, touch_ids, touch_vectors, vector_sum};

verus! {

broadcast use vstd::std_specs::hash::group_hash_axioms;

/// No node.
pub const NONE: u32 = 0xffff_ffff;

/// The squared distance of two vectors. Padding does not count.
pub open spec fn dist(a: BVec, b: BVec) -> int {
    sq_dist(a@, b@, 14)
}

/// The squared distance of two vectors.
pub fn sq_dist_u8(a: &BVec, b: &BVec) -> (s: u32)
    ensures
        s == dist(*a, *b),
{
    sq_dist_over(a, b, 14)
}

/// A finished graph. The links of the lowest layer stand in rows of `m_max0`,
/// a short row ending with `NONE`; those of the upper layers are kept for the
/// nodes that are on them. A query looks for `ef_search` nodes, and the `k`
/// nearest vote.
pub struct StaticHNSW {
    pub vectors: Vec<BVec>,
    pub labels: Vec<u8>,
    pub links0: Vec<u32>,
    pub m_max0: usize,
    pub upper: HashMap<u32, Vec<Vec<u32>>>,
    pub entry: u32,
    pub max_level: usize,
    pub ef_search: usize,
    pub k: usize,
}

/// What stands before the first `NONE`.
pub open spec fn before_none(row: Seq<u32>) -> Seq<u32>
    decreases row.len(),
{
    if row.len() == 0 || row[0] == NONE {
        Seq::empty()
    } else {
        seq![row[0]] + before_none(row.drop_first())
    }
}

/// The row of a node.
pub open spec fn row_of(idx: StaticHNSW, id: int) -> Seq<u32> {
    idx.links0@.subrange(id * idx.m_max0, id * idx.m_max0 + idx.m_max0)
}

/// The links of the lowest layer.
pub open spec fn base_links(idx: StaticHNSW) -> Links {
    |id: int| before_none(row_of(idx, id))
}

/// The links of a node on a layer above the lowest.
pub open spec fn upper_row(idx: StaticHNSW, id: int, layer: int) -> Seq<u32> {
    let key = id as u32;
    if idx.upper@.contains_key(key) && 1 <= layer <= idx.upper@[key]@.len() {
        idx.upper@[key]@[layer - 1]@
    } else {
        Seq::empty()
    }
}

/// The links of a layer above the lowest.
pub open spec fn upper_links(idx: StaticHNSW, layer: int) -> Links {
    |id: int| upper_row(idx, id, layer)
}

/// How far the nodes are from a query.
pub open spec fn query_dists(idx: StaticHNSW, q: BVec) -> Dists {
    |id: int| dist(q, idx.vectors@[id])
}

/// Where a greedy walk down the layers from `top` ends.
pub open spec fn descended(idx: StaticHNSW, q: BVec, ep: int, top: int) -> int
    decreases top,
{
    if top <= 0 {
        ep
    } else {
        descended(idx, q, greedy(query_dists(idx, q), upper_links(idx, top), ep), top - 1)
    }
}

/// How many nodes a query looks for.
pub open spec fn beam_width(idx: StaticHNSW) -> nat {
    if idx.ef_search >= idx.k {
        idx.ef_search as nat
    } else {
        idx.k as nat
    }
}

/// The nodes that vote on a query.
pub open spec fn voters(idx: StaticHNSW, q: BVec) -> Seq<(int, int)> {
    if idx.vectors@.len() == 0 {
        Seq::empty()
    } else {
        let ep = descended(idx, q, idx.entry as int, idx.max_level as int);
        let found = beam(
            query_dists(idx, q),
            base_links(idx),
            idx.vectors@.len(),
            seq![ep as u32],
            beam_width(idx),
        );
        if found.len() <= idx.k {
            found
        } else {
            found.take(idx.k as int)
        }
    }
}

/// How many of the nodes are labelled as fraud.
pub open spec fn frauds_among(labels: Seq<u8>, nodes: Seq<(int, int)>) -> nat
    decreases nodes.len(),
{
    if nodes.len() == 0 {
        0
    } else {
        frauds_among(labels, nodes.drop_last()) + if labels[nodes.last().1] != 0 {
            1nat
        } else {
            0nat
        }
    }
}

impl StaticHNSW {
    /// A label and a row for each vector, an entry where there are vectors, and
    /// links among them only.
    pub open spec fn wf(self) -> bool {
        let n = self.vectors@.len();
        &&& n <= u32::MAX
        &&& self.labels@.len() == n
        &&& self.links0@.len() == n * self.m_max0
        &&& n > 0 ==> self.entry < n
        &&& closed_under(base_links(self), n)
        &&& forall|key: u32| #[trigger] self.upper@.contains_key(key) ==> key < n
        &&& forall|key: u32, l: int, i: int|
            self.upper@.contains_key(key) && 0 <= l < self.upper@[key]@.len() && 0 <= i
                < self.upper@[key]@[l]@.len() ==> #[trigger] self.upper@[key]@[l]@[i] < n
    }
}

/// The lowest layer as a query sees it.
pub struct BaseLayer<'a> {
    pub index: &'a StaticHNSW,
    pub q: &'a BVec,
}

/// A layer above the lowest as a query sees it.
pub struct UpperLayer<'a> {
    pub index: &'a StaticHNSW,
    pub q: &'a BVec,
    pub layer: usize,
    pub none: Vec<u32>,
}

proof fn lemma_row_bounds(n: nat, m: nat, id: int)
    requires
        0 <= id < n,
    ensures
        0 <= id * m,
        id * m + m <= n * m,
{
    assert(0 <= id * m && id * m + m <= n * m) by (nonlinear_arith)
        requires
            0 <= id < n,
            0 <= m,
    ;
}

impl<'a> Layer for BaseLayer<'a> {
    open spec fn size(&self) -> nat {
        self.index.vectors@.len()
    }

    open spec fn dists(&self) -> Dists {
        query_dists(*self.index, *self.q)
    }

    open spec fn links(&self) -> Links {
        base_links(*self.index)
    }

    open spec fn wf(&self) -> bool {
        self.index.wf()
    }

    fn dist(&self, id: u32) -> (d: u32) {
        sq_dist_u8(self.q, &self.index.vectors[id as usize])
    }

    fn neighbours(&self, id: u32) -> (ns: &[u32]) {
        self.index.links0_row(id)
    }
}

impl<'a> Layer for UpperLayer<'a> {
    open spec fn size(&self) -> nat {
        self.index.vectors@.len()
    }

    open spec fn dists(&self) -> Dists {
        query_dists(*self.index, *self.q)
    }

    open spec fn links(&self) -> Links {
        upper_links(*self.index, self.layer as int)
    }

    open spec fn wf(&self) -> bool {
        self.index.wf() && self.none@.len() == 0 && self.layer > 0
    }

    fn dist(&self, id: u32) -> (d: u32) {
        sq_dist_u8(self.q, &self.index.vectors[id as usize])
    }

    fn neighbours(&self, id: u32) -> (ns: &[u32]) {
        assert(self.none@ =~= Seq::empty());
        match self.index.upper.get(&id) {
            Some(lists) => {
                if self.layer <= lists.len() {
                    lists[self.layer - 1].as_slice()
                } else {
                    self.none.as_slice()
                }
            },
            None => self.none.as_slice(),
        }
    }
}

/// The links of the upper layers stay among the nodes.
pub proof fn lemma_upper_closed(idx: StaticHNSW, layer: int)
    requires
        idx.wf(),
        layer > 0,
    ensures
        closed_under(upper_links(idx, layer), idx.vectors@.len()),
{
    let links = upper_links(idx, layer);
    let n = idx.vectors@.len();
    assert forall|id: int, i: int| 0 <= id < n && 0 <= i < links(id).len() implies #[trigger] links(
        id,
    )[i] < n by {
        assert(idx.upper@[id as u32]@[layer - 1]@[i] < n);
    }
}

/// The walk down the layers stays among the nodes.
pub proof fn lemma_descended_stays(idx: StaticHNSW, q: BVec, ep: int, top: int)
    requires
        idx.wf(),
        0 <= ep < idx.vectors@.len(),
    ensures
        0 <= descended(idx, q, ep, top) < idx.vectors@.len(),
    decreases top,
{
    if top > 0 {
        lemma_upper_closed(idx, top);
        let n = idx.vectors@.len();
        lemma_greedy_stays(query_dists(idx, q), upper_links(idx, top), n, ep);
        lemma_descended_stays(
            idx,
            q,
            greedy(query_dists(idx, q), upper_links(idx, top), ep),
            top - 1,
        );
    }
}

impl StaticHNSW {
    /// The links of a node on the lowest layer.
    pub fn links0_row(&self, id: u32) -> (ns: &[u32])
        requires
            id < self.vectors@.len(),
            self.links0@.len() == self.vectors@.len() * self.m_max0,
        ensures
            ns@ == base_links(*self)(id as int),
    {
        let m: usize = self.m_max0;
        proof {
            lemma_row_bounds(self.vectors@.len(), m as nat, id as int);
        }
        assert(self.links0@.len() == self.links0.len());
        let base: usize = id as usize * m;
        let ghost row = row_of(*self, id as int);
        let mut i: usize = 0;
        assert(row.skip(0) =~= row);
        assert(row.take(0) + before_none(row.skip(0)) =~= before_none(row));
        while i < m && self.links0[base + i] != NONE
            invariant
                i <= m,
                m == self.m_max0,
                base == id * m,
                base + m <= self.links0@.len(),
                self.links0@.len() <= usize::MAX,
                row == row_of(*self, id as int),
                row.len() == m,
                before_none(row) == row.take(i as int) + before_none(row.skip(i as int)),
            decreases m - i,
        {
            proof {
                let rest = row.skip(i as int);
                assert(rest.drop_first() =~= row.skip(i + 1));
                assert(row.take(i as int) + (seq![row[i as int]] + before_none(row.skip(i + 1)))
                    =~= row.take(i + 1) + before_none(row.skip(i + 1)));
            }
            i = i + 1;
        }
        proof {
            if i < m {
                assert(row[i as int] == NONE);
            }
            assert(before_none(row.skip(i as int)) =~= Seq::empty());
            assert(before_none(row) =~= row.take(i as int));
        }
        let r = slice_subrange(self.links0.as_slice(), base, base + i);
        assert(r@ =~= row.take(i as int));
        r
    }

    /// Reads one byte of every page of the vectors and the rows, so that the
    /// memory behind them is resident.
    pub fn prefetch(&self) {
        std::hint::black_box(self.touched());
    }

    /// The sum of the bytes that `prefetch` reads.
    pub fn touched(&self) -> (acc: u8)
        ensures
            acc == id_sum(self.links0@, 0, vector_sum(self.vectors@, 0, 0)),
    {
        touch_ids(&self.links0, touch_vectors(&self.vectors, 0))
    }

    /// Walks down the upper layers from the entry.
    fn descend(&self, q: &BVec) -> (ep: u32)
        requires
            self.wf(),
            self.vectors@.len() > 0,
        ensures
            ep == descended(*self, *q, self.entry as int, self.max_level as int),
            ep < self.vectors@.len(),
    {
        let mut ep: u32 = self.entry;
        let mut lc: usize = self.max_level;
        while lc > 0
            invariant
                self.wf(),
                ep < self.vectors@.len(),
                descended(*self, *q, self.entry as int, self.max_level as int) == descended(
                    *self,
                    *q,
                    ep as int,
                    lc as int,
                ),
            decreases lc,
        {
            let layer = UpperLayer { index: self, q, layer: lc, none: Vec::new() };
            proof {
                lemma_upper_closed(*self, lc as int);
            }
            ep = greedy_single(&layer, ep);
            lc = lc - 1;
        }
        ep
    }

    /// How many of the nodes nearest to a query are labelled as fraud, and how
    /// many there are.
    pub fn vote(&self, q: &BVec, visited: &mut VisitedTable) -> (r: (usize, usize))
        requires
            self.wf(),
            old(visited).wf(),
        ensures
            final(visited).wf(),
            r.0 == frauds_among(self.labels@, voters(*self, *q)),
            r.1 == voters(*self, *q).len(),
    {
        if self.vectors.len() == 0 {
            return (0, 0);
        }
        visited.ensure_capacity(self.vectors.len());
        let ep: u32 = self.descend(q);
        let ef: usize = if self.ef_search >= self.k {
            self.ef_search
        } else {
            self.k
        };
        let mut eps: Vec<u32> = Vec::new();
        eps.push(ep);
        assert(eps@ =~= seq![ep]);
        let layer = BaseLayer { index: self, q };
        assert(visited.takes(self.vectors@.len()));
        let mut found = beam_search(&layer, eps.as_slice(), ef, visited);
        assert(visited.takes(self.vectors@.len()));
        found.keep(self.k);
        let ghost all = found@;
        assert(all == voters(*self, *q));
        let mut fraud: usize = 0;
        let mut i: usize = 0;
        assert(all.take(0) =~= Seq::empty());
        while i < found.items.len()
            invariant
                self.wf(),
                all == found@,
                i <= all.len(),
                all.len() == found.items@.len(),
                forall|j: int| 0 <= j < all.len() ==> 0 <= (#[trigger] all[j]).1
                    < self.vectors@.len(),
                fraud <= i,
                fraud == frauds_among(self.labels@, all.take(i as int)),
            decreases all.len() - i,
        {
            let id: u32 = found.items[i].1;
            assert(all[i as int].1 == id);
            assert(all.take(i + 1).drop_last() =~= all.take(i as int));
            if self.labels[id as usize] != 0 {
                fraud = fraud + 1;
            }
            i = i + 1;
        }
        assert(all.take(all.len() as int) =~= all);
        (fraud, found.items.len())
    }

    /// How many of the nodes nearest to a query are labelled as fraud.
    pub fn predict(&self, q: &BVec, visited: &mut VisitedTable) -> (n: usize)
        requires
            self.wf(),
            old(visited).wf(),
        ensures
            final(visited).wf(),
            n == frauds_among(self.labels@, voters(*self, *q)),
    {
        self.vote(q, visited).0
    }
}

} // verus!
