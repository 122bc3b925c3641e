//! The index and its queries.
use vstd::prelude::*;

use crate::distance::{sq_dist, sq_dist_over, BVec};
use crate::nearest::{flagged, nearest};
use crate::touch::{byte_sum, touch_bytes, touch_vectors, vector_sum};
use crate::top::{
    kept, kept_are_nearest, lemma_kept_from, lemma_kept_len, tagged, tagged_is_flagged, TopList,
};

verus! {

/// Most buckets that a query looks into.
pub const MAX_NPROBE: usize = 32;

/// Most neighbours that vote on a query.
pub const MAX_K: usize = 32;

/// The squared distance of two vectors.
pub open spec fn dist(a: BVec, b: BVec) -> int {
    sq_dist(a@, b@, 16)
}

/// The squared distance of two vectors.
pub fn sq_dist_u8(a: &BVec, b: &BVec) -> (s: u32)
    ensures
        s == dist(*a, *b),
{
    sq_dist_over(a, b, 16)
}

/// Where the vectors of a bucket lie.
#[derive(Clone, Copy, PartialEq, Eq, Structural, Debug)]
pub struct BucketMeta {
    pub start: u32,
    pub len: u32,
}

/// An inverted-file index: per centroid a bucket, and the vectors and labels
/// of all buckets. A query looks into `nprobe` buckets, and the `k` nearest
/// vectors in them vote.
pub struct StaticIVF {
    pub centroids: Vec<BVec>,
    pub buckets: Vec<BucketMeta>,
    pub vectors: Vec<BVec>,
    pub labels: Vec<u8>,
    pub nprobe: usize,
    pub k: usize,
}

/// How many buckets a query looks into at most.
pub open spec fn probes_of(idx: StaticIVF) -> nat {
    if idx.nprobe <= MAX_NPROBE {
        idx.nprobe as nat
    } else {
        MAX_NPROBE as nat
    }
}

/// How many neighbours vote at most.
pub open spec fn voters_of(idx: StaticIVF) -> nat {
    if idx.k <= MAX_K {
        idx.k as nat
    } else {
        MAX_K as nat
    }
}

/// The centroids as hits, each tagged with its number.
pub open spec fn centroid_hits(centroids: Seq<BVec>, q: BVec) -> Seq<(int, int)> {
    Seq::new(centroids.len(), |c: int| (dist(q, centroids[c]), c))
}

/// The vectors of a bucket as hits, each tagged with its label.
pub open spec fn bucket_hits(idx: StaticIVF, q: BVec, c: int) -> Seq<(int, int)> {
    let b = idx.buckets@[c];
    Seq::new(
        b.len as nat,
        |j: int| (dist(q, idx.vectors@[b.start + j]), idx.labels@[b.start + j] as int),
    )
}

/// The vectors of several buckets as hits.
pub open spec fn probed_hits(idx: StaticIVF, q: BVec, probes: Seq<(int, int)>) -> Seq<(int, int)>
    decreases probes.len(),
{
    if probes.len() == 0 {
        Seq::empty()
    } else {
        probed_hits(idx, q, probes.drop_last()) + bucket_hits(idx, q, probes.last().1)
    }
}

/// The buckets that a query looks into.
pub open spec fn probed(idx: StaticIVF, q: BVec) -> Seq<(int, int)> {
    kept(centroid_hits(idx.centroids@, q), probes_of(idx))
}

/// The neighbours that vote on a query.
pub open spec fn voters(idx: StaticIVF, q: BVec) -> Seq<(int, int)> {
    kept(probed_hits(idx, q, probed(idx, q)), voters_of(idx))
}

impl StaticIVF {
    /// Each centroid has a bucket, each vector a label, and the buckets lie
    /// within the vectors.
    pub open spec fn wf(self) -> bool {
        &&& self.buckets@.len() == self.centroids@.len()
        &&& self.labels@.len() == self.vectors@.len()
        &&& forall|c: int|
            0 <= c < self.buckets@.len() ==> (#[trigger] self.buckets@[c]).start
                + self.buckets@[c].len <= self.vectors@.len()
    }

    /// An index of these parts.
    pub fn from_parts(
        centroids: Vec<BVec>,
        buckets: Vec<BucketMeta>,
        vectors: Vec<BVec>,
        labels: Vec<u8>,
        nprobe: usize,
        k: usize,
    ) -> (idx: StaticIVF)
        ensures
            idx == (StaticIVF { centroids, buckets, vectors, labels, nprobe, k }),
    {
        StaticIVF { centroids, buckets, vectors, labels, nprobe, k }
    }

    /// Whether the index is well formed.
    pub fn is_valid(&self) -> (yes: bool)
        ensures
            yes == self.wf(),
    {
        if self.buckets.len() != self.centroids.len() || self.labels.len() != self.vectors.len() {
            return false;
        }
        let mut c: usize = 0;
        while c < self.buckets.len()
            invariant
                c <= self.buckets@.len(),
                self.buckets@.len() == self.centroids@.len(),
                self.labels@.len() == self.vectors@.len(),
                forall|i: int|
                    0 <= i < c ==> (#[trigger] self.buckets@[i]).start + self.buckets@[i].len
                        <= self.vectors@.len(),
            decreases self.buckets@.len() - c,
        {
            let b = self.buckets[c];
            if b.start as u64 + b.len as u64 > self.vectors.len() as u64 {
                return false;
            }
            c = c + 1;
        }
        true
    }

    /// Reads one byte of every page of the vectors and the labels, so that the
    /// memory behind them is resident.
    pub fn prefetch(&self) {
        std::hint::black_box(self.touched());
    }

    /// The sum of the bytes that `prefetch` reads.
    pub fn touched(&self) -> (acc: u8)
        ensures
            acc == byte_sum(self.labels@, 0, vector_sum(self.vectors@, 0, 0)),
    {
        touch_bytes(&self.labels, touch_vectors(&self.vectors, 0))
    }

    /// The buckets nearest to a query.
    fn probe(&self, q: &BVec) -> (top: TopList)
        ensures
            top@ == probed(*self, *q),
    {
        let cap: usize = if self.nprobe <= MAX_NPROBE {
            self.nprobe
        } else {
            MAX_NPROBE
        };
        let ghost all = centroid_hits(self.centroids@, *q);
        let mut top = TopList::new(cap);
        let mut c: usize = 0;
        assert(all.take(0) =~= Seq::empty());
        while c < self.centroids.len()
            invariant
                c <= self.centroids@.len(),
                all == centroid_hits(self.centroids@, *q),
                top.wf(),
                top.cap == cap,
                cap == probes_of(*self),
                top@ == kept(all.take(c as int), cap as nat),
            decreases self.centroids@.len() - c,
        {
            let d = sq_dist_u8(q, &self.centroids[c]);
            assert(all.take(c + 1).drop_last() =~= all.take(c as int));
            assert(all.take(c + 1).last() == (d as int, c as int));
            top.offer(d, c);
            c = c + 1;
        }
        assert(all.take(all.len() as int) =~= all);
        top
    }

    /// Offers the vectors of a bucket.
    fn scan_bucket(&self, q: &BVec, c: usize, top: &mut TopList, Ghost(before): Ghost<
        Seq<(int, int)>,
    >)
        requires
            self.wf(),
            c < self.buckets@.len(),
            old(top).wf(),
            old(top)@ == kept(before, old(top).cap as nat),
        ensures
            final(top).wf(),
            final(top).cap == old(top).cap,
            final(top)@ == kept(before + bucket_hits(*self, *q, c as int), old(top).cap as nat),
    {
        let b = self.buckets[c];
        let ghost all = bucket_hits(*self, *q, c as int);
        let ghost cap = top.cap;
        let start: usize = b.start as usize;
        let len: usize = b.len as usize;
        let mut j: usize = 0;
        assert(before + all.take(0) =~= before);
        while j < len
            invariant
                self.wf(),
                c < self.buckets@.len(),
                b == self.buckets@[c as int],
                start == b.start,
                len == b.len,
                start + len <= self.vectors@.len(),
                j <= len,
                all == bucket_hits(*self, *q, c as int),
                top.wf(),
                top.cap == cap,
                top@ == kept(before + all.take(j as int), cap as nat),
            decreases len - j,
        {
            assert(self.vectors@.len() == self.vectors.len());
            let d = sq_dist_u8(q, &self.vectors[start + j]);
            let tag: usize = self.labels[start + j] as usize;
            proof {
                let next = before + all.take(j + 1);
                assert(next.drop_last() =~= before + all.take(j as int));
                assert(next.last() == (d as int, tag as int));
            }
            top.offer(d, tag);
            j = j + 1;
        }
        assert(all.take(all.len() as int) =~= all);
    }

    /// How many of the nearest vectors, in the buckets nearest to the query,
    /// are labelled as fraud.
    pub fn predict(&self, q: &BVec) -> (n: usize)
        requires
            self.wf(),
        ensures
            n == tagged(voters(*self, *q)),
    {
        let cap: usize = if self.k <= MAX_K {
            self.k
        } else {
            MAX_K
        };
        let probes = self.probe(q);
        let ghost ps = probed(*self, *q);
        proof {
            lemma_kept_from(centroid_hits(self.centroids@, *q), probes_of(*self));
        }
        let mut top = TopList::new(cap);
        let mut i: usize = 0;
        assert(ps.take(0) =~= Seq::empty());
        while i < probes.hits.len()
            invariant
                self.wf(),
                i <= probes.hits@.len(),
                probes@ == ps,
                ps.len() == probes.hits@.len(),
                forall|j: int|
                    0 <= j < ps.len() ==> centroid_hits(self.centroids@, *q).contains(
                        #[trigger] ps[j],
                    ),
                top.wf(),
                top.cap == cap,
                cap == voters_of(*self),
                top@ == kept(probed_hits(*self, *q, ps.take(i as int)), cap as nat),
            decreases probes.hits@.len() - i,
        {
            let c: usize = probes.hits[i].1;
            assert(ps[i as int].1 == c);
            assert(ps.take(i + 1).drop_last() =~= ps.take(i as int));
            assert(centroid_hits(self.centroids@, *q).contains(ps[i as int]));
            self.scan_bucket(q, c, &mut top, Ghost(probed_hits(*self, *q, ps.take(i as int))));
            i = i + 1;
        }
        assert(ps.take(ps.len() as int) =~= ps);
        top.count_tagged()
    }
}

/// The buckets that a query looks into are those of its nearest centroids.
pub proof fn probed_are_nearest(idx: StaticIVF, q: BVec)
    ensures
        nearest(
            centroid_hits(idx.centroids@, q).to_multiset(),
            probes_of(idx),
            probed(idx, q).to_multiset(),
        ),
{
    kept_are_nearest(centroid_hits(idx.centroids@, q), probes_of(idx));
}

/// The votes are those of the vectors nearest to the query in the buckets that
/// it looks into.
pub proof fn voters_are_nearest(idx: StaticIVF, q: BVec)
    ensures
        nearest(
            probed_hits(idx, q, probed(idx, q)).to_multiset(),
            voters_of(idx),
            voters(idx, q).to_multiset(),
        ),
        tagged(voters(idx, q)) == flagged(voters(idx, q).to_multiset()),
        tagged(voters(idx, q)) <= voters_of(idx),
{
    kept_are_nearest(probed_hits(idx, q, probed(idx, q)), voters_of(idx));
    tagged_is_flagged(voters(idx, q));
    lemma_kept_len(probed_hits(idx, q, probed(idx, q)), voters_of(idx));
    crate::top::lemma_tagged_len(voters(idx, q));
}

proof fn lemma_no_hits(idx: StaticIVF, q: BVec, probes: Seq<(int, int)>)
    requires
        idx.wf(),
        idx.vectors@.len() == 0,
        forall|j: int| 0 <= j < probes.len() ==> 0 <= (#[trigger] probes[j]).1 < idx.buckets@.len(),
    ensures
        probed_hits(idx, q, probes) == Seq::<(int, int)>::empty(),
    decreases probes.len(),
{
    if probes.len() > 0 {
        lemma_no_hits(idx, q, probes.drop_last());
        assert(0 <= probes[probes.len() - 1].1 < idx.buckets@.len());
        assert(idx.buckets@[probes.last().1].len == 0);
        assert(bucket_hits(idx, q, probes.last().1) =~= Seq::empty());
        assert(probed_hits(idx, q, probes) =~= Seq::empty());
    }
}

/// An index without vectors flags nothing.
pub proof fn empty_index_flags_nothing(idx: StaticIVF, q: BVec)
    requires
        idx.wf(),
        idx.vectors@.len() == 0,
    ensures
        tagged(voters(idx, q)) == 0,
{
    let ps = probed(idx, q);
    lemma_kept_from(centroid_hits(idx.centroids@, q), probes_of(idx));
    assert forall|j: int| 0 <= j < ps.len() implies 0 <= (#[trigger] ps[j]).1
        < idx.buckets@.len() by {
        assert(centroid_hits(idx.centroids@, q).contains(ps[j]));
    }
    lemma_no_hits(idx, q, ps);
}

} // verus!
