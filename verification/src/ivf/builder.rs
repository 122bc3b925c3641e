//! Building an index from labelled vectors.
use vstd::multiset::Multiset;
use vstd::prelude::*;

use crate::distance::BVec;
use crate::ivf::index::{
    bucket_hits, centroid_hits, dist, probed, probed_hits, probes_of, voters, voters_are_nearest,
    voters_of, BucketMeta, StaticIVF,
};
use crate::ivf::kmeans::{
    averages, clustered, clusters_are_in_range, kmeans, mean_of, points, Mean, Point,
};
use crate::nearest::{flagged, least, lemma_mapped_permuted, nearest};
use crate::top::{lemma_kept_all, tagged};
use crate::types::RawData;

verus! {

/// The vectors of the records.
pub open spec fn record_points(data: Seq<RawData<BVec>>) -> Seq<Point> {
    data.map_values(|r: RawData<BVec>| r.vector@)
}

/// The label of a record: one for fraud.
pub open spec fn label_of(r: RawData<BVec>) -> u8 {
    if r.fraud() {
        1
    } else {
        0
    }
}

/// Those of the first `n` records that belong to a centroid, in order.
pub open spec fn members_of(asgn: Seq<u32>, c: int, n: nat) -> Seq<int>
    decreases n,
{
    if n == 0 {
        Seq::empty()
    } else if asgn[n - 1] == c {
        members_of(asgn, c, (n - 1) as nat).push(n - 1)
    } else {
        members_of(asgn, c, (n - 1) as nat)
    }
}

/// The records of the first `c` centroids, one centroid after the other.
pub open spec fn grouped(asgn: Seq<u32>, c: nat) -> Seq<int>
    decreases c,
{
    if c == 0 {
        Seq::empty()
    } else {
        grouped(asgn, (c - 1) as nat) + members_of(asgn, c - 1, asgn.len())
    }
}

/// Whether the buckets of `idx` hold the records that `asgn` assigns to them.
pub open spec fn sorted_into(
    idx: StaticIVF,
    data: Seq<RawData<BVec>>,
    asgn: Seq<u32>,
    centroids: nat,
) -> bool {
    let order = grouped(asgn, centroids);
    &&& idx.vectors@ == order.map_values(|v: int| data[v].vector)
    &&& idx.labels@ == order.map_values(|v: int| label_of(data[v]))
    &&& idx.buckets@.len() == centroids
    &&& forall|c: int|
        0 <= c < centroids ==> {
            &&& (#[trigger] idx.buckets@[c]).start == grouped(asgn, c as nat).len()
            &&& idx.buckets@[c].len == members_of(asgn, c, asgn.len()).len()
        }
}

/// Whether `idx` is the index of the records.
pub open spec fn built_from(
    idx: StaticIVF,
    centroids: nat,
    iters: nat,
    data: Seq<RawData<BVec>>,
    mean: Mean,
) -> bool {
    let (cs, asgn) = clustered(record_points(data), centroids, iters, mean);
    &&& points(idx.centroids@) == cs
    &&& sorted_into(idx, data, asgn, centroids)
}

proof fn lemma_members(asgn: Seq<u32>, c: int, n: nat)
    requires
        n <= asgn.len(),
    ensures
        members_of(asgn, c, n).len() <= n,
        forall|i: int|
            0 <= i < members_of(asgn, c, n).len() ==> 0 <= #[trigger] members_of(asgn, c, n)[i] < n
                && asgn[members_of(asgn, c, n)[i]] == c,
        forall|v: int|
            #[trigger] members_of(asgn, c, n).to_multiset().count(v) == if 0 <= v < n && asgn[v]
                == c {
                1nat
            } else {
                0nat
            },
    decreases n,
{
    broadcast use vstd::seq_lib::group_to_multiset_ensures;

    if n > 0 {
        lemma_members(asgn, c, (n - 1) as nat);
    } else {
        assert(Seq::<int>::empty().to_multiset() =~= Multiset::empty());
    }
}

/// Each record stands in exactly one bucket: the order of an index is a
/// permutation of the records.
pub proof fn every_record_is_indexed_once(asgn: Seq<u32>, centroids: nat)
    requires
        forall|v: int| 0 <= v < asgn.len() ==> #[trigger] asgn[v] < centroids,
    ensures
        grouped(asgn, centroids).len() == asgn.len(),
        grouped(asgn, centroids).to_multiset() == Seq::new(asgn.len(), |i: int| i).to_multiset(),
        forall|v: int|
            0 <= v < asgn.len() ==> #[trigger] grouped(asgn, centroids).to_multiset().count(v)
                == 1,
        forall|i: int|
            0 <= i < grouped(asgn, centroids).len() ==> 0 <= #[trigger] grouped(
                asgn,
                centroids,
            )[i] < asgn.len(),
{
    broadcast use vstd::seq_lib::group_to_multiset_ensures;

    lemma_grouped(asgn, centroids);
    let all = Seq::new(asgn.len(), |i: int| i);
    let g = grouped(asgn, centroids);
    assert forall|v: int| g.to_multiset().count(v) == all.to_multiset().count(v) by {
        if 0 <= v < asgn.len() {
            assert(asgn[v] < centroids);
            assert(all[v] == v);
            all.lemma_multiset_has_no_duplicates();
            assert(all.to_multiset().contains(v));
        } else {
            if all.to_multiset().count(v) > 0 {
                assert(all.contains(v));
            }
        }
    }
    assert(g.to_multiset() =~= all.to_multiset());
    assert(g.to_multiset().len() == g.len());
    assert(all.to_multiset().len() == all.len());
}

proof fn lemma_grouped(asgn: Seq<u32>, c: nat)
    ensures
        forall|i: int|
            0 <= i < grouped(asgn, c).len() ==> 0 <= #[trigger] grouped(asgn, c)[i] < asgn.len(),
        forall|v: int|
            #[trigger] grouped(asgn, c).to_multiset().count(v) == if 0 <= v < asgn.len() && asgn[v]
                < c {
                1nat
            } else {
                0nat
            },
    decreases c,
{
    broadcast use vstd::seq_lib::group_to_multiset_ensures;

    if c > 0 {
        let a = grouped(asgn, (c - 1) as nat);
        let b = members_of(asgn, c - 1, asgn.len());
        lemma_grouped(asgn, (c - 1) as nat);
        lemma_members(asgn, c - 1, asgn.len());
        vstd::seq_lib::lemma_multiset_commutative(a, b);
        assert forall|i: int| 0 <= i < grouped(asgn, c).len() implies 0 <= #[trigger] grouped(
            asgn,
            c,
        )[i] < asgn.len() by {
            if i < a.len() {
                assert(grouped(asgn, c)[i] == a[i]);
            } else {
                assert(grouped(asgn, c)[i] == b[i - a.len()]);
            }
        }
    } else {
        assert(Seq::<int>::empty().to_multiset() =~= Multiset::empty());
    }
}

proof fn lemma_grouped_grows(asgn: Seq<u32>, c: nat, d: nat)
    requires
        c <= d,
    ensures
        grouped(asgn, c).len() <= grouped(asgn, d).len(),
    decreases d,
{
    if c < d {
        lemma_grouped_grows(asgn, c, (d - 1) as nat);
    }
}

/// The index of the records is well formed.
pub proof fn lemma_built_wf(
    idx: StaticIVF,
    data: Seq<RawData<BVec>>,
    asgn: Seq<u32>,
    centroids: nat,
)
    requires
        sorted_into(idx, data, asgn, centroids),
        idx.centroids@.len() == centroids,
    ensures
        idx.wf(),
{
    assert forall|c: int| 0 <= c < centroids implies (#[trigger] idx.buckets@[c]).start
        + idx.buckets@[c].len <= idx.vectors@.len() by {
        lemma_grouped_grows(asgn, (c + 1) as nat, centroids);
    }
}

/// Every vector of an index as a hit, tagged with its label.
pub open spec fn all_hits(idx: StaticIVF, q: BVec) -> Seq<(int, int)> {
    Seq::new(idx.vectors@.len(), |i: int| (dist(q, idx.vectors@[i]), idx.labels@[i] as int))
}

proof fn lemma_probed_prefix(
    idx: StaticIVF,
    data: Seq<RawData<BVec>>,
    asgn: Seq<u32>,
    centroids: nat,
    q: BVec,
    c: nat,
)
    requires
        sorted_into(idx, data, asgn, centroids),
        idx.centroids@.len() == centroids,
        c <= centroids,
    ensures
        grouped(asgn, c).len() <= idx.vectors@.len(),
        probed_hits(idx, q, centroid_hits(idx.centroids@, q).take(c as int)) == all_hits(
            idx,
            q,
        ).take(grouped(asgn, c).len() as int),
    decreases c,
{
    let hits = centroid_hits(idx.centroids@, q);
    lemma_grouped_grows(asgn, c, centroids);
    if c > 0 {
        let b = (c - 1) as nat;
        lemma_probed_prefix(idx, data, asgn, centroids, q, b);
        lemma_grouped_grows(asgn, b, centroids);
        assert(hits.take(c as int).drop_last() =~= hits.take(b as int));
        let m = idx.buckets@[b as int];
        assert(m.start == grouped(asgn, b).len());
        assert(all_hits(idx, q).take(grouped(asgn, b).len() as int) + bucket_hits(
            idx,
            q,
            b as int,
        ) =~= all_hits(idx, q).take(grouped(asgn, c).len() as int));
    } else {
        assert(hits.take(0) =~= Seq::empty());
        assert(all_hits(idx, q).take(0) =~= Seq::empty());
    }
}

/// A query that looks into every bucket sees every record: the nearest of all
/// of them vote.
pub proof fn probing_every_bucket_is_exact(
    idx: StaticIVF,
    data: Seq<RawData<BVec>>,
    asgn: Seq<u32>,
    centroids: nat,
    q: BVec,
)
    requires
        sorted_into(idx, data, asgn, centroids),
        idx.centroids@.len() == centroids,
        centroids <= probes_of(idx),
    ensures
        probed_hits(idx, q, probed(idx, q)) == all_hits(idx, q),
        nearest(
            all_hits(idx, q).to_multiset(),
            voters_of(idx),
            voters(idx, q).to_multiset(),
        ),
{
    let hits = centroid_hits(idx.centroids@, q);
    lemma_kept_all(hits, probes_of(idx));
    lemma_probed_prefix(idx, data, asgn, centroids, q, centroids);
    assert(hits.take(centroids as int) =~= hits);
    assert(all_hits(idx, q).take(idx.vectors@.len() as int) =~= all_hits(idx, q));
    voters_are_nearest(idx, q);
}

/// The records as hits, tagged with their labels.
pub open spec fn record_hits(data: Seq<RawData<BVec>>, q: BVec) -> Seq<(int, int)> {
    data.map_values(|r: RawData<BVec>| (dist(q, r.vector), label_of(r) as int))
}

/// An index built from records that is probed in every bucket answers with how
/// many of the nearest records are fraud.
pub proof fn wide_probing_answers_from_the_records(
    idx: StaticIVF,
    centroids: nat,
    iters: nat,
    data: Seq<RawData<BVec>>,
    mean: Mean,
    q: BVec,
)
    requires
        built_from(idx, centroids, iters, data, mean),
        0 < centroids <= u32::MAX,
        centroids <= probes_of(idx),
    ensures
        nearest(
            record_hits(data, q).to_multiset(),
            voters_of(idx),
            voters(idx, q).to_multiset(),
        ),
        tagged(voters(idx, q)) == flagged(voters(idx, q).to_multiset()),
        tagged(voters(idx, q)) <= least(voters_of(idx), data.len()),
{
    broadcast use vstd::seq_lib::group_to_multiset_ensures;

    let asgn = clustered(record_points(data), centroids, iters, mean).1;
    let order = grouped(asgn, centroids);
    let all = Seq::new(asgn.len(), |i: int| i);
    let f = |v: int| (dist(q, data[v].vector), label_of(data[v]) as int);
    clusters_are_in_range(record_points(data), centroids, iters, mean);
    assert(idx.centroids@.len() == points(idx.centroids@).len());
    every_record_is_indexed_once(asgn, centroids);
    probing_every_bucket_is_exact(idx, data, asgn, centroids, q);
    voters_are_nearest(idx, q);
    lemma_mapped_permuted(order, all, f);
    assert(all_hits(idx, q) =~= order.map_values(f));
    assert(record_hits(data, q) =~= all.map_values(f));
    crate::top::lemma_tagged_len(voters(idx, q));
    assert(record_hits(data, q).to_multiset().len() == data.len());
    assert(voters(idx, q).to_multiset().len() == voters(idx, q).len());
}

/// The records of each centroid.
fn group(asgn: &[u32], k: usize) -> (groups: Vec<Vec<usize>>)
    requires
        forall|v: int| 0 <= v < asgn@.len() ==> #[trigger] asgn@[v] < k,
    ensures
        groups@.len() == k,
        forall|c: int|
            0 <= c < k ==> (#[trigger] groups@[c])@.map_values(|v: usize| v as int) == members_of(
                asgn@,
                c,
                asgn@.len(),
            ),
{
    let mut groups: Vec<Vec<usize>> = Vec::new();
    let mut c: usize = 0;
    while c < k
        invariant
            c <= k,
            groups@.len() == c,
            forall|i: int|
                0 <= i < c ==> (#[trigger] groups@[i])@.map_values(|v: usize| v as int)
                    == Seq::<int>::empty(),
        decreases k - c,
    {
        let empty: Vec<usize> = Vec::new();
        assert(empty@.map_values(|v: usize| v as int) =~= Seq::<int>::empty());
        groups.push(empty);
        c = c + 1;
    }
    let mut v: usize = 0;
    while v < asgn.len()
        invariant
            v <= asgn@.len(),
            groups@.len() == k,
            forall|i: int| 0 <= i < asgn@.len() ==> #[trigger] asgn@[i] < k,
            forall|i: int|
                0 <= i < k ==> (#[trigger] groups@[i])@.map_values(|v: usize| v as int)
                    == members_of(asgn@, i, v as nat),
        decreases asgn@.len() - v,
    {
        assert(asgn@[v as int] < k);
        let c: usize = asgn[v] as usize;
        let ghost before = groups@;
        groups[c].push(v);
        proof {
            assert forall|i: int| 0 <= i < k implies (#[trigger] groups@[i])@.map_values(
                |v: usize| v as int,
            ) == members_of(asgn@, i, (v + 1) as nat) by {
                assert(before[i]@.map_values(|v: usize| v as int) == members_of(
                    asgn@,
                    i,
                    v as nat,
                ));
                if i == c {
                    assert(groups@[i]@ =~= before[i]@.push(v));
                    assert(groups@[i]@.map_values(|v: usize| v as int) =~= before[i]@.map_values(
                        |v: usize| v as int,
                    ).push(v as int));
                }
            }
        }
        v = v + 1;
    }
    groups
}

/// Builds the index of labelled vectors.
pub fn build_ivf<M: Fn(u64, u64) -> u8>(
    k_centroids: usize,
    nprobe: usize,
    k: usize,
    kmeans_iters: usize,
    data: &[RawData<BVec>],
    mean: &M,
) -> (idx: StaticIVF)
    requires
        averages(*mean),
        k_centroids <= data@.len() <= u32::MAX,
        k_centroids > 0 || data@.len() == 0,
    ensures
        idx.wf(),
        idx.nprobe == nprobe,
        idx.k == k,
        built_from(idx, k_centroids as nat, kmeans_iters as nat, data@, mean_of(*mean)),
{
    let n: usize = data.len();
    let mut q_vecs: Vec<BVec> = Vec::new();
    let mut raw_labels: Vec<u8> = Vec::new();
    let mut i: usize = 0;
    while i < n
        invariant
            i <= n,
            n == data@.len(),
            q_vecs@.len() == i,
            raw_labels@.len() == i,
            forall|v: int| 0 <= v < i ==> #[trigger] q_vecs@[v] == data@[v].vector,
            forall|v: int| 0 <= v < i ==> #[trigger] raw_labels@[v] == label_of(data@[v]),
        decreases n - i,
    {
        q_vecs.push(data[i].vector);
        raw_labels.push(
            if data[i].is_fraud() {
                1
            } else {
                0
            },
        );
        i = i + 1;
    }
    assert(points(q_vecs@) =~= record_points(data@));
    let (centroids, asgn) = kmeans(q_vecs.as_slice(), k_centroids, kmeans_iters, mean);
    proof {
        assert(points(centroids@).len() == centroids@.len());
        if k_centroids > 0 {
            clusters_are_in_range(
                record_points(data@),
                k_centroids as nat,
                kmeans_iters as nat,
                mean_of(*mean),
            );
        } else {
            crate::ivf::kmeans::lemma_no_vectors(
                record_points(data@),
                kmeans_iters as nat,
                mean_of(*mean),
            );
        }
        every_record_is_indexed_once(asgn@, k_centroids as nat);
    }
    let groups = group(asgn.as_slice(), k_centroids);
    let mut buckets: Vec<BucketMeta> = Vec::new();
    let mut vectors: Vec<BVec> = Vec::new();
    let mut labels: Vec<u8> = Vec::new();
    let mut c: usize = 0;
    while c < k_centroids
        invariant
            c <= k_centroids,
            n == data@.len(),
            n <= u32::MAX,
            asgn@.len() == n,
            q_vecs@.len() == n,
            raw_labels@.len() == n,
            forall|v: int| 0 <= v < n ==> #[trigger] q_vecs@[v] == data@[v].vector,
            forall|v: int| 0 <= v < n ==> #[trigger] raw_labels@[v] == label_of(data@[v]),
            grouped(asgn@, k_centroids as nat).len() == n,
            groups@.len() == k_centroids,
            forall|i: int|
                0 <= i < k_centroids ==> (#[trigger] groups@[i])@.map_values(|v: usize| v as int)
                    == members_of(asgn@, i, asgn@.len()),
            vectors@ == grouped(asgn@, c as nat).map_values(|v: int| data@[v].vector),
            labels@ == grouped(asgn@, c as nat).map_values(|v: int| label_of(data@[v])),
            buckets@.len() == c,
            forall|i: int|
                0 <= i < c ==> {
                    &&& (#[trigger] buckets@[i]).start == grouped(asgn@, i as nat).len()
                    &&& buckets@[i].len == members_of(asgn@, i, asgn@.len()).len()
                },
        decreases k_centroids - c,
    {
        let ghost base = grouped(asgn@, c as nat);
        let ghost own = members_of(asgn@, c as int, asgn@.len());
        let ghost fv = |v: int| data@[v].vector;
        let ghost fl = |v: int| label_of(data@[v]);
        proof {
            lemma_grouped_grows(asgn@, c as nat, k_centroids as nat);
            lemma_grouped_grows(asgn@, (c + 1) as nat, k_centroids as nat);
            lemma_members(asgn@, c as int, asgn@.len());
        }
        let start: u32 = vectors.len() as u32;
        let size: usize = groups[c].len();
        assert(groups@[c as int]@.map_values(|v: usize| v as int).len() == size);
        let mut j: usize = 0;
        assert(base + own.take(0) =~= base);
        while j < size
            invariant
                j <= size,
                c < k_centroids,
                groups@.len() == k_centroids,
                size == groups@[c as int]@.len(),
                own == groups@[c as int]@.map_values(|v: usize| v as int),
                own == members_of(asgn@, c as int, asgn@.len()),
                asgn@.len() == n,
                n == data@.len(),
                q_vecs@.len() == n,
                raw_labels@.len() == n,
                forall|v: int| 0 <= v < n ==> #[trigger] q_vecs@[v] == data@[v].vector,
                forall|v: int| 0 <= v < n ==> #[trigger] raw_labels@[v] == label_of(data@[v]),
                fv == (|v: int| data@[v].vector),
                fl == (|v: int| label_of(data@[v])),
                forall|i: int| 0 <= i < own.len() ==> 0 <= #[trigger] own[i] < n,
                vectors@ == (base + own.take(j as int)).map_values(fv),
                labels@ == (base + own.take(j as int)).map_values(fl),
            decreases size - j,
        {
            let v: usize = groups[c][j];
            assert(own[j as int] == v);
            vectors.push(q_vecs[v]);
            labels.push(raw_labels[v]);
            proof {
                assert(base + own.take(j + 1) =~= (base + own.take(j as int)).push(v as int));
                assert((base + own.take(j as int)).push(v as int).map_values(fv) =~= (base
                    + own.take(j as int)).map_values(fv).push(fv(v as int)));
                assert((base + own.take(j as int)).push(v as int).map_values(fl) =~= (base
                    + own.take(j as int)).map_values(fl).push(fl(v as int)));
            }
            j = j + 1;
        }
        assert(own.take(own.len() as int) =~= own);
        buckets.push(BucketMeta { start, len: size as u32 });
        c = c + 1;
    }
    let idx = StaticIVF::from_parts(centroids, buckets, vectors, labels, nprobe, k);
    proof {
        lemma_built_wf(idx, data@, asgn@, k_centroids as nat);
    }
    idx
}

} // verus!
