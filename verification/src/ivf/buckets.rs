//! What the buckets of an index hold, and which of them a query sees.
use vstd::prelude::*;

use crate::distance::{sq_dist_is_zero_when_equal, BVec};
use crate::ivf::builder::{
    built_from, grouped, label_of, members_of, record_points, sorted_into,
};
use crate::ivf::index::{
    bucket_hits, centroid_hits, dist, probed, probed_are_nearest, probed_hits, voters,
    voters_are_nearest, StaticIVF,
};
use crate::ivf::kmeans::{clustered, clusters_are_in_range, Mean};
use crate::top::lemma_kept_from;
use crate::types::RawData;

verus! {

/// The numbers of those of the first `n` records that belong to a centroid, in
/// order.
pub open spec fn belonging_to(asgn: Seq<u32>, c: int, n: nat) -> Seq<int> {
    Seq::new(n, |v: int| v).filter(|v: int| asgn[v] == c)
}

/// The numbers of the records that belong to a centroid, in order.
pub open spec fn belonging(asgn: Seq<u32>, c: int) -> Seq<int> {
    belonging_to(asgn, c, asgn.len())
}

/// A record as a hit: how far it is from the query, and one where it is labelled
/// as fraud.
pub open spec fn record_hit(r: RawData<BVec>, q: BVec) -> (int, int) {
    (
        dist(q, r.vector),
        if r.label@ == "fraud"@ {
            1
        } else {
            0
        },
    )
}

proof fn lemma_members(asgn: Seq<u32>, c: int, n: nat)
    ensures
        members_of(asgn, c, n) == belonging_to(asgn, c, n),
    decreases n,
{
    let f = |v: int| asgn[v] == c;
    reveal(Seq::filter);
    let all = Seq::new(n, |v: int| v);
    if n > 0 {
        let init = Seq::new((n - 1) as nat, |v: int| v);
        lemma_members(asgn, c, (n - 1) as nat);
        assert(all.drop_last() =~= init);
        assert(all.filter(f) == if f(all.last()) {
            init.filter(f).push(all.last())
        } else {
            init.filter(f)
        });
    } else {
        assert(all.filter(f) =~= Seq::empty());
    }
}

/// The records of one centroid follow those of the ones before it.
proof fn lemma_group(asgn: Seq<u32>, c: nat, d: nat)
    requires
        c < d,
    ensures
        ({
            let at = grouped(asgn, c).len() as int;
            let ms = members_of(asgn, c as int, asgn.len());
            &&& at + ms.len() <= grouped(asgn, d).len()
            &&& grouped(asgn, d).subrange(at, at + ms.len()) == ms
        }),
    decreases d,
{
    let at = grouped(asgn, c).len() as int;
    let ms = members_of(asgn, c as int, asgn.len());
    let front = grouped(asgn, (d - 1) as nat);
    let last = members_of(asgn, d - 1, asgn.len());
    if c + 1 == d {
        assert((front + last).subrange(at, at + ms.len()) =~= ms);
    } else {
        lemma_group(asgn, c, (d - 1) as nat);
        assert((front + last).subrange(at, at + ms.len()) =~= front.subrange(at, at + ms.len()));
    }
}

/// A bucket of an index built from records holds exactly the records that
/// belong to its centroid, in their order: each at its distance from a query, and
/// flagged where it is labelled as fraud.
pub proof fn buckets_hold_their_records(
    idx: StaticIVF,
    centroids: nat,
    iters: nat,
    data: Seq<RawData<BVec>>,
    mean: Mean,
    q: BVec,
    c: int,
)
    requires
        built_from(idx, centroids, iters, data, mean),
        0 <= c < centroids <= u32::MAX,
    ensures
        bucket_hits(idx, q, c) == belonging(
            clustered(record_points(data), centroids, iters, mean).1,
            c,
        ).map_values(|v: int| record_hit(data[v], q)),
{
    let asgn = clustered(record_points(data), centroids, iters, mean).1;
    let order = grouped(asgn, centroids);
    let b = idx.buckets@[c];
    let ms = members_of(asgn, c, asgn.len());
    clusters_are_in_range(record_points(data), centroids, iters, mean);
    lemma_members(asgn, c, asgn.len());
    lemma_group(asgn, c as nat, centroids);
    assert(sorted_into(idx, data, asgn, centroids));
    assert(b.start == grouped(asgn, c as nat).len());
    let want = belonging(asgn, c).map_values(|v: int| record_hit(data[v], q));
    assert(belonging(asgn, c) == ms);
    assert forall|j: int| 0 <= j < ms.len() implies #[trigger] bucket_hits(idx, q, c)[j]
        == want[j] by {
        assert(order.subrange(b.start as int, b.start + ms.len())[j] == ms[j]);
        assert(order[b.start + j] == ms[j]);
        assert(idx.vectors@[b.start + j] == data[ms[j]].vector);
        assert(idx.labels@[b.start + j] == label_of(data[ms[j]]));
        assert(want[j] == record_hit(data[ms[j]], q));
    }
    assert(bucket_hits(idx, q, c) =~= want);
}

/// What a query sees in several buckets is what it sees in some of them and then
/// in the others; in one bucket it sees every vector, with its label.
pub proof fn buckets_are_seen_one_after_the_other(
    idx: StaticIVF,
    q: BVec,
    some: Seq<(int, int)>,
    others: Seq<(int, int)>,
    one: (int, int),
)
    ensures
        probed_hits(idx, q, some + others) == probed_hits(idx, q, some) + probed_hits(
            idx,
            q,
            others,
        ),
        probed_hits(idx, q, seq![one]).len() == idx.buckets@[one.1].len,
        forall|j: int|
            0 <= j < idx.buckets@[one.1].len ==> #[trigger] probed_hits(idx, q, seq![one])[j] == (
                dist(q, idx.vectors@[idx.buckets@[one.1].start + j]),
                idx.labels@[idx.buckets@[one.1].start + j] as int,
            ),
        probed_hits(idx, q, Seq::empty()).len() == 0,
    decreases others.len(),
{
    if others.len() == 0 {
        assert(some + others =~= some);
        assert(probed_hits(idx, q, others) =~= Seq::empty());
        assert(probed_hits(idx, q, some) + Seq::<(int, int)>::empty() =~= probed_hits(
            idx,
            q,
            some,
        ));
    } else {
        let init = others.drop_last();
        buckets_are_seen_one_after_the_other(idx, q, some, init, one);
        assert((some + others).drop_last() =~= some + init);
        assert(probed_hits(idx, q, some) + (probed_hits(idx, q, init) + bucket_hits(
            idx,
            q,
            others.last().1,
        )) =~= (probed_hits(idx, q, some) + probed_hits(idx, q, init)) + bucket_hits(
            idx,
            q,
            others.last().1,
        ));
    }
    reveal_with_fuel(probed_hits, 2);
    assert(seq![one].drop_last() =~= Seq::empty());
    assert(probed_hits(idx, q, seq![one]) =~= bucket_hits(idx, q, one.1));
}

/// A query looks into as many buckets as it is set to, but no more than
/// thirty-two and no more than there are, each at the distance of its centroid;
/// and as many vectors vote as it is set to, but no more than thirty-two and no
/// more than it sees.
pub proof fn queries_keep_to_their_settings(idx: StaticIVF, q: BVec)
    ensures
        ({
            let n = probed(idx, q).len();
            &&& n <= idx.nprobe && n <= 32 && n <= idx.centroids@.len()
            &&& n == idx.nprobe || n == 32 || n == idx.centroids@.len()
        }),
        ({
            let n = voters(idx, q).len();
            let seen = probed_hits(idx, q, probed(idx, q)).len();
            &&& n <= idx.k && n <= 32 && n <= seen
            &&& n == idx.k || n == 32 || n == seen
        }),
        forall|j: int|
            0 <= j < probed(idx, q).len() ==> 0 <= (#[trigger] probed(idx, q)[j]).1
                < idx.centroids@.len() && probed(idx, q)[j].0 == dist(
                q,
                idx.centroids@[probed(idx, q)[j].1],
            ),
{
    broadcast use vstd::seq_lib::group_to_multiset_ensures;

    probed_are_nearest(idx, q);
    voters_are_nearest(idx, q);
    let hits = centroid_hits(idx.centroids@, q);
    lemma_kept_from(
        hits,
        if idx.nprobe <= 32 {
            idx.nprobe as nat
        } else {
            32
        },
    );
    assert forall|j: int| 0 <= j < probed(idx, q).len() implies 0 <= (#[trigger] probed(
        idx,
        q,
    )[j]).1 < idx.centroids@.len() && probed(idx, q)[j].0 == dist(
        q,
        idx.centroids@[probed(idx, q)[j].1],
    ) by {
        assert(hits.contains(probed(idx, q)[j]));
    }
}

/// All sixteen entries count: only vectors that agree in every one of them are
/// at distance zero.
pub proof fn distances_count_every_entry(a: BVec, b: BVec)
    ensures
        dist(a, b) == 0 <==> a@ == b@,
{
    sq_dist_is_zero_when_equal(a@, b@, 16);
    assert(a@.take(16) =~= a@);
    assert(b@.take(16) =~= b@);
}

} // verus!
