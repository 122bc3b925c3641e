//! The running list of the `K` nearest candidates, nearest first.
use vstd::multiset::Multiset;
use vstd::prelude::*;

use crate::nearest::{lemma_nearest_keep, lemma_nearest_replace, nearest};
use crate::tree::kernel::K;

verus! {

/// Whether the values never decrease.
pub open spec fn ascending(s: Seq<i64>) -> bool {
    forall|i: int, j: int| 0 <= i <= j < s.len() ==> s[i] <= s[j]
}

/// Where `dist` goes in `s`: just behind the last entry that is no further.
pub open spec fn rank(s: Seq<i64>, dist: i64) -> int
    decreases s.len(),
{
    if s.len() == 0 || s.last() <= dist {
        s.len() as int
    } else {
        rank(s.drop_last(), dist)
    }
}

/// `s` with `x` put in at `at`, cut back to its old length.
pub open spec fn squeeze_in<T>(s: Seq<T>, at: int, x: T) -> Seq<T> {
    s.insert(at, x).take(s.len() as int)
}

/// The distances paired with the labels.
pub open spec fn pairs(dists: Seq<i64>, labels: Seq<u8>) -> Seq<(int, int)> {
    Seq::new(dists.len(), |i: int| (dists[i] as int, labels[i] as int))
}

/// The candidates in the list. A slot at the largest distance is empty.
pub open spec fn held(dists: Seq<i64>, labels: Seq<u8>) -> Multiset<(int, int)> {
    pairs(dists, labels).to_multiset().filter(|h: (int, int)| h.0 != i64::MAX)
}

pub proof fn lemma_rank_bounds(s: Seq<i64>, dist: i64)
    ensures
        0 <= rank(s, dist) <= s.len(),
        rank(s, dist) > 0 ==> s[rank(s, dist) - 1] <= dist,
        forall|i: int| rank(s, dist) <= i < s.len() ==> s[i] > dist,
    decreases s.len(),
{
    if s.len() > 0 && s.last() > dist {
        lemma_rank_bounds(s.drop_last(), dist);
        assert forall|i: int| rank(s, dist) <= i < s.len() implies s[i] > dist by {
            if i < s.len() - 1 {
                assert(s.drop_last()[i] == s[i]);
            }
        }
    }
}

/// Puts a candidate in its place in the list, behind those that are no further,
/// and drops the last. A candidate no nearer than the last is turned away.
pub fn insert_best(dist: i64, label: u8, best_dists: &mut [i64; 5], best_labels: &mut [u8; 5])
    ensures
        dist >= old(best_dists)[K - 1] ==> final(best_dists)@ == old(best_dists)@
            && final(best_labels)@ == old(best_labels)@,
        dist < old(best_dists)[K - 1] ==> {
            let at = rank(old(best_dists)@, dist);
            &&& final(best_dists)@ == squeeze_in(old(best_dists)@, at, dist)
            &&& final(best_labels)@ == squeeze_in(old(best_labels)@, at, label)
        },
{
    if dist >= best_dists[K - 1] {
        return ;
    }
    let ghost d0 = best_dists@;
    let ghost l0 = best_labels@;
    let mut pos: usize = K - 1;
    assert(d0.take(5) =~= d0);
    assert(d0.drop_last() =~= d0.take(4));
    while pos > 0 && dist < best_dists[pos - 1]
        invariant
            pos < K,
            d0.len() == K,
            l0.len() == K,
            best_dists@.len() == K,
            best_labels@.len() == K,
            forall|i: int| 0 <= i < pos ==> best_dists[i] == d0[i] && best_labels[i] == l0[i],
            forall|i: int|
                pos < i < K ==> best_dists[i] == d0[i - 1] && best_labels[i] == l0[i - 1],
            rank(d0, dist) == rank(d0.take(pos as int), dist),
        decreases pos,
    {
        best_dists[pos] = best_dists[pos - 1];
        best_labels[pos] = best_labels[pos - 1];
        assert(d0.take(pos as int).drop_last() =~= d0.take(pos - 1));
        pos = pos - 1;
    }
    best_dists[pos] = dist;
    best_labels[pos] = label;
    assert(rank(d0, dist) == pos);
    assert(best_dists@ =~= squeeze_in(d0, pos as int, dist));
    assert(best_labels@ =~= squeeze_in(l0, pos as int, label));
}

/// A full list holds everything in it; one with an empty slot holds less.
proof fn lemma_held_len(dists: Seq<i64>, labels: Seq<u8>)
    requires
        dists.len() == K,
        labels.len() == K,
        ascending(dists),
    ensures
        dists[K - 1] < i64::MAX ==> held(dists, labels) == pairs(dists, labels).to_multiset()
            && held(dists, labels).len() == K,
        dists[K - 1] == i64::MAX ==> held(dists, labels).len() < K,
{
    broadcast use vstd::seq_lib::group_to_multiset_ensures;

    let ps = pairs(dists, labels);
    let m = ps.to_multiset();
    let h = held(dists, labels);
    if dists[K - 1] < i64::MAX {
        assert forall|x: (int, int)| h.count(x) == m.count(x) by {
            if m.count(x) > 0 {
                assert(ps.contains(x));
                let i = choose|i: int| 0 <= i < ps.len() && ps[i] == x;
                assert(dists[i] <= dists[K - 1]);
            }
        }
        assert(h =~= m);
    } else {
        let pad = ps[K - 1];
        assert(ps.contains(pad));
        let less = m.remove(pad);
        assert(h.subset_of(less));
        assert(less.sub(h).len() == less.len() - h.len());
    }
}

/// The list stays in order when a candidate is offered.
pub proof fn lemma_ascending(d0: Seq<i64>, d1: Seq<i64>, dist: i64)
    requires
        d0.len() == K,
        ascending(d0),
        dist >= d0[K - 1] ==> d1 == d0,
        dist < d0[K - 1] ==> d1 == squeeze_in(d0, rank(d0, dist), dist),
    ensures
        ascending(d1),
{
    if dist < d0[K - 1] {
        let at = rank(d0, dist);
        lemma_rank_bounds(d0, dist);
        assert forall|i: int, j: int| 0 <= i <= j < d1.len() implies d1[i] <= d1[j] by {
            if at > 0 {
                assert(d0[at - 1] <= dist);
            }
        }
    }
}

/// The list stays the nearest of everything offered when one more candidate is.
pub proof fn lemma_offer(
    all: Multiset<(int, int)>,
    d0: Seq<i64>,
    l0: Seq<u8>,
    d1: Seq<i64>,
    l1: Seq<u8>,
    dist: i64,
    label: u8,
)
    requires
        d0.len() == K,
        l0.len() == K,
        ascending(d0),
        nearest(all, K as nat, held(d0, l0)),
        dist < i64::MAX,
        dist >= d0[K - 1] ==> d1 == d0 && l1 == l0,
        dist < d0[K - 1] ==> d1 == squeeze_in(d0, rank(d0, dist), dist) && l1 == squeeze_in(
            l0,
            rank(d0, dist),
            label,
        ),
    ensures
        ascending(d1),
        nearest(all.insert((dist as int, label as int)), K as nat, held(d1, l1)),
{
    broadcast use vstd::seq_lib::group_to_multiset_ensures;

    let hit = (dist as int, label as int);
    let p0 = pairs(d0, l0);
    let m0 = p0.to_multiset();
    let h0 = held(d0, l0);
    lemma_held_len(d0, l0);
    if dist >= d0[K - 1] {
        assert forall|c: (int, int), o: (int, int)|
            #![trigger h0.contains(c), Multiset::singleton(hit).contains(o)]
            h0.contains(c) && Multiset::singleton(hit).contains(o) implies c.0 <= o.0 by {
            assert(p0.contains(c));
            let i = choose|i: int| 0 <= i < p0.len() && p0[i] == c;
            assert(d0[i] <= d0[K - 1]);
            assert(o == hit);
        }
        crate::nearest::lemma_nearest_skip(all, K as nat, h0, Multiset::singleton(hit));
    } else {
        let at = rank(d0, dist);
        lemma_rank_bounds(d0, dist);
        let worst = p0[K - 1];
        let p1 = pairs(d1, l1);
        let wide = p0.insert(at, hit);
        assert(p1 =~= wide.take(K as int));
        assert(wide[K as int] == worst);
        assert(wide.remove(K as int) =~= p1);
        assert(p1.to_multiset() =~= wide.to_multiset().remove(worst));
        assert(wide.to_multiset() =~= m0.insert(hit));
        lemma_ascending(d0, d1, dist);
        assert(p0.contains(worst));
        if d0[K - 1] == i64::MAX {
            lemma_nearest_keep(all, K as nat, h0, hit);
            assert(held(d1, l1) =~= h0.insert(hit));
        } else {
            assert forall|c: (int, int)| #[trigger] h0.contains(c) implies c.0 <= worst.0 by {
                assert(p0.contains(c));
                let i = choose|i: int| 0 <= i < p0.len() && p0[i] == c;
                assert(d0[i] <= d0[K - 1]);
            }
            lemma_nearest_replace(all, K as nat, h0, worst, hit);
            assert(held(d1, l1) =~= h0.remove(worst).insert(hit));
        }
    }
}

/// Candidates no nearer than the last of a list change nothing.
pub proof fn lemma_pass_over(
    all: Multiset<(int, int)>,
    more: Multiset<(int, int)>,
    dists: Seq<i64>,
    labels: Seq<u8>,
    bound: int,
)
    requires
        dists.len() == K,
        labels.len() == K,
        ascending(dists),
        nearest(all, K as nat, held(dists, labels)),
        dists[K - 1] <= bound < i64::MAX,
        forall|o: (int, int)| #[trigger] more.contains(o) ==> bound <= o.0,
    ensures
        nearest(all.add(more), K as nat, held(dists, labels)),
{
    broadcast use vstd::seq_lib::group_to_multiset_ensures;

    let p = pairs(dists, labels);
    let h = held(dists, labels);
    lemma_held_len(dists, labels);
    assert forall|c: (int, int), o: (int, int)|
        #![trigger h.contains(c), more.contains(o)]
        h.contains(c) && more.contains(o) implies c.0 <= o.0 by {
        assert(p.contains(c));
        let i = choose|i: int| 0 <= i < p.len() && p[i] == c;
        assert(dists[i] <= dists[K - 1]);
    }
    crate::nearest::lemma_nearest_skip(all, K as nat, h, more);
}

} // verus!
