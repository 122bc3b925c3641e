//! A beam that is wide enough misses nothing.
use vstd::prelude::*;
use vstd::set_lib::{lemma_int_range, lemma_len_subset, lemma_subset_equality, set_int_range};

use crate::distance::BVec;
use crate::hnsw::index::{
    base_links, beam_width, descended, lemma_descended_stays, query_dists, voters, StaticHNSW,
};
use crate::hnsw::ranked::{before, in_order, lemma_place, lemma_ranked_in_order, place, ranked_in};
use crate::hnsw::search::{
    advanced, beam, closed_under, met, met_all, run, settled, started, Beam, Dists, Links,
};
use crate::nearest::nearest;

verus! {

/// Whether a set holds these nodes, and with every node those it is linked to.
pub open spec fn spans(s: Set<int>, links: Links, eps: Seq<u32>) -> bool {
    &&& forall|i: int| 0 <= i < eps.len() ==> s.contains(#[trigger] eps[i] as int)
    &&& forall|id: int, i: int|
        s.contains(id) && 0 <= i < links(id).len() ==> s.contains(#[trigger] links(id)[i] as int)
}

/// Whether every one of `n` nodes can be reached from these along the links.
pub open spec fn all_reached(links: Links, n: nat, eps: Seq<u32>) -> bool {
    forall|s: Set<int>, id: int| #[trigger]
        spans(s, links, eps) && 0 <= id < n ==> #[trigger] s.contains(id)
}

/// Whether the results of a search under way are exactly the nodes met, and
/// the nodes that these are linked to were met too, but for those still to look
/// at.
spec fn keeps_all(b: Beam, d: Dists, links: Links, n: nat) -> bool {
    &&& b.seen.finite()
    &&& b.seen.subset_of(set_int_range(0, n as int))
    &&& in_order(b.results)
    &&& b.results.no_duplicates()
    &&& b.results.len() == b.seen.len()
    &&& forall|h: (int, int)| #[trigger]
        b.results.contains(h) <==> b.seen.contains(h.1) && h.0 == d(h.1)
    &&& forall|h: (int, int)| #[trigger] b.cands.contains(h) ==> b.seen.contains(h.1)
}

/// Whether the nodes linked to from `id` were met.
spec fn looked_at(b: Beam, links: Links, id: int) -> bool {
    forall|i: int| 0 <= i < links(id).len() ==> b.seen.contains(#[trigger] links(id)[i] as int)
}

/// Whether every node met was looked at, is still to be looked at, or is the
/// one that is being looked at.
spec fn in_progress(b: Beam, d: Dists, links: Links, now: int) -> bool {
    forall|id: int| #[trigger]
        b.seen.contains(id) ==> id == now || b.cands.contains((d(id), id)) || looked_at(
            b,
            links,
            id,
        )
}

pub proof fn lemma_ranked_holds(s: Seq<(int, int)>, h: (int, int))
    ensures
        forall|x: (int, int)| #[trigger] ranked_in(s, h).contains(x) <==> s.contains(x) || x == h,
        s.no_duplicates() && !s.contains(h) ==> ranked_in(s, h).no_duplicates(),
        ranked_in(s, h).len() == s.len() + 1,
{
    lemma_place(s, h);
    let p = place(s, h);
    let t = s.insert(p, h);
    assert(forall|i: int| 0 <= i < p ==> #[trigger] t[i] == s[i]);
    assert(forall|i: int| p < i < t.len() ==> #[trigger] t[i] == s[i - 1]);
    assert(t[p] == h);
    assert forall|x: (int, int)| #[trigger] t.contains(x) <==> s.contains(x) || x == h by {
        if t.contains(x) {
            let i = choose|i: int| 0 <= i < t.len() && t[i] == x;
            if i < p {
                assert(s[i] == x);
            } else if i > p {
                assert(s[i - 1] == x);
            }
        }
        if s.contains(x) {
            let i = choose|i: int| 0 <= i < s.len() && s[i] == x;
            if i < p {
                assert(t[i] == x);
            } else {
                assert(t[i + 1] == x);
            }
        }
    }
    if s.no_duplicates() && !s.contains(h) {
        assert forall|i: int, j: int| 0 <= i < t.len() && 0 <= j < t.len() && i != j implies t[i]
            != t[j] by {
            let a = if i < p {
                i
            } else {
                i - 1
            };
            let b = if j < p {
                j
            } else {
                j - 1
            };
            if i != p {
                assert(t[i] == s[a]);
                assert(s.contains(s[a]));
            }
            if j != p {
                assert(t[j] == s[b]);
                assert(s.contains(s[b]));
            }
        }
    }
}

proof fn lemma_met_keeps(
    b: Beam,
    ef: nat,
    d: Dists,
    links: Links,
    n: nat,
    id: int,
    now: int,
)
    requires
        keeps_all(b, d, links, n),
        in_progress(b, d, links, now),
        0 <= id < n,
        n <= ef,
    ensures
        keeps_all(met(b, ef, d, id), d, links, n),
        in_progress(met(b, ef, d, id), d, links, now),
        met(b, ef, d, id).seen == b.seen.insert(id),
{
    let after = met(b, ef, d, id);
    if b.seen.contains(id) {
        assert(b.seen.insert(id) =~= b.seen);
    } else {
        let h = (d(id), id);
        lemma_int_range(0, n as int);
        lemma_len_subset(b.seen.insert(id), set_int_range(0, n as int));
        assert(b.results.len() < n);
        lemma_ranked_holds(b.results, h);
        lemma_ranked_holds(b.cands, h);
        lemma_ranked_in_order(b.results, h);
        assert(after.results == ranked_in(b.results, h));
        assert forall|x: int| #[trigger] after.seen.contains(x) implies x == now
            || after.cands.contains((d(x), x)) || looked_at(after, links, x) by {
            if x != id {
                assert(b.seen.contains(x));
            }
        }
    }
}

proof fn lemma_met_all_keeps(
    b: Beam,
    ef: nat,
    d: Dists,
    links: Links,
    n: nat,
    ns: Seq<u32>,
    now: int,
)
    requires
        keeps_all(b, d, links, n),
        in_progress(b, d, links, now),
        forall|i: int| 0 <= i < ns.len() ==> #[trigger] ns[i] < n,
        n <= ef,
    ensures
        keeps_all(met_all(b, ef, d, ns), d, links, n),
        in_progress(met_all(b, ef, d, ns), d, links, now),
        b.seen.subset_of(met_all(b, ef, d, ns).seen),
        forall|i: int|
            0 <= i < ns.len() ==> met_all(b, ef, d, ns).seen.contains(#[trigger] ns[i] as int),
    decreases ns.len(),
{
    if ns.len() > 0 {
        let init = ns.drop_last();
        assert forall|i: int| 0 <= i < init.len() implies #[trigger] init[i] < n by {
            assert(init[i] == ns[i]);
        }
        lemma_met_all_keeps(b, ef, d, links, n, init, now);
        let mid = met_all(b, ef, d, init);
        assert(ns[ns.len() - 1] < n);
        lemma_met_keeps(mid, ef, d, links, n, ns.last() as int, now);
        assert forall|i: int| 0 <= i < ns.len() implies met_all(b, ef, d, ns).seen.contains(
            #[trigger] ns[i] as int,
        ) by {
            if i < init.len() {
                assert(init[i] == ns[i]);
                assert(mid.seen.contains(init[i] as int));
            }
        }
    }
}

proof fn lemma_advanced_keeps(b: Beam, ef: nat, d: Dists, links: Links, n: nat)
    requires
        keeps_all(b, d, links, n),
        in_progress(b, d, links, -1),
        closed_under(links, n),
        b.cands.len() > 0,
        n <= ef,
    ensures
        ({
            let after = advanced(b, ef, d, links);
            &&& keeps_all(after, d, links, n)
            &&& in_progress(after, d, links, -1)
            &&& b.seen.subset_of(after.seen)
            &&& after.cands.len() + 1 - after.seen.len() == b.cands.len() - b.seen.len()
        }),
{
    let c = b.cands[0].1;
    let b1 = Beam { cands: b.cands.remove(0), ..b };
    let after = advanced(b, ef, d, links);
    lemma_first_popped(b, d, links, n);
    assert(b.cands.contains(b.cands[0]));
    assert forall|i: int| 0 <= i < links(c).len() implies #[trigger] links(c)[i] < n by {}
    lemma_met_all_keeps(b1, ef, d, links, n, links(c), c);
    lemma_met_measure(b1, ef, d, links(c), links, n, c);
    assert(looked_at(after, links, c));
    assert forall|id: int| #[trigger] after.seen.contains(id) implies id == -1
        || after.cands.contains((d(id), id)) || looked_at(after, links, id) by {}
}

proof fn lemma_started_keeps(d: Dists, links: Links, n: nat, eps: Seq<u32>)
    requires
        forall|i: int| 0 <= i < eps.len() ==> #[trigger] eps[i] < n,
    ensures
        keeps_all(started(d, eps), d, links, n),
        in_progress(started(d, eps), d, links, -1),
        started(d, eps).cands.len() == started(d, eps).seen.len(),
        forall|i: int| 0 <= i < eps.len() ==> started(d, eps).seen.contains(#[trigger] eps[i] as int),
    decreases eps.len(),
{
    if eps.len() > 0 {
        let init = eps.drop_last();
        assert forall|i: int| 0 <= i < init.len() implies #[trigger] init[i] < n by {
            assert(init[i] == eps[i]);
        }
        lemma_started_keeps(d, links, n, init);
        let b = started(d, init);
        let id = eps.last() as int;
        let after = started(d, eps);
        assert(eps[eps.len() - 1] < n);
        if !b.seen.contains(id) {
            let h = (d(id), id);
            lemma_ranked_holds(b.results, h);
            lemma_ranked_holds(b.cands, h);
            lemma_ranked_in_order(b.results, h);
            assert forall|x: int| #[trigger] after.seen.contains(x) implies x == -1
                || after.cands.contains((d(x), x)) || looked_at(after, links, x) by {
                if x != id {
                    assert(b.seen.contains(x));
                }
            }
        }
        assert forall|i: int| 0 <= i < eps.len() implies after.seen.contains(
            #[trigger] eps[i] as int,
        ) by {
            if i < init.len() {
                assert(init[i] == eps[i]);
                assert(b.seen.contains(init[i] as int));
            }
        }
    } else {
        let b = started(d, eps);
        assert(b.seen =~= Set::empty());
        assert(b.results =~= Seq::empty());
    }
}

proof fn lemma_met_measure(b: Beam, ef: nat, d: Dists, ns: Seq<u32>, links: Links, n: nat, now: int)
    requires
        keeps_all(b, d, links, n),
        in_progress(b, d, links, now),
        forall|i: int| 0 <= i < ns.len() ==> #[trigger] ns[i] < n,
        n <= ef,
    ensures
        met_all(b, ef, d, ns).cands.len() - met_all(b, ef, d, ns).seen.len() == b.cands.len()
            - b.seen.len(),
    decreases ns.len(),
{
    if ns.len() > 0 {
        let init = ns.drop_last();
        assert forall|i: int| 0 <= i < init.len() implies #[trigger] init[i] < n by {
            assert(init[i] == ns[i]);
        }
        lemma_met_measure(b, ef, d, init, links, n, now);
        lemma_met_all_keeps(b, ef, d, links, n, init, now);
        let mid = met_all(b, ef, d, init);
        let id = ns.last() as int;
        assert(ns[ns.len() - 1] < n);
        lemma_met_keeps(mid, ef, d, links, n, id, now);
        if !mid.seen.contains(id) {
            lemma_int_range(0, n as int);
            lemma_len_subset(mid.seen.insert(id), set_int_range(0, n as int));
            lemma_ranked_holds(mid.cands, (d(id), id));
        }
    }
}

/// A search with a wide enough beam ends with everything that it can reach.
proof fn lemma_run_keeps(b: Beam, ef: nat, d: Dists, links: Links, n: nat, steps: nat)
    requires
        keeps_all(b, d, links, n),
        in_progress(b, d, links, -1),
        closed_under(links, n),
        n <= ef,
        b.cands.len() + n <= steps + b.seen.len(),
    ensures
        keeps_all(run(b, ef, d, links, steps), d, links, n),
        in_progress(run(b, ef, d, links, steps), d, links, -1),
        b.seen.subset_of(run(b, ef, d, links, steps).seen),
        settled(run(b, ef, d, links, steps), ef),
    decreases steps,
{
    lemma_int_range(0, n as int);
    lemma_len_subset(b.seen, set_int_range(0, n as int));
    if !(steps == 0 || settled(b, ef)) {
        lemma_advanced_keeps(b, ef, d, links, n);
        lemma_run_keeps(advanced(b, ef, d, links), ef, d, links, n, (steps - 1) as nat);
    }
}

proof fn lemma_first_popped(b: Beam, d: Dists, links: Links, n: nat)
    requires
        keeps_all(b, d, links, n),
        in_progress(b, d, links, -1),
        b.cands.len() > 0,
    ensures
        keeps_all(Beam { cands: b.cands.remove(0), ..b }, d, links, n),
        in_progress(Beam { cands: b.cands.remove(0), ..b }, d, links, b.cands[0].1),
{
    let c = b.cands[0].1;
    let rest = b.cands.remove(0);
    let b1 = Beam { cands: rest, ..b };
    assert forall|h: (int, int)| #[trigger] rest.contains(h) implies b.seen.contains(h.1) by {
        let i = choose|i: int| 0 <= i < rest.len() && rest[i] == h;
        assert(b.cands[i + 1] == h);
        assert(b.cands.contains(h));
    }
    assert forall|id: int| #[trigger] b1.seen.contains(id) implies id == c || rest.contains(
        (d(id), id),
    ) || looked_at(b1, links, id) by {
        if b.cands.contains((d(id), id)) && id != c {
            let i = choose|i: int| 0 <= i < b.cands.len() && b.cands[i] == (d(id), id);
            assert(i > 0);
            assert(rest[i - 1] == (d(id), id));
        } else if id != c {
            assert(looked_at(b, links, id));
            assert(looked_at(b1, links, id));
        }
    }
}

/// A beam as wide as there are nodes finds all of them, nearest first, where
/// all can be reached.
pub proof fn wide_beam_finds_every_node(
    d: Dists,
    links: Links,
    n: nat,
    eps: Seq<u32>,
    ef: nat,
)
    requires
        closed_under(links, n),
        forall|i: int| 0 <= i < eps.len() ==> #[trigger] eps[i] < n,
        all_reached(links, n, eps),
        n <= ef,
    ensures
        in_order(beam(d, links, n, eps, ef)),
        beam(d, links, n, eps, ef).len() == n,
        beam(d, links, n, eps, ef).no_duplicates(),
        forall|h: (int, int)| #[trigger]
            beam(d, links, n, eps, ef).contains(h) <==> 0 <= h.1 < n && h.0 == d(h.1),
{
    let b0 = started(d, eps);
    lemma_started_keeps(d, links, n, eps);
    lemma_run_keeps(b0, ef, d, links, n, n);
    let b = run(b0, ef, d, links, n);
    let all = set_int_range(0, n as int);
    lemma_int_range(0, n as int);
    lemma_len_subset(b.seen, all);
    assert(b.seen =~= all) by {
        if b.cands.len() == 0 {
            assert(spans(b.seen, links, eps)) by {
                assert forall|id: int, i: int|
                    b.seen.contains(id) && 0 <= i < links(id).len() implies b.seen.contains(
                    #[trigger] links(id)[i] as int,
                ) by {
                    assert(looked_at(b, links, id));
                }
            }
            assert forall|id: int| all.contains(id) implies b.seen.contains(id) by {
                assert(spans(b.seen, links, eps) && 0 <= id < n);
            }
        } else {
            lemma_subset_equality(b.seen, all);
        }
    }
}

pub proof fn lemma_first_are_nearest(s: Seq<(int, int)>, k: nat)
    requires
        in_order(s),
    ensures
        nearest(
            s.to_multiset(),
            k,
            (if s.len() <= k {
                s
            } else {
                s.take(k as int)
            }).to_multiset(),
        ),
{
    broadcast use vstd::seq_lib::group_to_multiset_ensures;

    let cut = if s.len() <= k {
        s.len() as int
    } else {
        k as int
    };
    let front = s.take(cut);
    let back = s.skip(cut);
    assert(s =~= front + back);
    vstd::seq_lib::lemma_multiset_commutative(front, back);
    if s.len() <= k {
        assert(front =~= s);
    }
    assert(s.to_multiset().sub(front.to_multiset()) =~= back.to_multiset());
    assert forall|c: (int, int), o: (int, int)|
        #![trigger front.to_multiset().contains(c), back.to_multiset().contains(o)]
        front.to_multiset().contains(c) && back.to_multiset().contains(o) implies c.0 <= o.0 by {
        assert(front.contains(c) && back.contains(o));
        let i = choose|i: int| 0 <= i < front.len() && front[i] == c;
        let j = choose|j: int| 0 <= j < back.len() && back[j] == o;
        assert(s[i] == c && s[cut + j] == o);
        assert(before(s[i], s[cut + j]) || s[i] == s[cut + j]);
    }
}

/// Every node as a hit, tagged with its id.
pub open spec fn all_hits(idx: StaticHNSW, q: BVec) -> Seq<(int, int)> {
    Seq::new(idx.vectors@.len(), |id: int| (query_dists(idx, q)(id), id))
}

/// A query that looks for as many nodes as there are is exact: the nearest of
/// all nodes vote, where all can be reached from the end of the walk down.
pub proof fn wide_query_is_exact(idx: StaticHNSW, q: BVec)
    requires
        idx.wf(),
        idx.vectors@.len() > 0,
        idx.vectors@.len() <= beam_width(idx),
        all_reached(
            base_links(idx),
            idx.vectors@.len(),
            seq![descended(idx, q, idx.entry as int, idx.max_level as int) as u32],
        ),
    ensures
        nearest(
            all_hits(idx, q).to_multiset(),
            idx.k as nat,
            voters(idx, q).to_multiset(),
        ),
{
    broadcast use vstd::seq_lib::group_to_multiset_ensures;

    let n = idx.vectors@.len();
    let d = query_dists(idx, q);
    let ep = descended(idx, q, idx.entry as int, idx.max_level as int);
    let eps = seq![ep as u32];
    lemma_descended_stays(idx, q, idx.entry as int, idx.max_level as int);
    let found = beam(d, base_links(idx), n, eps, beam_width(idx));
    let all = all_hits(idx, q);
    wide_beam_finds_every_node(d, base_links(idx), n, eps, beam_width(idx));
    lemma_first_are_nearest(found, idx.k as nat);
    assert(found.to_multiset() =~= all.to_multiset()) by {
        found.lemma_multiset_has_no_duplicates();
        assert(all.no_duplicates()) by {
            assert forall|i: int, j: int|
                0 <= i < all.len() && 0 <= j < all.len() && i != j implies all[i] != all[j] by {
                assert(all[i].1 == i && all[j].1 == j);
            }
        }
        all.lemma_multiset_has_no_duplicates();
        assert forall|h: (int, int)|
            found.to_multiset().count(h) == all.to_multiset().count(h) by {
            if found.contains(h) {
                assert(all[h.1] == h);
                assert(all.contains(h));
                assert(found.to_multiset().contains(h) && all.to_multiset().contains(h));
            } else if all.contains(h) {
                let i = choose|i: int| 0 <= i < all.len() && all[i] == h;
                assert(found.contains(h));
            } else {
                assert(!found.to_multiset().contains(h) && !all.to_multiset().contains(h));
            }
        }
    }
}

} // verus!
