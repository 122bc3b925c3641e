//! What a search finds, however narrow its beam: nothing next to what it found
//! was passed over for something further away.
use vstd::prelude::*;
use vstd::set_lib::{lemma_int_range, lemma_len_subset, set_int_range};

use crate::distance::{lemma_sq_dist_of_front, sq_dist_is_zero_when_equal, BVec};
use crate::hnsw::exact::{lemma_first_are_nearest, lemma_ranked_holds};
use crate::hnsw::index::{
    base_links, descended, dist, frauds_among, lemma_descended_stays, lemma_upper_closed, query_dists,
    upper_links, voters, StaticHNSW,
};
use crate::hnsw::ranked::{before, in_order, lemma_ranked_in_order, ranked_in};
use crate::hnsw::search::{
    advanced, beam, closed_under, greedy, greedy_ends_at_a_local_minimum, lemma_greedy_stays, met,
    met_all, nearest_of, run, settled, started, Beam, Dists, Links,
};
use crate::nearest::{least, nearest};

verus! {

/// Whether a node was found, or enough others were that are no further away.
pub open spec fn found_or_beaten(
    found: Seq<(int, int)>,
    d: Dists,
    ef: nat,
    id: int,
) -> bool {
    found.contains((d(id), id)) || (found.len() >= ef && found.len() > 0 && found.last().0 <= d(id))
}

/// Whether a list holds nodes among `n` at their distances, each once and in
/// order.
pub open spec fn listed(s: Seq<(int, int)>, d: Dists, n: nat) -> bool {
    &&& in_order(s)
    &&& s.no_duplicates()
    &&& forall|h: (int, int)| #[trigger] s.contains(h) ==> 0 <= h.1 < n && h.0 == d(h.1)
}

/// Whether a search under way has kept the nearest of what it met.
spec fn keeps_nearest(b: Beam, ef: nat, d: Dists, n: nat, most: nat) -> bool {
    &&& b.seen.finite()
    &&& b.seen.subset_of(set_int_range(0, n as int))
    &&& listed(b.results, d, n)
    &&& listed(b.cands, d, n)
    &&& b.results.len() <= most
    &&& forall|h: (int, int)| #[trigger] b.results.contains(h) ==> b.seen.contains(h.1)
    &&& forall|h: (int, int)| #[trigger] b.cands.contains(h) ==> b.seen.contains(h.1)
    &&& forall|id: int| #[trigger]
        b.seen.contains(id) ==> found_or_beaten(b.results, d, ef, id)
}

/// Whether the nodes that a node is linked to were met.
spec fn looked_at(b: Beam, links: Links, id: int) -> bool {
    forall|i: int| 0 <= i < links(id).len() ==> b.seen.contains(#[trigger] links(id)[i] as int)
}

/// Whether every result was looked at, is still to be looked at, or is the one
/// that is being looked at.
spec fn in_progress(b: Beam, links: Links, now: int) -> bool {
    forall|h: (int, int)| #[trigger]
        b.results.contains(h) ==> h.1 == now || b.cands.contains(h) || looked_at(b, links, h.1)
}

proof fn lemma_put_in(s: Seq<(int, int)>, d: Dists, n: nat, id: int)
    requires
        listed(s, d, n),
        0 <= id < n,
        !s.contains((d(id), id)),
    ensures
        listed(ranked_in(s, (d(id), id)), d, n),
        ranked_in(s, (d(id), id)).len() == s.len() + 1,
        forall|x: (int, int)| #[trigger]
            ranked_in(s, (d(id), id)).contains(x) <==> s.contains(x) || x == (d(id), id),
{
    lemma_ranked_holds(s, (d(id), id));
    lemma_ranked_in_order(s, (d(id), id));
}

/// Without its last entry a list is still one, and that entry was a furthest.
proof fn lemma_last_out(s: Seq<(int, int)>, d: Dists, n: nat)
    requires
        listed(s, d, n),
        s.len() > 0,
    ensures
        listed(s.drop_last(), d, n),
        forall|x: (int, int)| #[trigger]
            s.drop_last().contains(x) <==> s.contains(x) && x != s.last(),
        forall|x: (int, int)| #[trigger] s.contains(x) ==> x.0 <= s.last().0,
{
    let t = s.drop_last();
    assert forall|x: (int, int)| #[trigger] t.contains(x) <==> s.contains(x) && x != s.last() by {
        if t.contains(x) {
            let i = choose|i: int| 0 <= i < t.len() && t[i] == x;
            assert(s[i] == x);
        }
        if s.contains(x) && x != s.last() {
            let i = choose|i: int| 0 <= i < s.len() && s[i] == x;
            assert(t[i] == x);
        }
    }
    assert forall|x: (int, int)| #[trigger] s.contains(x) implies x.0 <= s.last().0 by {
        let i = choose|i: int| 0 <= i < s.len() && s[i] == x;
        if i < s.len() - 1 {
            assert(before(s[i], s[s.len() - 1]) || s[i] == s[s.len() - 1]);
        }
    }
    assert forall|i: int, j: int| 0 <= i < j < t.len() implies before(t[i], t[j]) || t[i]
        == t[j] by {
        assert(before(s[i], s[j]) || s[i] == s[j]);
    }
}

proof fn lemma_met(b: Beam, ef: nat, d: Dists, links: Links, n: nat, most: nat, id: int, now: int)
    requires
        keeps_nearest(b, ef, d, n, most),
        in_progress(b, links, now),
        0 <= id < n,
        0 < ef <= most,
    ensures
        keeps_nearest(met(b, ef, d, id), ef, d, n, most),
        in_progress(met(b, ef, d, id), links, now),
        met(b, ef, d, id).seen == b.seen.insert(id),
        met(b, ef, d, id).cands.len() + b.seen.len() <= b.cands.len() + met(
            b,
            ef,
            d,
            id,
        ).seen.len(),
{
    let after = met(b, ef, d, id);
    let h = (d(id), id);
    if b.seen.contains(id) {
        assert(b.seen.insert(id) =~= b.seen);
    } else {
        assert(!b.results.contains(h) && !b.cands.contains(h));
        if b.results.len() > 0 {
            lemma_last_out(b.results, d, n);
        }
        if b.results.len() < ef || b.results.len() == 0 || d(id) < b.results.last().0 {
            lemma_put_in(b.results, d, n, id);
            lemma_put_in(b.cands, d, n, id);
            let more = ranked_in(b.results, h);
            if more.len() > ef {
                lemma_last_out(more, d, n);
                let r = more.drop_last();
                assert(after.results == r);
                let old_last = b.results.last();
                assert(b.results.contains(old_last)) by {
                    assert(b.results[b.results.len() - 1] == old_last);
                }
                assert(more.contains(old_last));
                assert(more.contains(more.last())) by {
                    assert(more[more.len() - 1] == more.last());
                }
                assert(more.last() == old_last);
                assert(r.contains(r.last())) by {
                    assert(r[r.len() - 1] == r.last());
                }
                assert(r.last().0 <= old_last.0);
                assert forall|x: int| #[trigger] after.seen.contains(x) implies found_or_beaten(
                    r,
                    d,
                    ef,
                    x,
                ) by {
                    if x != id {
                        assert(b.seen.contains(x));
                        assert(found_or_beaten(b.results, d, ef, x));
                    }
                }
            } else {
                assert(after.results == more);
                assert forall|x: int| #[trigger] after.seen.contains(x) implies found_or_beaten(
                    more,
                    d,
                    ef,
                    x,
                ) by {
                    if x != id {
                        assert(b.seen.contains(x));
                        assert(found_or_beaten(b.results, d, ef, x));
                    }
                }
            }
        } else {
            assert forall|x: int| #[trigger] after.seen.contains(x) implies found_or_beaten(
                after.results,
                d,
                ef,
                x,
            ) by {
                if x != id {
                    assert(b.seen.contains(x));
                }
            }
        }
        assert forall|x: (int, int)| #[trigger] after.results.contains(x) implies x.1 == now
            || after.cands.contains(x) || looked_at(after, links, x.1) by {
            if x != h {
                assert(b.results.contains(x));
                if looked_at(b, links, x.1) {
                    assert(looked_at(after, links, x.1));
                }
            }
        }
    }
}

proof fn lemma_met_all(
    b: Beam,
    ef: nat,
    d: Dists,
    links: Links,
    n: nat,
    most: nat,
    ns: Seq<u32>,
    now: int,
)
    requires
        keeps_nearest(b, ef, d, n, most),
        in_progress(b, links, now),
        forall|i: int| 0 <= i < ns.len() ==> #[trigger] ns[i] < n,
        0 < ef <= most,
    ensures
        keeps_nearest(met_all(b, ef, d, ns), ef, d, n, most),
        in_progress(met_all(b, ef, d, ns), links, now),
        b.seen.subset_of(met_all(b, ef, d, ns).seen),
        forall|i: int|
            0 <= i < ns.len() ==> met_all(b, ef, d, ns).seen.contains(#[trigger] ns[i] as int),
        met_all(b, ef, d, ns).cands.len() + b.seen.len() <= b.cands.len() + met_all(
            b,
            ef,
            d,
            ns,
        ).seen.len(),
    decreases ns.len(),
{
    if ns.len() > 0 {
        let init = ns.drop_last();
        assert forall|i: int| 0 <= i < init.len() implies #[trigger] init[i] < n by {
            assert(init[i] == ns[i]);
        }
        lemma_met_all(b, ef, d, links, n, most, init, now);
        let mid = met_all(b, ef, d, init);
        assert(ns[ns.len() - 1] < n);
        lemma_met(mid, ef, d, links, n, most, ns.last() as int, now);
        assert forall|i: int| 0 <= i < ns.len() implies met_all(b, ef, d, ns).seen.contains(
            #[trigger] ns[i] as int,
        ) by {
            if i < init.len() {
                assert(init[i] == ns[i]);
                assert(mid.seen.contains(init[i] as int));
            }
        }
    }
}

proof fn lemma_first_out(b: Beam, ef: nat, d: Dists, links: Links, n: nat, most: nat)
    requires
        keeps_nearest(b, ef, d, n, most),
        in_progress(b, links, -1),
        b.cands.len() > 0,
    ensures
        keeps_nearest(Beam { cands: b.cands.remove(0), ..b }, ef, d, n, most),
        in_progress(Beam { cands: b.cands.remove(0), ..b }, links, b.cands[0].1),
        0 <= b.cands[0].1 < n,
{
    let first = b.cands[0];
    let rest = b.cands.remove(0);
    let b1 = Beam { cands: rest, ..b };
    assert(b.cands.contains(first));
    assert forall|h: (int, int)| #[trigger] rest.contains(h) implies b.cands.contains(h) by {
        let i = choose|i: int| 0 <= i < rest.len() && rest[i] == h;
        assert(b.cands[i + 1] == h);
    }
    assert forall|i: int, j: int| 0 <= i < j < rest.len() implies before(rest[i], rest[j])
        || rest[i] == rest[j] by {
        assert(before(b.cands[i + 1], b.cands[j + 1]) || b.cands[i + 1] == b.cands[j + 1]);
    }
    assert forall|h: (int, int)| #[trigger] b1.results.contains(h) implies h.1 == first.1
        || rest.contains(h) || looked_at(b1, links, h.1) by {
        if b.cands.contains(h) && h != first {
            let i = choose|i: int| 0 <= i < b.cands.len() && b.cands[i] == h;
            assert(rest[i - 1] == h);
        } else if h.1 != first.1 {
            assert(looked_at(b, links, h.1));
            assert(looked_at(b1, links, h.1));
        }
    }
}

proof fn lemma_run(b: Beam, ef: nat, d: Dists, links: Links, n: nat, most: nat, steps: nat)
    requires
        keeps_nearest(b, ef, d, n, most),
        in_progress(b, links, -1),
        closed_under(links, n),
        0 < ef <= most,
        b.cands.len() + n <= steps + b.seen.len(),
    ensures
        keeps_nearest(run(b, ef, d, links, steps), ef, d, n, most),
        in_progress(run(b, ef, d, links, steps), links, -1),
        b.seen.subset_of(run(b, ef, d, links, steps).seen),
        settled(run(b, ef, d, links, steps), ef),
    decreases steps,
{
    lemma_int_range(0, n as int);
    lemma_len_subset(b.seen, set_int_range(0, n as int));
    if !(steps == 0 || settled(b, ef)) {
        let c = b.cands[0].1;
        let b1 = Beam { cands: b.cands.remove(0), ..b };
        lemma_first_out(b, ef, d, links, n, most);
        assert forall|i: int| 0 <= i < links(c).len() implies #[trigger] links(c)[i] < n by {}
        lemma_met_all(b1, ef, d, links, n, most, links(c), c);
        let after = advanced(b, ef, d, links);
        assert(looked_at(after, links, c));
        assert(in_progress(after, links, -1));
        lemma_run(after, ef, d, links, n, most, (steps - 1) as nat);
    }
}

proof fn lemma_started(d: Dists, links: Links, n: nat, eps: Seq<u32>, ef: nat, most: nat)
    requires
        forall|i: int| 0 <= i < eps.len() ==> #[trigger] eps[i] < n,
        eps.len() <= most,
    ensures
        keeps_nearest(started(d, eps), ef, d, n, most),
        in_progress(started(d, eps), links, -1),
        started(d, eps).cands.len() == started(d, eps).seen.len(),
        started(d, eps).results.len() <= eps.len(),
        forall|i: int| 0 <= i < eps.len() ==> started(d, eps).seen.contains(#[trigger] eps[i] as int),
        forall|id: int| #[trigger]
            started(d, eps).seen.contains(id) ==> started(d, eps).results.contains((d(id), id)),
    decreases eps.len(),
{
    let after = started(d, eps);
    if eps.len() > 0 {
        let init = eps.drop_last();
        assert forall|i: int| 0 <= i < init.len() implies #[trigger] init[i] < n by {
            assert(init[i] == eps[i]);
        }
        lemma_started(d, links, n, init, ef, most);
        let b = started(d, init);
        let id = eps.last() as int;
        assert(eps[eps.len() - 1] < n);
        if !b.seen.contains(id) {
            let h = (d(id), id);
            assert(!b.results.contains(h) && !b.cands.contains(h));
            lemma_put_in(b.results, d, n, id);
            lemma_put_in(b.cands, d, n, id);
            assert forall|x: int| #[trigger] after.seen.contains(x) implies after.results.contains(
                (d(x), x),
            ) by {
                if x != id {
                    assert(b.seen.contains(x));
                }
            }
            assert forall|x: (int, int)| #[trigger] after.results.contains(x) implies x.1 == -1
                || after.cands.contains(x) || looked_at(after, links, x.1) by {
                if x != h {
                    assert(b.results.contains(x));
                    if looked_at(b, links, x.1) {
                        assert(looked_at(after, links, x.1));
                    }
                }
            }
        }
        assert forall|i: int| 0 <= i < eps.len() implies after.seen.contains(
            #[trigger] eps[i] as int,
        ) by {
            if i < init.len() {
                assert(init[i] == eps[i]);
                assert(b.seen.contains(init[i] as int));
            }
        }
    } else {
        assert(after.seen =~= Set::empty());
        assert(after.results =~= Seq::empty());
        assert(after.cands =~= Seq::empty());
    }
}

/// What a search finds: nodes at their distances, each once, nearest first, and
/// no more than the beam is wide or the search began with. Each node that it
/// began at, and each node that one found is linked to, was found too, or there
/// are enough others that are no further away.
pub proof fn nothing_near_is_passed_over(
    d: Dists,
    links: Links,
    n: nat,
    eps: Seq<u32>,
    ef: nat,
)
    requires
        closed_under(links, n),
        forall|i: int| 0 <= i < eps.len() ==> #[trigger] eps[i] < n,
        ef > 0,
    ensures
        ({
            let found = beam(d, links, n, eps, ef);
            &&& listed(found, d, n)
            &&& found.len() <= ef || found.len() <= eps.len()
            &&& forall|i: int|
                0 <= i < eps.len() ==> found_or_beaten(found, d, ef, #[trigger] eps[i] as int)
            &&& forall|j: int, i: int|
                0 <= j < found.len() && 0 <= i < links(found[j].1).len() ==> found_or_beaten(
                    found,
                    d,
                    ef,
                    #[trigger] links(found[j].1)[i] as int,
                )
        }),
{
    let most = if eps.len() <= ef {
        ef
    } else {
        eps.len()
    };
    let b0 = started(d, eps);
    lemma_started(d, links, n, eps, ef, most);
    lemma_run(b0, ef, d, links, n, most, n);
    let b = run(b0, ef, d, links, n);
    let found = b.results;
    assert(found == beam(d, links, n, eps, ef));
    assert forall|i: int| 0 <= i < eps.len() implies found_or_beaten(
        found,
        d,
        ef,
        #[trigger] eps[i] as int,
    ) by {
        assert(b.seen.contains(eps[i] as int));
    }
    assert forall|j: int, i: int|
        0 <= j < found.len() && 0 <= i < links(found[j].1).len() implies found_or_beaten(
        found,
        d,
        ef,
        #[trigger] links(found[j].1)[i] as int,
    ) by {
        let h = found[j];
        assert(found.contains(h));
        assert(looked_at(b, links, h.1)) by {
            if b.cands.contains(h) {
                let c = choose|c: int| 0 <= c < b.cands.len() && b.cands[c] == h;
                if c > 0 {
                    assert(before(b.cands[0], b.cands[c]) || b.cands[0] == b.cands[c]);
                }
                lemma_last_out(found, d, n);
                assert(h.0 <= found.last().0);
                assert(false);
            }
        }
        assert(b.seen.contains(links(h.1)[i] as int));
    }
}

/// What a query finds on the lowest layer, from where the walk down ends.
pub open spec fn found_for(idx: StaticHNSW, q: BVec) -> Seq<(int, int)> {
    let ep = descended(idx, q, idx.entry as int, idx.max_level as int);
    beam(
        query_dists(idx, q),
        base_links(idx),
        idx.vectors@.len(),
        seq![ep as u32],
        if idx.ef_search >= idx.k {
            idx.ef_search as nat
        } else {
            idx.k as nat
        },
    )
}

/// Of what a query finds the nearest vote, as many as may: no node that was
/// found and does not vote is closer to the query than one that does.
pub proof fn voters_are_the_nearest_found(idx: StaticHNSW, q: BVec)
    requires
        idx.wf(),
        idx.vectors@.len() > 0,
    ensures
        nearest(found_for(idx, q).to_multiset(), idx.k as nat, voters(idx, q).to_multiset()),
        voters(idx, q).len() == least(idx.k as nat, found_for(idx, q).len()),
        forall|i: int, h: (int, int)|
            0 <= i < voters(idx, q).len() && found_for(idx, q).contains(h) && !voters(
                idx,
                q,
            ).contains(h) ==> (#[trigger] voters(idx, q)[i]).0 <= (#[trigger] h.0),
{
    let found = found_for(idx, q);
    let chosen = voters(idx, q);
    lemma_descended_stays(idx, q, idx.entry as int, idx.max_level as int);
    if idx.k == 0 {
        broadcast use vstd::seq_lib::group_to_multiset_ensures;

        assert(chosen =~= Seq::empty());
    } else {
        let ep = descended(idx, q, idx.entry as int, idx.max_level as int);
        nothing_near_is_passed_over(
            query_dists(idx, q),
            base_links(idx),
            idx.vectors@.len(),
            seq![ep as u32],
            if idx.ef_search >= idx.k {
                idx.ef_search as nat
            } else {
                idx.k as nat
            },
        );
        lemma_first_are_nearest(found, idx.k as nat);
    }
    assert forall|i: int, h: (int, int)|
        0 <= i < chosen.len() && found.contains(h) && !chosen.contains(h) implies (
    #[trigger] chosen[i]).0 <= (#[trigger] h.0) by {
        let j = choose|j: int| 0 <= j < found.len() && found[j] == h;
        assert(chosen[i] == found[i]);
        if j < chosen.len() {
            assert(chosen[j] == h);
        }
        assert(before(found[i], found[j]) || found[i] == found[j]);
    }
}

/// A walk down goes through every layer: on each it ends no further from the
/// query than it came in, at a node none of whose links on that layer is nearer,
/// and there it enters the layer below.
pub proof fn walks_go_down_layer_by_layer(idx: StaticHNSW, q: BVec, ep: int, top: nat) -> (stops:
    Seq<int>)
    requires
        idx.wf(),
        0 <= ep < idx.vectors@.len(),
    ensures
        stops.len() == top + 1,
        stops[top as int] == ep,
        stops[0] == descended(idx, q, ep, top as int),
        forall|layer: int|
            1 <= layer <= top ==> {
                let d = query_dists(idx, q);
                let end = #[trigger] stops[layer - 1];
                &&& 0 <= end < idx.vectors@.len()
                &&& d(end) <= d(stops[layer])
                &&& forall|i: int|
                    0 <= i < upper_links(idx, layer)(end).len() ==> d(end) <= d(
                        #[trigger] upper_links(idx, layer)(end)[i] as int,
                    )
            },
    decreases top,
{
    if top == 0 {
        seq![ep]
    } else {
        let d = query_dists(idx, q);
        let links = upper_links(idx, top as int);
        let end = greedy(d, links, ep);
        lemma_upper_closed(idx, top as int);
        lemma_greedy_stays(d, links, idx.vectors@.len(), ep);
        assert forall|id: int| #[trigger] d(id) >= 0 by {
            crate::distance::lemma_sq_dist_bound(q@, idx.vectors@[id]@, 14);
        }
        greedy_ends_at_a_local_minimum(d, links, ep);
        let below = walks_go_down_layer_by_layer(idx, q, end, (top - 1) as nat);
        let stops = below.push(ep);
        assert forall|layer: int| 1 <= layer <= top implies ({
            let end = #[trigger] stops[layer - 1];
            &&& 0 <= end < idx.vectors@.len()
            &&& d(end) <= d(stops[layer])
            &&& forall|i: int|
                0 <= i < upper_links(idx, layer)(end).len() ==> d(end) <= d(
                    #[trigger] upper_links(idx, layer)(end)[i] as int,
                )
        }) by {
            if layer < top {
                assert(stops[layer - 1] == below[layer - 1]);
                assert(stops[layer] == below[layer]);
            } else {
                assert(stops[layer - 1] == end);
            }
        }
        stops
    }
}

/// The votes are those of the nodes labelled as fraud.
pub proof fn votes_are_those_of_fraud(labels: Seq<u8>, nodes: Seq<(int, int)>)
    ensures
        frauds_among(labels, nodes) == nodes.filter(|h: (int, int)| labels[h.1] != 0).len(),
    decreases nodes.len(),
{
    reveal(Seq::filter);
    if nodes.len() > 0 {
        votes_are_those_of_fraud(labels, nodes.drop_last());
    }
}

/// Fourteen entries count, and the padding does not: vectors that agree in them
/// are equally far from any other, and only those are at distance zero.
pub proof fn distances_leave_padding_out(a: BVec, b: BVec, c: BVec)
    ensures
        a@.take(14) == b@.take(14) ==> dist(a, c) == dist(b, c),
        dist(a, b) == 0 <==> a@.take(14) == b@.take(14),
{
    sq_dist_is_zero_when_equal(a@, b@, 14);
    if a@.take(14) == b@.take(14) {
        assert forall|j: int| 0 <= j < 14 implies #[trigger] a@[j] == b@[j] by {
            assert(a@.take(14)[j] == b@.take(14)[j]);
        }
        lemma_sq_dist_of_front(a@, b@, c@, 14);
    }
}

/// A node that is met for the first time is turned away where enough others are
/// no further away, and is else found and still to be looked at; one that was met
/// before changes nothing.
pub proof fn nodes_no_nearer_are_turned_away(b: Beam, ef: nat, d: Dists, id: int)
    requires
        ef > 0,
    ensures
        ({
            let after = met(b, ef, d, id);
            &&& after.seen == b.seen.insert(id)
            &&& b.seen.contains(id) ==> after.results == b.results && after.cands == b.cands
            &&& b.results.len() >= ef && b.results.last().0 <= d(id) ==> after.results == b.results
                && after.cands == b.cands
            &&& !b.seen.contains(id) && (b.results.len() < ef || d(id) < b.results.last().0)
                ==> after.cands.contains((d(id), id)) && after.cands.len() == b.cands.len() + 1
            &&& !b.seen.contains(id) && b.results.len() < ef ==> after.results.contains(
                (d(id), id),
            ) && after.results.len() == b.results.len() + 1
        }),
{
    let h = (d(id), id);
    lemma_ranked_holds(b.results, h);
    lemma_ranked_holds(b.cands, h);
    if b.seen.contains(id) {
        assert(b.seen.insert(id) =~= b.seen);
    }
}

/// A greedy walk goes on to the nearest of the links, the first of several, as
/// long as that is nearer than where it stands, and stays where none is.
pub proof fn walks_go_to_the_first_nearest_link(d: Dists, links: Links, cur: int, i: int)
    requires
        forall|id: int| #[trigger] d(id) >= 0,
        0 <= i < links(cur).len(),
        forall|j: int| 0 <= j < links(cur).len() ==> d(links(cur)[i] as int) <= d(
            #[trigger] links(cur)[j] as int,
        ),
        forall|j: int| 0 <= j < i ==> d(links(cur)[i] as int) < d(#[trigger] links(cur)[j] as int),
    ensures
        d(links(cur)[i] as int) < d(cur) ==> greedy(d, links, cur) == greedy(
            d,
            links,
            links(cur)[i] as int,
        ),
        d(links(cur)[i] as int) >= d(cur) ==> greedy(d, links, cur) == cur,
{
    lemma_first_nearest(d, cur, links(cur), links(cur).len(), i);
    assert(links(cur).take(links(cur).len() as int) =~= links(cur));
}

proof fn lemma_first_nearest(d: Dists, cur: int, ns: Seq<u32>, n: nat, i: int)
    requires
        n <= ns.len(),
        0 <= i < ns.len(),
        forall|j: int| 0 <= j < ns.len() ==> d(ns[i] as int) <= d(#[trigger] ns[j] as int),
        forall|j: int| 0 <= j < i ==> d(ns[i] as int) < d(#[trigger] ns[j] as int),
    ensures
        ({
            let best = nearest_of(d, cur, ns.take(n as int));
            &&& d(ns[i] as int) >= d(cur) ==> best == cur
            &&& d(ns[i] as int) < d(cur) && i < n ==> best == ns[i]
            &&& d(ns[i] as int) < d(cur) && i >= n ==> d(best) > d(ns[i] as int)
        }),
    decreases n,
{
    if n > 0 {
        lemma_first_nearest(d, cur, ns, (n - 1) as nat, i);
        assert(ns.take(n as int).drop_last() =~= ns.take(n - 1));
        assert(ns.take(n as int).last() == ns[n - 1]);
        assert(d(ns[i] as int) <= d(ns[n - 1] as int));
        if n - 1 < i {
            assert(d(ns[i] as int) < d(ns[n - 1] as int));
        }
    }
}

} // verus!
