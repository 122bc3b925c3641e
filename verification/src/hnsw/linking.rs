//! How a new node is linked: to the nearest that a search finds on each layer,
//! and back from each of them.
use vstd::prelude::*;

use crate::distance::BVec;
use crate::draws::next_draw;
use crate::hnsw::exact::{lemma_first_are_nearest, lemma_ranked_holds};
use crate::hnsw::freeze::grown;
use crate::hnsw::graph::{
    all_linked_back, connected, descended, dists_from, graph_wf, ids_of, inserted, layer_of, linked,
    linked_back, links_on, measured, most_links, no_links, padded, Conns, Graph, Levels, Ranks,
};
use crate::hnsw::local::{listed, nothing_near_is_passed_over};
use crate::hnsw::ranked::{ranked_all, ranked_all_is_sorted};
use crate::hnsw::search::{
    advanced, beam, closed_under, greedy, greedy_ends_at_a_local_minimum, lemma_greedy_stays,
    met_all, run, settled, started, Beam, Dists, Links,
};
use crate::nearest::nearest;
use crate::types::RawData;

verus! {

/// The ids of hits, measured again, are the hits.
proof fn lemma_measured_back(ranks: Ranks, id: int, hits: Seq<(int, int)>)
    requires
        forall|i: int|
            0 <= i < hits.len() ==> 0 <= (#[trigger] hits[i]).1 <= u32::MAX && hits[i].0 == ranks(
                id,
                hits[i].1,
            ),
    ensures
        measured(ranks, id, ids_of(hits)) == hits,
{
    assert(measured(ranks, id, ids_of(hits)) =~= hits);
}

/// A node that gets one more link keeps the nearest of its links and the new
/// one, as many as it may have.
pub proof fn links_kept_are_the_nearest(
    ranks: Ranks,
    id: int,
    list: Seq<u32>,
    new: u32,
    most: nat,
)
    ensures
        nearest(
            measured(ranks, id, list.push(new)).to_multiset(),
            most,
            measured(ranks, id, linked(ranks, id, list, new, most)).to_multiset(),
        ),
{
    broadcast use vstd::seq_lib::group_to_multiset_ensures;

    let all = list.push(new);
    let ms = measured(ranks, id, all);
    let r = linked(ranks, id, list, new, most);
    if list.len() < most {
        assert(ms.to_multiset().sub(ms.to_multiset()) =~= vstd::multiset::Multiset::empty());
    } else {
        let sorted = ranked_all(ms);
        ranked_all_is_sorted(ms);
        lemma_first_are_nearest(sorted, most);
        let front = sorted.take(most as int);
        assert forall|i: int| 0 <= i < front.len() implies 0 <= (#[trigger] front[i]).1 <= u32::MAX
            && front[i].0 == ranks(id, front[i].1) by {
            assert(sorted.contains(sorted[i]));
            assert(sorted.to_multiset().contains(sorted[i]));
            assert(ms.contains(sorted[i]));
            let j = choose|j: int| 0 <= j < ms.len() && ms[j] == sorted[i];
            assert(ms[j] == (ranks(id, all[j] as int), all[j] as int));
        }
        lemma_measured_back(ranks, id, front);
        assert(measured(ranks, id, r) == front);
    }
}

/// Linking one node back touches that node on that layer only.
proof fn lemma_linked_back(
    conns: Conns,
    ranks: Ranks,
    id: int,
    layer: int,
    new: u32,
    most: nat,
    b: int,
    l: int,
)
    requires
        0 <= id < conns.len(),
        0 <= b < conns.len(),
        0 <= layer,
    ensures
        ({
            let after = linked_back(conns, ranks, id, layer, new, most);
            &&& after.len() == conns.len()
            &&& links_on(after, b, l) == if b == id && l == layer {
                linked(ranks, id, links_on(conns, id, layer), new, most)
            } else {
                links_on(conns, b, l)
            }
        }),
{
    let lists = padded(conns[id], (layer + 1) as nat);
    assert(lists[layer] == links_on(conns, id, layer)) by {
        if layer < conns[id].len() {
        } else {
            assert(lists[layer] =~= Seq::empty());
        }
    }
    let after = linked_back(conns, ranks, id, layer, new, most);
    if b == id && l != layer && 0 <= l < lists.len() && l >= conns[id].len() {
        assert(after[b][l] =~= Seq::empty());
    }
}

/// The nodes that a new one is linked to, and no others, are linked back to it,
/// on that layer only.
pub proof fn links_go_both_ways(
    conns: Conns,
    ranks: Ranks,
    chosen: Seq<u32>,
    layer: int,
    new: u32,
    most: nat,
    b: int,
    l: int,
)
    requires
        0 <= layer,
        0 <= b < conns.len(),
        chosen.no_duplicates(),
        forall|i: int| 0 <= i < chosen.len() ==> #[trigger] chosen[i] < conns.len(),
    ensures
        ({
            let after = all_linked_back(conns, ranks, chosen, layer, new, most);
            &&& after.len() == conns.len()
            &&& links_on(after, b, l) == if l == layer && (exists|i: int|
                0 <= i < chosen.len() && #[trigger] chosen[i] == b) {
                linked(ranks, b, links_on(conns, b, layer), new, most)
            } else {
                links_on(conns, b, l)
            }
        }),
    decreases chosen.len(),
{
    if chosen.len() > 0 {
        let init = chosen.drop_last();
        let id = chosen.last() as int;
        assert forall|i: int| 0 <= i < init.len() implies #[trigger] init[i] < conns.len() by {
            assert(init[i] == chosen[i]);
        }
        assert(init.no_duplicates());
        assert(chosen[chosen.len() - 1] < conns.len());
        links_go_both_ways(conns, ranks, init, layer, new, most, b, l);
        links_go_both_ways(conns, ranks, init, layer, new, most, id, layer);
        let mid = all_linked_back(conns, ranks, init, layer, new, most);
        lemma_linked_back(mid, ranks, id, layer, new, most, b, l);
        if exists|i: int| 0 <= i < init.len() && #[trigger] init[i] == b {
            let i = choose|i: int| 0 <= i < init.len() && #[trigger] init[i] == b;
            assert(chosen[i] == b);
            assert(chosen[i] != chosen[chosen.len() - 1]);
        }
        if b == id {
            assert(chosen[chosen.len() - 1] == b);
        } else if exists|i: int| 0 <= i < chosen.len() && #[trigger] chosen[i] == b {
            let i = choose|i: int| 0 <= i < chosen.len() && #[trigger] chosen[i] == b;
            assert(init[i] == b);
        }
    }
}

/// Whether a node is among those of a list.
pub open spec fn among(list: Seq<u32>, b: int) -> bool {
    exists|i: int| 0 <= i < list.len() && #[trigger] list[i] == b
}

/// The first `m` hits, all where there are fewer.
pub open spec fn first_of(hits: Seq<(int, int)>, m: nat) -> Seq<(int, int)> {
    if hits.len() <= m {
        hits
    } else {
        hits.take(m as int)
    }
}

/// Where a search on layer `l` begins: at `eps` on the highest layer, and at
/// what was found above on the others.
pub open spec fn begins_at(
    founds: Seq<Seq<(int, int)>>,
    eps: Seq<u32>,
    top: int,
    l: int,
) -> Seq<u32> {
    if l == top {
        eps
    } else {
        ids_of(founds[l + 1])
    }
}

/// Whether `founds` is what searches for a new node find, layer by layer.
pub open spec fn searched(
    founds: Seq<Seq<(int, int)>>,
    conns: Conns,
    d: Dists,
    eps: Seq<u32>,
    top: int,
    ef: nat,
) -> bool {
    &&& founds.len() == top + 1
    &&& forall|l: int|
        0 <= l <= top ==> #[trigger] founds[l] == beam(
            d,
            layer_of(conns, l),
            conns.len(),
            begins_at(founds, eps, top, l),
            ef,
        )
}

proof fn lemma_found_ids(found: Seq<(int, int)>, ranks: Ranks, new: int, n: nat, m: nat)
    requires
        listed(found, dists_from(ranks, new), n),
        n <= u32::MAX,
    ensures
        forall|i: int| 0 <= i < ids_of(found).len() ==> #[trigger] ids_of(found)[i] < n,
        ids_of(first_of(found, m)).no_duplicates(),
        forall|i: int|
            0 <= i < ids_of(first_of(found, m)).len() ==> #[trigger] ids_of(first_of(found, m))[i]
                < n,
        measured(ranks, new, ids_of(first_of(found, m))) == first_of(found, m),
        ids_of(first_of(found, m)) == if ids_of(found).len() <= m {
            ids_of(found)
        } else {
            ids_of(found).take(m as int)
        },
{
    let front = first_of(found, m);
    assert forall|i: int| 0 <= i < found.len() implies 0 <= (#[trigger] found[i]).1 < n
        && found[i].0 == ranks(new, found[i].1) by {
        assert(found.contains(found[i]));
    }
    assert forall|i: int, j: int| 0 <= i < front.len() && 0 <= j < front.len() && i != j implies
        ids_of(front)[i] != ids_of(front)[j] by {
        assert(front[i] == found[i] && front[j] == found[j]);
        assert(found[i] != found[j]);
        assert(found[i].0 == ranks(new, found[i].1) && found[j].0 == ranks(new, found[j].1));
    }
    assert forall|i: int| 0 <= i < front.len() implies 0 <= (#[trigger] front[i]).1 <= u32::MAX
        && front[i].0 == ranks(new, front[i].1) by {
        assert(front[i] == found[i]);
    }
    lemma_measured_back(ranks, new, front);
    assert(ids_of(front) =~= if ids_of(found).len() <= m {
        ids_of(found)
    } else {
        ids_of(found).take(m as int)
    });
}

/// What linking a new node on the layers from `layer` down leaves.
proof fn lemma_connected(
    conns: Conns,
    own: Seq<Seq<u32>>,
    ranks: Ranks,
    new: u32,
    eps: Seq<u32>,
    layer: int,
    m: nat,
    ef: nat,
) -> (founds: Seq<Seq<(int, int)>>)
    requires
        -1 <= layer < own.len(),
        new == conns.len(),
        forall|i: int| 0 <= i < eps.len() ==> #[trigger] eps[i] < conns.len(),
        forall|l: int|
            0 <= l <= layer ==> closed_under(#[trigger] layer_of(conns, l), conns.len()),
        ef > 0,
    ensures
        ({
            let (after, links) = connected(conns, own, ranks, new, eps, layer, m, ef);
            &&& searched(founds, conns, dists_from(ranks, new as int), eps, layer, ef)
            &&& after.len() == conns.len()
            &&& links.len() == own.len()
            &&& forall|l: int| layer < l < own.len() ==> #[trigger] links[l] == own[l]
            &&& forall|l: int|
                0 <= l <= layer ==> #[trigger] links[l] == ids_of(first_of(founds[l], m))
            &&& forall|l: int|
                0 <= l <= layer ==> listed(
                    #[trigger] founds[l],
                    dists_from(ranks, new as int),
                    conns.len(),
                )
            &&& forall|b: int, l: int|
                0 <= b < conns.len() ==> #[trigger] links_on(after, b, l) == if 0 <= l <= layer
                    && among(ids_of(first_of(founds[l], m)), b) {
                    linked(ranks, b, links_on(conns, b, l), new, most_links(m, l))
                } else {
                    links_on(conns, b, l)
                }
        }),
    decreases layer + 1,
{
    let d = dists_from(ranks, new as int);
    if layer < 0 {
        Seq::empty()
    } else {
        let found = beam(d, layer_of(conns, layer), conns.len(), eps, ef);
        assert(closed_under(layer_of(conns, layer), conns.len()));
        nothing_near_is_passed_over(d, layer_of(conns, layer), conns.len(), eps, ef);
        lemma_found_ids(found, ranks, new as int, conns.len(), m);
        let chosen = ids_of(first_of(found, m));
        let most = most_links(m, layer);
        let mid = all_linked_back(conns, ranks, chosen, layer, new, most);
        assert forall|b: int, l: int| 0 <= b < conns.len() implies #[trigger] links_on(mid, b, l)
            == if l == layer && among(chosen, b) {
            linked(ranks, b, links_on(conns, b, l), new, most)
        } else {
            links_on(conns, b, l)
        } by {
            links_go_both_ways(conns, ranks, chosen, layer, new, most, b, l);
        }
        lemma_back_len(conns, ranks, chosen, layer, new, most);
        assert forall|l: int| 0 <= l < layer implies closed_under(
            #[trigger] layer_of(mid, l),
            mid.len(),
        ) by {
            let before = layer_of(conns, l);
            let links = layer_of(mid, l);
            assert(closed_under(before, conns.len()));
            assert forall|id: int, i: int|
                0 <= id < mid.len() && 0 <= i < links(id).len() implies #[trigger] links(id)[i]
                < mid.len() by {
                assert(links(id) == links_on(mid, id, l));
                assert(before(id)[i] == links(id)[i]);
            }
        }
        let rest = lemma_connected(
            mid,
            own.update(layer, chosen),
            ranks,
            new,
            ids_of(found),
            layer - 1,
            m,
            ef,
        );
        let founds = rest.push(found);
        assert forall|l: int| 0 <= l <= layer implies #[trigger] founds[l] == beam(
            d,
            layer_of(conns, l),
            conns.len(),
            begins_at(founds, eps, layer, l),
            ef,
        ) by {
            if l < layer {
                assert(founds[l] == rest[l]);
                assert(begins_at(founds, eps, layer, l) == begins_at(
                    rest,
                    ids_of(found),
                    layer - 1,
                    l,
                ));
                let at = begins_at(founds, eps, layer, l);
                assert forall|i: int| 0 <= i < at.len() implies #[trigger] at[i] < conns.len() by {
                    if l < layer - 1 {
                        lemma_found_ids(rest[l + 1], ranks, new as int, conns.len(), m);
                    }
                }
                assert forall|id: int| 0 <= id < conns.len() implies #[trigger] links_on(
                    conns,
                    id,
                    l,
                ) == links_on(mid, id, l) by {
                    assert(links_on(mid, id, l) == links_on(conns, id, l));
                }
                assert(closed_under(layer_of(conns, l), conns.len()));
                lemma_same_beam(conns, mid, d, at, l, ef);
            }
        }
        assert forall|b: int, l: int| 0 <= b < conns.len() implies #[trigger] links_on(
            connected(conns, own, ranks, new, eps, layer, m, ef).0,
            b,
            l,
        ) == if 0 <= l <= layer && among(ids_of(first_of(founds[l], m)), b) {
            linked(ranks, b, links_on(conns, b, l), new, most_links(m, l))
        } else {
            links_on(conns, b, l)
        } by {
            assert(links_on(mid, b, l) == if l == layer && among(chosen, b) {
                linked(ranks, b, links_on(conns, b, l), new, most)
            } else {
                links_on(conns, b, l)
            });
            if 0 <= l < layer {
                assert(founds[l] == rest[l]);
            }
        }
        assert forall|l: int| 0 <= l <= layer implies #[trigger] connected(
            conns,
            own,
            ranks,
            new,
            eps,
            layer,
            m,
            ef,
        ).1[l] == ids_of(first_of(founds[l], m)) by {
            if l < layer {
                assert(founds[l] == rest[l]);
            }
        }
        assert forall|l: int| 0 <= l <= layer implies listed(
            #[trigger] founds[l],
            d,
            conns.len(),
        ) by {
            if l < layer {
                assert(founds[l] == rest[l]);
            }
        }
        founds
    }
}

proof fn lemma_back_len(
    conns: Conns,
    ranks: Ranks,
    chosen: Seq<u32>,
    layer: int,
    new: u32,
    most: nat,
)
    requires
        forall|i: int| 0 <= i < chosen.len() ==> #[trigger] chosen[i] < conns.len(),
    ensures
        all_linked_back(conns, ranks, chosen, layer, new, most).len() == conns.len(),
    decreases chosen.len(),
{
    if chosen.len() > 0 {
        let init = chosen.drop_last();
        assert forall|i: int| 0 <= i < init.len() implies #[trigger] init[i] < conns.len() by {
            assert(init[i] == chosen[i]);
        }
        assert(chosen[chosen.len() - 1] < conns.len());
        lemma_back_len(conns, ranks, init, layer, new, most);
    }
}

/// Whether the nodes still to look at are among `n`.
spec fn stays(b: Beam, n: nat) -> bool {
    forall|h: (int, int)| #[trigger] b.cands.contains(h) ==> 0 <= h.1 < n
}

proof fn lemma_met_stays(b: Beam, ef: nat, d: Dists, ns: Seq<u32>, n: nat)
    requires
        stays(b, n),
        forall|i: int| 0 <= i < ns.len() ==> #[trigger] ns[i] < n,
    ensures
        stays(met_all(b, ef, d, ns), n),
    decreases ns.len(),
{
    if ns.len() > 0 {
        let init = ns.drop_last();
        assert forall|i: int| 0 <= i < init.len() implies #[trigger] init[i] < n by {
            assert(init[i] == ns[i]);
        }
        lemma_met_stays(b, ef, d, init, n);
        let mid = met_all(b, ef, d, init);
        let id = ns.last() as int;
        assert(ns[ns.len() - 1] < n);
        lemma_ranked_holds(mid.cands, (d(id), id));
    }
}

proof fn lemma_same_run(b: Beam, ef: nat, d: Dists, one: Links, two: Links, n: nat, steps: nat)
    requires
        stays(b, n),
        closed_under(one, n),
        forall|id: int| 0 <= id < n ==> #[trigger] one(id) == two(id),
    ensures
        run(b, ef, d, one, steps) == run(b, ef, d, two, steps),
    decreases steps,
{
    if !(steps == 0 || settled(b, ef)) {
        let c = b.cands[0].1;
        assert(b.cands.contains(b.cands[0]));
        assert(one(c) == two(c));
        let b1 = Beam { cands: b.cands.remove(0), ..b };
        assert forall|h: (int, int)| #[trigger] b1.cands.contains(h) implies 0 <= h.1 < n by {
            let i = choose|i: int| 0 <= i < b1.cands.len() && b1.cands[i] == h;
            assert(b.cands[i + 1] == h);
            assert(b.cands.contains(h));
        }
        assert forall|i: int| 0 <= i < one(c).len() implies #[trigger] one(c)[i] < n by {}
        lemma_met_stays(b1, ef, d, one(c), n);
        lemma_same_run(advanced(b, ef, d, one), ef, d, one, two, n, (steps - 1) as nat);
    }
}

proof fn lemma_started_stays(d: Dists, eps: Seq<u32>, n: nat)
    requires
        forall|i: int| 0 <= i < eps.len() ==> #[trigger] eps[i] < n,
    ensures
        stays(started(d, eps), n),
    decreases eps.len(),
{
    if eps.len() > 0 {
        let init = eps.drop_last();
        assert forall|i: int| 0 <= i < init.len() implies #[trigger] init[i] < n by {
            assert(init[i] == eps[i]);
        }
        lemma_started_stays(d, init, n);
        let id = eps.last() as int;
        assert(eps[eps.len() - 1] < n);
        lemma_ranked_holds(started(d, init).cands, (d(id), id));
    }
}

/// A search goes by the links of its layer alone.
proof fn lemma_same_beam(a: Conns, b: Conns, d: Dists, eps: Seq<u32>, l: int, ef: nat)
    requires
        a.len() == b.len(),
        forall|i: int| 0 <= i < eps.len() ==> #[trigger] eps[i] < a.len(),
        closed_under(layer_of(a, l), a.len()),
        forall|id: int| 0 <= id < a.len() ==> #[trigger] links_on(a, id, l) == links_on(b, id, l),
    ensures
        beam(d, layer_of(a, l), a.len(), eps, ef) == beam(d, layer_of(b, l), a.len(), eps, ef),
{
    lemma_started_stays(d, eps, a.len());
    let one = layer_of(a, l);
    let two = layer_of(b, l);
    assert forall|id: int| 0 <= id < a.len() implies #[trigger] one(id) == two(id) by {
        assert(links_on(a, id, l) == links_on(b, id, l));
    }
    lemma_same_run(started(d, eps), ef, d, one, two, a.len(), a.len());
}

/// A walk down the layers of a graph being built goes through every one of
/// them: on each it ends no further away than it came in, at a node none of whose
/// links there is nearer.
pub proof fn walks_to_a_new_node_go_layer_by_layer(
    conns: Conns,
    d: Dists,
    ep: int,
    top: int,
    bottom: int,
) -> (stops: Seq<int>)
    requires
        0 <= ep < conns.len(),
        forall|id: int| #[trigger] d(id) >= 0,
        forall|l: int| #![auto] closed_under(layer_of(conns, l), conns.len()),
        bottom <= top + 1,
    ensures
        stops.len() == top - bottom + 2,
        stops[0] == ep,
        stops.last() == descended(conns, d, ep, top, bottom),
        0 <= descended(conns, d, ep, top, bottom) < conns.len(),
        forall|i: int|
            0 < i < stops.len() ==> {
                let layer = top + 1 - i;
                let end = #[trigger] stops[i];
                &&& 0 <= end < conns.len()
                &&& d(end) <= d(stops[i - 1])
                &&& forall|j: int|
                    0 <= j < links_on(conns, end, layer).len() ==> d(end) <= d(
                        #[trigger] links_on(conns, end, layer)[j] as int,
                    )
            },
    decreases top - bottom + 1,
{
    if top < bottom {
        seq![ep]
    } else {
        let links = layer_of(conns, top);
        let end = greedy(d, links, ep);
        assert(closed_under(links, conns.len()));
        lemma_greedy_stays(d, links, conns.len(), ep);
        greedy_ends_at_a_local_minimum(d, links, ep);
        let below = walks_to_a_new_node_go_layer_by_layer(conns, d, end, top - 1, bottom);
        let stops = seq![ep] + below;
        assert forall|i: int| 0 < i < stops.len() implies ({
            let layer = top + 1 - i;
            let end = #[trigger] stops[i];
            &&& 0 <= end < conns.len()
            &&& d(end) <= d(stops[i - 1])
            &&& forall|j: int|
                0 <= j < links_on(conns, end, layer).len() ==> d(end) <= d(
                    #[trigger] links_on(conns, end, layer)[j] as int,
                )
        }) by {
            assert(stops[i] == below[i - 1]);
            if i == 1 {
                assert(stops[1] == end);
                assert forall|j: int| 0 <= j < links_on(conns, end, top).len() implies d(end) <= d(
                    #[trigger] links_on(conns, end, top)[j] as int,
                ) by {
                    assert(links(end)[j] == links_on(conns, end, top)[j]);
                }
            } else {
                assert(stops[i - 1] == below[i - 2]);
            }
        }
        assert(stops.last() == below.last());
        stops
    }
}

proof fn lemma_layers_closed(g: Graph)
    requires
        graph_wf(g),
    ensures
        forall|l: int| #![auto] closed_under(layer_of(g.conns, l), g.conns.len()),
{
    assert forall|l: int| #![auto] closed_under(layer_of(g.conns, l), g.conns.len()) by {
        let links = layer_of(g.conns, l);
        assert forall|id: int, i: int|
            0 <= id < g.conns.len() && 0 <= i < links(id).len() implies #[trigger] links(id)[i]
            < g.conns.len() by {
            assert(g.conns[id][l][i] == links(id)[i]);
        }
    }
}

/// The first node of a graph is its entry, without links on any of its layers.
pub proof fn the_first_node_is_the_entry(
    g: Graph,
    vector: BVec,
    fraud: bool,
    ranks: Ranks,
    levels: Levels,
)
    requires
        graph_wf(g),
        g.vectors.len() == 0,
    ensures
        ({
            let after = inserted(g, vector, fraud, ranks, levels);
            let level = levels(next_draw(g.rng));
            &&& after.vectors == seq![vector]
            &&& after.labels == seq![fraud]
            &&& after.entry == 0
            &&& after.max_level == level
            &&& after.conns.len() == 1
            &&& after.conns[0].len() == level + 1
            &&& forall|l: int| links_on(after.conns, 0, l).len() == 0
        }),
{
    let after = inserted(g, vector, fraud, ranks, levels);
    assert(after.vectors =~= seq![vector]);
    assert(after.labels =~= seq![fraud]);
}

/// What a search for a new node starts at on its highest layer that others are
/// on: the end of the walk down to it.
pub open spec fn entered_at(g: Graph, ranks: Ranks, levels: Levels) -> Seq<u32> {
    let d = dists_from(ranks, g.vectors.len() as int);
    let level = levels(next_draw(g.rng));
    seq![descended(g.conns, d, g.entry as int, g.max_level as int, level as int + 1) as u32]
}

/// How a new node joins a graph that has others. It is on the layers up to its
/// level, and becomes the entry where that is above all others. On each layer
/// that others are on a search finds some of them, from the end of the walk down
/// or from what was found above; the new node is linked to the nearest of these,
/// as many as it may. Each of them is linked back, and keeps the nearest of its
/// links where it has too many. Nothing else changes.
pub proof fn new_nodes_are_linked_to_the_nearest_found(
    g: Graph,
    vector: BVec,
    fraud: bool,
    ranks: Ranks,
    levels: Levels,
) -> (founds: Seq<Seq<(int, int)>>)
    requires
        graph_wf(g),
        0 < g.vectors.len() < u32::MAX,
        g.ef_con > 0,
        forall|a: int, b: int| #[trigger] ranks(a, b) >= 0,
    ensures
        ({
            let after = inserted(g, vector, fraud, ranks, levels);
            let n = g.vectors.len() as int;
            let level = levels(next_draw(g.rng));
            let top = if level <= g.max_level {
                level as int
            } else {
                g.max_level as int
            };
            &&& after.vectors == g.vectors.push(vector)
            &&& after.labels == g.labels.push(fraud)
            &&& after.conns.len() == n + 1
            &&& after.conns[n].len() == level + 1
            &&& level > g.max_level ==> after.entry == n && after.max_level == level
            &&& level <= g.max_level ==> after.entry == g.entry && after.max_level == g.max_level
            &&& searched(
                founds,
                g.conns,
                dists_from(ranks, n),
                entered_at(g, ranks, levels),
                top,
                g.ef_con,
            )
            &&& forall|l: int|
                0 <= l <= top ==> #[trigger] nearest(
                    founds[l].to_multiset(),
                    g.m,
                    measured(ranks, n, links_on(after.conns, n, l)).to_multiset(),
                )
            &&& forall|l: int| l > top ==> (#[trigger] links_on(after.conns, n, l)).len() == 0
            &&& forall|b: int, l: int|
                #![trigger links_on(after.conns, b, l)]
                0 <= b < n && l <= top && among(links_on(after.conns, n, l), b) ==> nearest(
                    measured(ranks, b, links_on(g.conns, b, l).push(n as u32)).to_multiset(),
                    if l == 0 {
                        2 * g.m
                    } else {
                        g.m
                    },
                    measured(ranks, b, links_on(after.conns, b, l)).to_multiset(),
                )
            &&& forall|b: int, l: int|
                0 <= b < n && !among(links_on(after.conns, n, l), b) ==> #[trigger] links_on(
                    after.conns,
                    b,
                    l,
                ) == links_on(g.conns, b, l)
        }),
{
    let after = inserted(g, vector, fraud, ranks, levels);
    let n = g.vectors.len() as int;
    let new = n as u32;
    let level = levels(next_draw(g.rng));
    let top = if level <= g.max_level {
        level as int
    } else {
        g.max_level as int
    };
    let d = dists_from(ranks, n);
    let own = no_links(level + 1);
    lemma_layers_closed(g);
    assert forall|id: int| #[trigger] d(id) >= 0 by {
        assert(ranks(n, id) >= 0);
    }
    let eps = entered_at(g, ranks, levels);
    if level as int + 1 <= g.max_level + 1 {
        let stops = walks_to_a_new_node_go_layer_by_layer(
            g.conns,
            d,
            g.entry as int,
            g.max_level as int,
            level as int + 1,
        );
    }
    assert(eps[0] < g.conns.len());
    assert forall|l: int| 0 <= l <= top implies closed_under(
        #[trigger] layer_of(g.conns, l),
        g.conns.len(),
    ) by {}
    let founds = lemma_connected(g.conns, own, ranks, new, eps, top, g.m, g.ef_con);
    let (conns, links) = connected(g.conns, own, ranks, new, eps, top, g.m, g.ef_con);
    assert(after.conns == conns.push(links));
    assert forall|l: int| 0 <= l <= top implies #[trigger] nearest(
        founds[l].to_multiset(),
        g.m,
        measured(ranks, n, links_on(after.conns, n, l)).to_multiset(),
    ) by {
        assert(links_on(after.conns, n, l) == links[l]);
        assert(listed(founds[l], d, g.conns.len()));
        lemma_found_ids(founds[l], ranks, n, g.conns.len(), g.m);
        lemma_first_are_nearest(founds[l], g.m);
    }
    assert forall|l: int| l > top implies (#[trigger] links_on(after.conns, n, l)).len() == 0 by {
        if l < links.len() {
            assert(links[l] == own[l]);
        }
    }
    assert forall|b: int, l: int|
        #![trigger links_on(after.conns, b, l)]
        0 <= b < n && l <= top && among(links_on(after.conns, n, l), b) implies nearest(
        measured(ranks, b, links_on(g.conns, b, l).push(n as u32)).to_multiset(),
        if l == 0 {
            2 * g.m
        } else {
            g.m
        },
        measured(ranks, b, links_on(after.conns, b, l)).to_multiset(),
    ) by {
        assert(l >= 0);
        assert(links_on(after.conns, n, l) == links[l]);
        assert(links_on(after.conns, b, l) == links_on(conns, b, l));
        links_kept_are_the_nearest(ranks, b, links_on(g.conns, b, l), new, most_links(g.m, l));
    }
    assert forall|b: int, l: int|
        0 <= b < n && !among(links_on(after.conns, n, l), b) implies #[trigger] links_on(
        after.conns,
        b,
        l,
    ) == links_on(g.conns, b, l) by {
        assert(links_on(after.conns, b, l) == links_on(conns, b, l));
        if 0 <= l <= top {
            assert(links_on(after.conns, n, l) == links[l]);
        }
    }
    founds
}

/// The graph of records has their vectors and labels, in their order.
pub proof fn graphs_hold_the_records(
    data: Seq<RawData<BVec>>,
    n: nat,
    m: nat,
    ef_con: nat,
    ranks: Ranks,
    levels: Levels,
)
    requires
        n <= data.len(),
    ensures
        ({
            let g = grown(data, n, m, ef_con, ranks, levels);
            &&& g.vectors == data.take(n as int).map_values(|r: RawData<BVec>| r.vector)
            &&& g.labels == data.take(n as int).map_values(
                |r: RawData<BVec>| r.label@ == "fraud"@,
            )
            &&& g.m == m
            &&& g.ef_con == ef_con
            &&& n == 0 ==> g.rng == 0x6c62_272e_07bb_0142
            &&& n > 0 ==> g.rng == next_draw(
                grown(data, (n - 1) as nat, m, ef_con, ranks, levels).rng,
            )
        }),
    decreases n,
{
    let g = grown(data, n, m, ef_con, ranks, levels);
    let vs = data.take(n as int).map_values(|r: RawData<BVec>| r.vector);
    let ls = data.take(n as int).map_values(|r: RawData<BVec>| r.label@ == "fraud"@);
    if n > 0 {
        graphs_hold_the_records(data, (n - 1) as nat, m, ef_con, ranks, levels);
        let before = data.take(n - 1);
        assert(vs =~= before.map_values(|r: RawData<BVec>| r.vector).push(data[n - 1].vector));
        assert(ls =~= before.map_values(|r: RawData<BVec>| r.label@ == "fraud"@).push(
            data[n - 1].label@ == "fraud"@,
        ));
    } else {
        assert(g.vectors =~= vs);
        assert(g.labels =~= ls);
    }
}

} // verus!
