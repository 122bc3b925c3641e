//! Searching one layer of a graph for the nodes nearest to a query.
use vstd::prelude::*;
use vstd::set_lib::{lemma_int_range, lemma_len_subset, set_int_range};

use crate::hnsw::ranked::{ranked_in, Ranked};
use crate::hnsw::visited::Met;

verus! {

/// How far each node is from the query.
pub type Dists = spec_fn(int) -> int;

/// Where each node is linked to.
pub type Links = spec_fn(int) -> Seq<u32>;

/// Whether the links of `n` nodes stay among them.
pub open spec fn closed_under(links: Links, n: nat) -> bool {
    forall|id: int, i: int| 0 <= id < n && 0 <= i < links(id).len() ==> #[trigger] links(id)[i] < n
}

/// A layer of a graph as a query sees it.
pub trait Layer {
    /// How many nodes there are.
    spec fn size(&self) -> nat;

    /// How far the nodes are from the query.
    spec fn dists(&self) -> Dists;

    /// How the nodes are linked.
    spec fn links(&self) -> Links;

    /// Whether the layer can be searched.
    spec fn wf(&self) -> bool;

    /// The distance of a node.
    fn dist(&self, id: u32) -> (d: u32)
        requires
            self.wf(),
            id < self.size(),
        ensures
            d == self.dists()(id as int),
    ;

    /// The nodes that a node is linked to.
    fn neighbours(&self, id: u32) -> (ns: &[u32])
        requires
            self.wf(),
            id < self.size(),
        ensures
            ns@ == self.links()(id as int),
    ;
}

/// The nearest of a node and its links, the earlier one where they tie.
pub open spec fn nearest_of(d: Dists, cur: int, ns: Seq<u32>) -> int
    decreases ns.len(),
{
    if ns.len() == 0 {
        cur
    } else {
        let best = nearest_of(d, cur, ns.drop_last());
        if d(ns.last() as int) < d(best) {
            ns.last() as int
        } else {
            best
        }
    }
}

/// Where a walk ends that always goes on to the nearest link, as long as that
/// is an improvement.
pub open spec fn greedy(d: Dists, links: Links, cur: int) -> int
    decreases d(cur),
{
    let next = nearest_of(d, cur, links(cur));
    if 0 <= d(next) < d(cur) {
        greedy(d, links, next)
    } else {
        cur
    }
}

proof fn lemma_nearest_of(d: Dists, cur: int, ns: Seq<u32>)
    ensures
        d(nearest_of(d, cur, ns)) <= d(cur),
        forall|i: int| 0 <= i < ns.len() ==> d(nearest_of(d, cur, ns)) <= d(#[trigger] ns[i] as int),
        nearest_of(d, cur, ns) == cur || exists|i: int|
            0 <= i < ns.len() && nearest_of(d, cur, ns) == #[trigger] ns[i],
        d(nearest_of(d, cur, ns)) == d(cur) ==> nearest_of(d, cur, ns) == cur,
    decreases ns.len(),
{
    if ns.len() > 0 {
        let init = ns.drop_last();
        lemma_nearest_of(d, cur, init);
        assert forall|i: int| 0 <= i < ns.len() implies d(nearest_of(d, cur, ns)) <= d(
            #[trigger] ns[i] as int,
        ) by {
            if i < init.len() {
                assert(init[i] == ns[i]);
            }
        }
        let best = nearest_of(d, cur, init);
        if best != cur {
            let i = choose|i: int| 0 <= i < init.len() && best == #[trigger] init[i];
            assert(ns[i] == init[i]);
        }
    }
}

/// A greedy walk ends no further away than it started, at a node none of whose
/// links is nearer.
pub proof fn greedy_ends_at_a_local_minimum(d: Dists, links: Links, cur: int)
    requires
        forall|id: int| #[trigger] d(id) >= 0,
    ensures
        d(greedy(d, links, cur)) <= d(cur),
        forall|i: int|
            0 <= i < links(greedy(d, links, cur)).len() ==> d(greedy(d, links, cur)) <= d(
                #[trigger] links(greedy(d, links, cur))[i] as int,
            ),
    decreases d(cur),
{
    let next = nearest_of(d, cur, links(cur));
    lemma_nearest_of(d, cur, links(cur));
    if d(next) < d(cur) {
        greedy_ends_at_a_local_minimum(d, links, next);
    }
}

/// A greedy walk stays among the nodes.
pub proof fn lemma_greedy_stays(d: Dists, links: Links, n: nat, cur: int)
    requires
        closed_under(links, n),
        0 <= cur < n,
    ensures
        0 <= greedy(d, links, cur) < n,
    decreases d(cur),
{
    let next = nearest_of(d, cur, links(cur));
    lemma_nearest_of(d, cur, links(cur));
    if 0 <= d(next) < d(cur) {
        assert(0 <= next < n) by {
            let i = choose|i: int| 0 <= i < links(cur).len() && next == #[trigger] links(cur)[i];
            assert(links(cur)[i] < n);
        }
        lemma_greedy_stays(d, links, n, next);
    }
}

/// Walks greedily from a node.
pub fn greedy_single<L: Layer>(layer: &L, start: u32) -> (end: u32)
    requires
        layer.wf(),
        closed_under(layer.links(), layer.size()),
        start < layer.size(),
    ensures
        end == greedy(layer.dists(), layer.links(), start as int),
        end < layer.size(),
{
    let ghost d = layer.dists();
    let ghost links = layer.links();
    let mut cur: u32 = start;
    let mut cur_d: u32 = layer.dist(cur);
    loop
        invariant
            layer.wf(),
            closed_under(links, layer.size()),
            d == layer.dists(),
            links == layer.links(),
            cur < layer.size(),
            cur_d == d(cur as int),
            greedy(d, links, start as int) == greedy(d, links, cur as int),
        decreases cur_d,
    {
        let ns = layer.neighbours(cur);
        let mut best: u32 = cur;
        let mut best_d: u32 = cur_d;
        let mut i: usize = 0;
        assert(ns@.take(0) =~= Seq::empty());
        while i < ns.len()
            invariant
                layer.wf(),
                closed_under(links, layer.size()),
                d == layer.dists(),
                links == layer.links(),
                ns@ == links(cur as int),
                cur < layer.size(),
                i <= ns@.len(),
                best < layer.size(),
                best == nearest_of(d, cur as int, ns@.take(i as int)),
                best_d == d(best as int),
                best_d <= cur_d,
                best_d < cur_d || best == cur,
            decreases ns@.len() - i,
        {
            assert(links(cur as int)[i as int] < layer.size());
            let nb = ns[i];
            let nd = layer.dist(nb);
            assert(ns@.take(i + 1).drop_last() =~= ns@.take(i as int));
            if nd < best_d {
                best = nb;
                best_d = nd;
            }
            i = i + 1;
        }
        assert(ns@.take(ns@.len() as int) =~= ns@);
        if best_d >= cur_d {
            return cur;
        }
        cur = best;
        cur_d = best_d;
    }
}

/// A search under way: the nodes still to look at, the nearest found, and all
/// that were met, the first two in order.
pub struct Beam {
    pub cands: Seq<(int, int)>,
    pub results: Seq<(int, int)>,
    pub seen: Set<int>,
}

/// Whether a node at that distance is among the `ef` nearest found.
pub open spec fn gets_in(results: Seq<(int, int)>, ef: nat, dist: int) -> bool {
    results.len() < ef || results.len() == 0 || dist < results.last().0
}

/// The nearest found with one more, and the last dropped where there are too
/// many.
pub open spec fn joined(results: Seq<(int, int)>, ef: nat, h: (int, int)) -> Seq<(int, int)> {
    let more = ranked_in(results, h);
    if more.len() > ef {
        more.drop_last()
    } else {
        more
    }
}

/// The search after a node was met.
pub open spec fn met(b: Beam, ef: nat, d: Dists, id: int) -> Beam {
    if b.seen.contains(id) {
        b
    } else if gets_in(b.results, ef, d(id)) {
        Beam {
            cands: ranked_in(b.cands, (d(id), id)),
            results: joined(b.results, ef, (d(id), id)),
            seen: b.seen.insert(id),
        }
    } else {
        Beam { seen: b.seen.insert(id), ..b }
    }
}

/// The search after several nodes were met.
pub open spec fn met_all(b: Beam, ef: nat, d: Dists, ns: Seq<u32>) -> Beam
    decreases ns.len(),
{
    if ns.len() == 0 {
        b
    } else {
        met(met_all(b, ef, d, ns.drop_last()), ef, d, ns.last() as int)
    }
}

/// Whether the search is over: nothing is left to look at, or only nodes
/// further away than all of enough results.
pub open spec fn settled(b: Beam, ef: nat) -> bool {
    ||| b.cands.len() == 0
    ||| (b.results.len() > 0 && b.results.len() >= ef && b.cands[0].0 > b.results.last().0)
}

/// The search after the links of its first candidate were met.
pub open spec fn advanced(b: Beam, ef: nat, d: Dists, links: Links) -> Beam {
    met_all(Beam { cands: b.cands.remove(0), ..b }, ef, d, links(b.cands[0].1))
}

/// The search after it ran to its end, or for so many steps.
pub open spec fn run(b: Beam, ef: nat, d: Dists, links: Links, steps: nat) -> Beam
    decreases steps,
{
    if steps == 0 || settled(b, ef) {
        b
    } else {
        run(advanced(b, ef, d, links), ef, d, links, (steps - 1) as nat)
    }
}

/// A search that starts at these nodes.
pub open spec fn started(d: Dists, eps: Seq<u32>) -> Beam
    decreases eps.len(),
{
    if eps.len() == 0 {
        Beam { cands: Seq::empty(), results: Seq::empty(), seen: Set::empty() }
    } else {
        let b = started(d, eps.drop_last());
        let id = eps.last() as int;
        if b.seen.contains(id) {
            b
        } else {
            Beam {
                cands: ranked_in(b.cands, (d(id), id)),
                results: ranked_in(b.results, (d(id), id)),
                seen: b.seen.insert(id),
            }
        }
    }
}

/// What a search from these nodes finds among `n`. Each node is looked at once
/// at most, so `n` steps take it to its end.
pub open spec fn beam(d: Dists, links: Links, n: nat, eps: Seq<u32>, ef: nat) -> Seq<(int, int)> {
    run(started(d, eps), ef, d, links, n).results
}

/// Whether what was met lies among `n` nodes, and what is still to look at can
/// be done in `steps`.
spec fn within(b: Beam, d: Dists, n: nat, steps: int) -> bool {
    &&& b.seen.finite()
    &&& b.seen.subset_of(set_int_range(0, n as int))
    &&& b.cands.len() + n <= steps + b.seen.len()
    &&& forall|i: int|
        0 <= i < b.cands.len() ==> 0 <= (#[trigger] b.cands[i]).1 < n && b.cands[i].0 == d(
            b.cands[i].1,
        )
    &&& forall|i: int| 0 <= i < b.results.len() ==> 0 <= (#[trigger] b.results[i]).1 < n
}

proof fn lemma_ranked_within(s: Seq<(int, int)>, d: Dists, n: nat, id: int)
    requires
        0 <= id < n,
    ensures
        ranked_in(s, (d(id), id)).len() == s.len() + 1,
        (forall|i: int| 0 <= i < s.len() ==> 0 <= (#[trigger] s[i]).1 < n && s[i].0 == d(s[i].1))
            ==> (forall|i: int|
            0 <= i < ranked_in(s, (d(id), id)).len() ==> 0 <= (#[trigger] ranked_in(
                s,
                (d(id), id),
            )[i]).1 < n && ranked_in(s, (d(id), id))[i].0 == d(ranked_in(s, (d(id), id))[i].1)),
        (forall|i: int| 0 <= i < s.len() ==> 0 <= (#[trigger] s[i]).1 < n) ==> (forall|i: int|
            0 <= i < ranked_in(s, (d(id), id)).len() ==> 0 <= (#[trigger] ranked_in(
                s,
                (d(id), id),
            )[i]).1 < n),
{
    crate::hnsw::ranked::lemma_place(s, (d(id), id));
    let p = crate::hnsw::ranked::place(s, (d(id), id));
    let t = ranked_in(s, (d(id), id));
    assert(forall|i: int| 0 <= i < p ==> #[trigger] t[i] == s[i]);
    assert(forall|i: int| p < i < t.len() ==> #[trigger] t[i] == s[i - 1]);
}

proof fn lemma_met_within(b: Beam, ef: nat, d: Dists, id: int, n: nat, steps: int)
    requires
        within(b, d, n, steps),
        0 <= id < n,
    ensures
        within(met(b, ef, d, id), d, n, steps),
{
    lemma_ranked_within(b.cands, d, n, id);
    lemma_ranked_within(b.results, d, n, id);
}

proof fn lemma_start_within(b: Beam, d: Dists, id: int, n: nat)
    requires
        within(b, d, n, n as int),
        0 <= id < n,
    ensures
        !b.seen.contains(id) ==> within(
            Beam {
                cands: ranked_in(b.cands, (d(id), id)),
                results: ranked_in(b.results, (d(id), id)),
                seen: b.seen.insert(id),
            },
            d,
            n,
            n as int,
        ),
{
    lemma_ranked_within(b.cands, d, n, id);
    lemma_ranked_within(b.results, d, n, id);
}

/// Searches a layer from several nodes for the `ef` nearest to the query.
pub fn beam_search<L: Layer, V: Met>(
    layer: &L,
    eps: &[u32],
    ef: usize,
    visited: &mut V,
) -> (found: Ranked)
    requires
        layer.wf(),
        closed_under(layer.links(), layer.size()),
        forall|i: int| 0 <= i < eps@.len() ==> #[trigger] eps@[i] < layer.size(),
        old(visited).takes(layer.size()),
    ensures
        forall|n: nat| #[trigger] old(visited).takes(n) ==> final(visited).takes(n),
        found@ == beam(layer.dists(), layer.links(), layer.size(), eps@, ef as nat),
        forall|i: int| 0 <= i < found@.len() ==> 0 <= (#[trigger] found@[i]).1 < layer.size(),
{
    let ghost d = layer.dists();
    let ghost links = layer.links();
    let ghost n = layer.size();
    let ghost e = ef as nat;
    proof {
        visited.takes_fewer(n, 0);
    }
    visited.start_over();
    let mut cands = Ranked::new();
    let mut results = Ranked::new();
    let mut i: usize = 0;
    proof {
        assert(eps@.take(0) =~= Seq::empty());
        assert(visited.met() =~= Set::empty());
    }
    while i < eps.len()
        invariant
            layer.wf(),
            d == layer.dists(),
            n == layer.size(),
            forall|j: int| 0 <= j < eps@.len() ==> #[trigger] eps@[j] < n,
            i <= eps@.len(),
            visited.takes(n),
            forall|k: nat| #[trigger] old(visited).takes(k) ==> visited.takes(k),
            (Beam { cands: cands@, results: results@, seen: visited.met() }) == started(
                d,
                eps@.take(i as int),
            ),
            within(Beam { cands: cands@, results: results@, seen: visited.met() }, d, n, n as int),
        decreases eps@.len() - i,
    {
        let ep = eps[i];
        assert(eps@.take(i + 1).drop_last() =~= eps@.take(i as int));
        proof {
            lemma_start_within(
                Beam { cands: cands@, results: results@, seen: visited.met() },
                d,
                ep as int,
                n,
            );
        }
        let ghost seen = visited.met();
        proof {
            visited.takes_fewer(n, ep as nat + 1);
        }
        if visited.meet(ep) {
            let dist = layer.dist(ep);
            cands.put(dist, ep);
            results.put(dist, ep);
        } else {
            assert(visited.met() =~= seen);
        }
        i = i + 1;
    }
    assert(eps@.take(eps@.len() as int) =~= eps@);
    let ghost mut steps: nat = n;
    let ghost goal = run(started(d, eps@), e, d, links, n);
    loop
        invariant
            layer.wf(),
            closed_under(links, n),
            d == layer.dists(),
            links == layer.links(),
            n == layer.size(),
            e == ef,
            visited.takes(n),
            forall|k: nat| #[trigger] old(visited).takes(k) ==> visited.takes(k),
            goal == run(started(d, eps@), e, d, links, n),
            goal == run(
                Beam { cands: cands@, results: results@, seen: visited.met() },
                e,
                d,
                links,
                steps,
            ),
            within(
                Beam { cands: cands@, results: results@, seen: visited.met() },
                d,
                n,
                steps as int,
            ),
        decreases steps,
    {
        let ghost b0 = Beam { cands: cands@, results: results@, seen: visited.met() };
        if cands.len() == 0 {
            return results;
        }
        proof {
            lemma_int_range(0, n as int);
            lemma_len_subset(visited.met(), set_int_range(0, n as int));
        }
        let have: usize = results.len();
        let first = cands.items[0].0;
        assert(cands@[0].0 == first);
        if have > 0 && have >= ef {
            assert(results@.last().0 == results.items@[have - 1].0);
            if first > results.items[have - 1].0 {
                return results;
            }
        }
        assert(!settled(b0, e));
        let (_, c) = cands.pop_first();
        assert(b0.cands[0].1 == c);
        let ghost b1 = Beam { cands: b0.cands.remove(0), ..b0 };
        let ghost left = (steps - 1) as nat;
        let ns = layer.neighbours(c);
        let mut j: usize = 0;
        proof {
            assert(ns@.take(0) =~= Seq::empty());
            assert(forall|i: int|
                0 <= i < b1.cands.len() ==> #[trigger] b1.cands[i] == b0.cands[i + 1]);
        }
        while j < ns.len()
            invariant
                layer.wf(),
                closed_under(links, n),
                d == layer.dists(),
                links == layer.links(),
                n == layer.size(),
                e == ef,
                c < n,
                ns@ == links(c as int),
                j <= ns@.len(),
                visited.takes(n),
                forall|k: nat| #[trigger] old(visited).takes(k) ==> visited.takes(k),
                (Beam { cands: cands@, results: results@, seen: visited.met() }) == met_all(
                    b1,
                    e,
                    d,
                    ns@.take(j as int),
                ),
                within(
                    Beam { cands: cands@, results: results@, seen: visited.met() },
                    d,
                    n,
                    left as int,
                ),
            decreases ns@.len() - j,
        {
            assert(links(c as int)[j as int] < n);
            let nb = ns[j];
            assert(ns@.take(j + 1).drop_last() =~= ns@.take(j as int));
            let ghost b2 = Beam { cands: cands@, results: results@, seen: visited.met() };
            proof {
                lemma_met_within(b2, e, d, nb as int, n, left as int);
            }
            proof {
                visited.takes_fewer(n, nb as nat + 1);
            }
            if visited.meet(nb) {
                let nd = layer.dist(nb);
                let size: usize = results.len();
                let near: bool = if size < ef || size == 0 {
                    true
                } else {
                    assert(results@.last().0 == results.items@[size - 1].0);
                    nd < results.items[size - 1].0
                };
                if near {
                    cands.put(nd, nb);
                    results.put(nd, nb);
                    proof {
                        lemma_ranked_within(b2.results, d, n, nb as int);
                    }
                    if results.len() > ef {
                        results.pop_last();
                    }
                }
            } else {
                assert(visited.met() =~= b2.seen);
            }
            j = j + 1;
        }
        assert(ns@.take(ns@.len() as int) =~= ns@);
        proof {
            steps = left;
        }
    }
}

} // verus!
