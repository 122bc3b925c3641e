//! What it means to pick the nearest of a collection of hits.
//!
//! A hit is a pair: how far a candidate is from the query, and a tag that
//! travels with it (a label or an id). Distances may tie, so several
//! selections can be nearest; they all hold the same distances.
use vstd::multiset::Multiset;
use vstd::prelude::*;

verus! {

/// The smaller of two lengths.
pub open spec fn least(a: nat, b: nat) -> nat {
    if a <= b {
        a
    } else {
        b
    }
}

/// `chosen` holds as many hits of `all` as there are, up to `cap`, and no hit
/// that it leaves out is closer than one that it holds.
pub open spec fn nearest(
    all: Multiset<(int, int)>,
    cap: nat,
    chosen: Multiset<(int, int)>,
) -> bool {
    &&& chosen.subset_of(all)
    &&& chosen.len() == least(cap, all.len())
    &&& forall|c: (int, int), o: (int, int)|
        #![trigger chosen.contains(c), all.sub(chosen).contains(o)]
        chosen.contains(c) && all.sub(chosen).contains(o) ==> c.0 <= o.0
}

/// How many of the hits carry a tag other than zero.
pub open spec fn flagged(hits: Multiset<(int, int)>) -> nat {
    hits.filter(|h: (int, int)| h.1 != 0).len()
}

/// Nothing is the nearest of nothing.
pub proof fn lemma_nearest_of_none(cap: nat)
    ensures
        nearest(Multiset::empty(), cap, Multiset::empty()),
{
}

/// While there is room, a new hit is simply kept.
pub proof fn lemma_nearest_keep(
    all: Multiset<(int, int)>,
    cap: nat,
    chosen: Multiset<(int, int)>,
    hit: (int, int),
)
    requires
        nearest(all, cap, chosen),
        chosen.len() < cap,
    ensures
        nearest(all.insert(hit), cap, chosen.insert(hit)),
        all == chosen,
{
    lemma_not_full_is_all(all, cap, chosen);
    assert(all.insert(hit).sub(chosen.insert(hit)) =~= Multiset::empty());
}

/// A selection with room left holds every hit.
pub proof fn lemma_not_full_is_all(
    all: Multiset<(int, int)>,
    cap: nat,
    chosen: Multiset<(int, int)>,
)
    requires
        nearest(all, cap, chosen),
        chosen.len() < cap,
    ensures
        all == chosen,
{
    assert(all.sub(chosen).len() == 0);
    assert(all.sub(chosen) =~= Multiset::empty());
    assert forall|h: (int, int)| all.count(h) == chosen.count(h) by {
        assert(all.sub(chosen).count(h) == 0);
        assert(chosen.count(h) <= all.count(h));
    }
    assert(all =~= chosen);
}

/// Once full, hits that are no closer than anything chosen are passed over.
pub proof fn lemma_nearest_skip(
    all: Multiset<(int, int)>,
    cap: nat,
    chosen: Multiset<(int, int)>,
    more: Multiset<(int, int)>,
)
    requires
        nearest(all, cap, chosen),
        chosen.len() == cap,
        forall|c: (int, int), o: (int, int)|
            #![trigger chosen.contains(c), more.contains(o)]
            chosen.contains(c) && more.contains(o) ==> c.0 <= o.0,
    ensures
        nearest(all.add(more), cap, chosen),
{
    assert(all.add(more).sub(chosen) =~= all.sub(chosen).add(more));
    assert forall|c: (int, int), o: (int, int)|
        #![trigger chosen.contains(c), all.add(more).sub(chosen).contains(o)]
        chosen.contains(c) && all.add(more).sub(chosen).contains(o) implies c.0 <= o.0 by {
        if !all.sub(chosen).contains(o) {
            assert(more.contains(o));
        }
    }
}

/// Once full, a hit that is closer than a furthest chosen one takes its place.
pub proof fn lemma_nearest_replace(
    all: Multiset<(int, int)>,
    cap: nat,
    chosen: Multiset<(int, int)>,
    worst: (int, int),
    hit: (int, int),
)
    requires
        nearest(all, cap, chosen),
        chosen.len() == cap,
        chosen.contains(worst),
        forall|c: (int, int)| #[trigger] chosen.contains(c) ==> c.0 <= worst.0,
        hit.0 <= worst.0,
    ensures
        nearest(all.insert(hit), cap, chosen.remove(worst).insert(hit)),
{
    let all2 = all.insert(hit);
    let chosen2 = chosen.remove(worst).insert(hit);
    assert(all2.sub(chosen2) =~= all.sub(chosen).insert(worst));
    assert forall|c: (int, int), o: (int, int)|
        #![trigger chosen2.contains(c), all2.sub(chosen2).contains(o)]
        chosen2.contains(c) && all2.sub(chosen2).contains(o) implies c.0 <= o.0 by {
        assert(all.sub(chosen).contains(o) || o == worst);
        assert(chosen.contains(c) || c == hit);
        if o != worst {
            assert(worst.0 <= o.0);
        }
    }
}

/// When every hit left out is strictly further than every chosen one, the
/// nearest selection is the only one.
pub proof fn nearest_is_unique_without_ties(
    all: Multiset<(int, int)>,
    cap: nat,
    a: Multiset<(int, int)>,
    b: Multiset<(int, int)>,
)
    requires
        nearest(all, cap, a),
        nearest(all, cap, b),
        forall|c: (int, int), o: (int, int)|
            #![trigger a.contains(c), all.sub(a).contains(o)]
            a.contains(c) && all.sub(a).contains(o) ==> c.0 < o.0,
    ensures
        a == b,
{
    if !a.subset_of(b) {
        let y = choose|y: (int, int)| a.count(y) > b.count(y);
        if b.subset_of(a) {
            assert(a.sub(b).len() == 0);
            assert(a.sub(b).count(y) > 0);
        }
        let x = choose|x: (int, int)| b.count(x) > a.count(x);
        assert(a.contains(y));
        assert(all.sub(a).contains(x));
        assert(b.contains(x));
        assert(all.sub(b).contains(y));
    } else {
        assert(b.sub(a).len() == 0);
        assert forall|h: (int, int)| a.count(h) == b.count(h) by {
            assert(b.sub(a).count(h) == 0);
        }
        assert(a =~= b);
    }
}

/// What is mapped item by item does not depend on the order of the items.
pub proof fn lemma_mapped_permuted<A, B>(a: Seq<A>, b: Seq<A>, f: spec_fn(A) -> B)
    requires
        a.to_multiset() == b.to_multiset(),
    ensures
        a.map_values(f).to_multiset() == b.map_values(f).to_multiset(),
    decreases a.len(),
{
    broadcast use vstd::seq_lib::group_to_multiset_ensures;

    assert(a.to_multiset().len() == a.len());
    assert(b.to_multiset().len() == b.len());
    if a.len() == 0 {
        assert(a =~= b);
    } else {
        let e = a.last();
        assert(a.contains(e));
        assert(b.to_multiset().count(e) > 0);
        let j = choose|j: int| 0 <= j < b.len() && b[j] == e;
        assert(a.drop_last() =~= a.remove(a.len() - 1));
        lemma_mapped_permuted(a.drop_last(), b.remove(j), f);
        assert(a.map_values(f) =~= a.drop_last().map_values(f).push(f(e)));
        assert(b.map_values(f).remove(j) =~= b.remove(j).map_values(f));
        assert(b.map_values(f)[j] == f(e));
        assert(b.map_values(f).contains(f(e)));
        assert(b.map_values(f).to_multiset() =~= b.remove(j).map_values(f).to_multiset().insert(
            f(e),
        ));
    }
}

} // verus!
