//! Building the graph, node by node.
//!
//! A node gets a level, the highest layer it is on. It is linked, on each layer
//! up to that, to the nearest nodes that a beam search finds there, and they
//! are linked back; a node with too many links keeps its nearest.
use vstd::prelude::*;

use crate::distance::BVec;
use crate::draws::{next_draw, step};
use crate::hnsw::ranked::{ranked_all, ranked_all_is_sorted, Ranked};
use crate::hnsw::search::{
    beam, beam_search, closed_under, greedy, greedy_single, Dists, Layer, Links,
};
use crate::hnsw::visited::BuildBufs;

verus! {

/// The links of each node, layer by layer.
pub type Conns = Seq<Seq<Seq<u32>>>;

/// The distance of two nodes, in a number that orders as it does.
pub type Ranks = spec_fn(int, int) -> int;

/// The distances that `distance` computes.
pub open spec fn ranks_of<D: Fn(u32, u32) -> u32>(distance: D) -> Ranks {
    |a: int, b: int|
        (choose|r: u32| #[trigger] distance.ensures((a as u32, b as u32), r)) as int
}

/// Whether `distance` can be asked for any two of `n` nodes, and always gives
/// the same answer.
pub open spec fn measures<D: Fn(u32, u32) -> u32>(distance: D, n: nat) -> bool {
    &&& forall|a: u32, b: u32| a < n && b < n ==> #[trigger] distance.requires((a, b))
    &&& forall|a: u32, b: u32, x: u32, y: u32|
        #[trigger] distance.ensures((a, b), x) && #[trigger] distance.ensures((a, b), y) ==> x == y
}

/// The lists without the places where they are kept.
pub open spec fn plain_lists(lists: Seq<Vec<u32>>) -> Seq<Seq<u32>> {
    lists.map_values(|l: Vec<u32>| l@)
}

/// The links without the places where they are kept.
pub open spec fn plain_conns(conns: Seq<Vec<Vec<u32>>>) -> Conns {
    conns.map_values(|lists: Vec<Vec<u32>>| plain_lists(lists@))
}

/// The links of a node on a layer; none where it is not on it.
pub open spec fn links_on(conns: Conns, id: int, layer: int) -> Seq<u32> {
    if 0 <= layer < conns[id].len() {
        conns[id][layer]
    } else {
        Seq::empty()
    }
}

/// The links of a layer.
pub open spec fn layer_of(conns: Conns, layer: int) -> Links {
    |id: int| links_on(conns, id, layer)
}

/// The distances from a node.
pub open spec fn dists_from(ranks: Ranks, id: int) -> Dists {
    |other: int| ranks(id, other)
}

/// The ids of entries.
pub open spec fn ids_of(s: Seq<(int, int)>) -> Seq<u32> {
    s.map_values(|h: (int, int)| h.1 as u32)
}

/// Where a greedy walk down the layers from `top` to `bottom` ends.
pub open spec fn descended(conns: Conns, d: Dists, ep: int, top: int, bottom: int) -> int
    decreases top - bottom + 1,
{
    if top < bottom {
        ep
    } else {
        descended(conns, d, greedy(d, layer_of(conns, top), ep), top - 1, bottom)
    }
}

/// The ids with their distances from a node.
pub open spec fn measured(ranks: Ranks, id: int, list: Seq<u32>) -> Seq<(int, int)> {
    list.map_values(|other: u32| (ranks(id, other as int), other as int))
}

/// The `n` of a list that are nearest to a node, nearest first.
pub open spec fn nearest_links(ranks: Ranks, id: int, list: Seq<u32>, n: nat) -> Seq<u32> {
    ids_of(ranked_all(measured(ranks, id, list)).take(n as int))
}

/// The links of a node with one more; where that is too many, the nearest.
pub open spec fn linked(ranks: Ranks, id: int, list: Seq<u32>, new: u32, most: nat) -> Seq<u32> {
    if list.len() < most {
        list.push(new)
    } else {
        nearest_links(ranks, id, list.push(new), most)
    }
}

/// Lists for the first `n` layers at least.
pub open spec fn padded(lists: Seq<Seq<u32>>, n: nat) -> Seq<Seq<u32>> {
    if lists.len() >= n {
        lists
    } else {
        lists + Seq::new((n - lists.len()) as nat, |i: int| Seq::empty())
    }
}

/// The links after a node was linked back on a layer.
pub open spec fn linked_back(
    conns: Conns,
    ranks: Ranks,
    id: int,
    layer: int,
    new: u32,
    most: nat,
) -> Conns {
    let lists = padded(conns[id], (layer + 1) as nat);
    conns.update(id, lists.update(layer, linked(ranks, id, lists[layer], new, most)))
}

/// The links after several nodes were linked back on a layer.
pub open spec fn all_linked_back(
    conns: Conns,
    ranks: Ranks,
    chosen: Seq<u32>,
    layer: int,
    new: u32,
    most: nat,
) -> Conns
    decreases chosen.len(),
{
    if chosen.len() == 0 {
        conns
    } else {
        linked_back(
            all_linked_back(conns, ranks, chosen.drop_last(), layer, new, most),
            ranks,
            chosen.last() as int,
            layer,
            new,
            most,
        )
    }
}

/// A node has at most `m` links on a layer, twice as many on the lowest.
pub open spec fn most_links(m: nat, layer: int) -> nat {
    if layer == 0 {
        2 * m
    } else {
        m
    }
}

/// The links after a new node was linked on the layers from `layer` down, and
/// the links of the new node. `eps` is where the search starts.
pub open spec fn connected(
    conns: Conns,
    own: Seq<Seq<u32>>,
    ranks: Ranks,
    new: u32,
    eps: Seq<u32>,
    layer: int,
    m: nat,
    ef: nat,
) -> (Conns, Seq<Seq<u32>>)
    decreases layer + 1,
{
    if layer < 0 {
        (conns, own)
    } else {
        let found = ids_of(
            beam(dists_from(ranks, new as int), layer_of(conns, layer), conns.len(), eps, ef),
        );
        let chosen = if found.len() <= m {
            found
        } else {
            found.take(m as int)
        };
        connected(
            all_linked_back(conns, ranks, chosen, layer, new, most_links(m, layer)),
            own.update(layer, chosen),
            ranks,
            new,
            found,
            layer - 1,
            m,
            ef,
        )
    }
}

/// The graph so far, without the places where it is kept.
pub struct Graph {
    pub vectors: Seq<BVec>,
    pub labels: Seq<bool>,
    pub conns: Conns,
    pub entry: u32,
    pub max_level: nat,
    pub m: nat,
    pub ef_con: nat,
    pub rng: u64,
}

/// Where the draws start.
pub const SEED: u64 = 0x6c62_272e_07bb_0142;

/// The level that each draw stands for.
pub type Levels = spec_fn(u64) -> nat;

/// The levels that `level_of` computes.
pub open spec fn levels_of<F: Fn(u64) -> usize>(level_of: F) -> Levels {
    |r: u64| (choose|l: usize| #[trigger] level_of.ensures((r,), l)) as nat
}

/// Whether `level_of` can be asked for the level of any draw, always gives the
/// same answer, and never the largest number there is.
pub open spec fn levels<F: Fn(u64) -> usize>(level_of: F) -> bool {
    &&& forall|r: u64| #[trigger] level_of.requires((r,))
    &&& forall|r: u64, a: usize| #[trigger] level_of.ensures((r,), a) ==> a < usize::MAX
    &&& forall|r: u64, a: usize, b: usize|
        #[trigger] level_of.ensures((r,), a) && #[trigger] level_of.ensures((r,), b) ==> a == b
}

/// Empty lists for `n` layers.
pub open spec fn no_links(n: nat) -> Seq<Seq<u32>> {
    Seq::new(n, |i: int| Seq::empty())
}

/// The smaller of two levels.
pub open spec fn lower(a: nat, b: nat) -> nat {
    if a <= b {
        a
    } else {
        b
    }
}

/// The graph with one more node.
pub open spec fn inserted(
    g: Graph,
    vector: BVec,
    fraud: bool,
    ranks: Ranks,
    levels: Levels,
) -> Graph {
    let new = g.vectors.len() as u32;
    let rng = next_draw(g.rng);
    let level = levels(rng);
    let own = no_links(level + 1);
    let grown = Graph {
        vectors: g.vectors.push(vector),
        labels: g.labels.push(fraud),
        rng,
        ..g
    };
    if new == 0 {
        Graph { conns: g.conns.push(own), entry: 0, max_level: level, ..grown }
    } else {
        let d = dists_from(ranks, new as int);
        let ep = descended(g.conns, d, g.entry as int, g.max_level as int, level as int + 1);
        let (conns, links) = connected(
            g.conns,
            own,
            ranks,
            new,
            seq![ep as u32],
            lower(g.max_level, level) as int,
            g.m,
            g.ef_con,
        );
        if level > g.max_level {
            Graph { conns: conns.push(links), entry: new, max_level: level, ..grown }
        } else {
            Graph { conns: conns.push(links), ..grown }
        }
    }
}

/// The graph being built.
pub struct BuildGraph {
    pub vectors: Vec<BVec>,
    pub labels: Vec<bool>,
    pub connections: Vec<Vec<Vec<u32>>>,
    pub entry: u32,
    pub max_level: usize,
    pub m: usize,
    pub ef_con: usize,
    pub rng: u64,
}

impl View for BuildGraph {
    type V = Graph;

    open spec fn view(&self) -> Graph {
        Graph {
            vectors: self.vectors@,
            labels: self.labels@,
            conns: plain_conns(self.connections@),
            entry: self.entry,
            max_level: self.max_level as nat,
            m: self.m as nat,
            ef_con: self.ef_con as nat,
            rng: self.rng,
        }
    }
}

/// Whether all links stay below `n`.
pub open spec fn ids_below(conns: Conns, n: int) -> bool {
    forall|id: int, l: int, i: int|
        0 <= id < conns.len() && 0 <= l < conns[id].len() && 0 <= i < conns[id][l].len() ==> (
        #[trigger] conns[id][l][i]) < n
}

/// Whether the links on the layers up to `layer` stay below `n`, and those
/// above it below `n + 1`.
pub open spec fn ids_fit(conns: Conns, n: int, layer: int) -> bool {
    forall|id: int, l: int, i: int|
        0 <= id < conns.len() && 0 <= l < conns[id].len() && 0 <= i < conns[id][l].len() ==> (
        #[trigger] conns[id][l][i]) < if l <= layer {
            n
        } else {
            n + 1
        }
}

/// Whether no node has more links on a layer than it may.
pub open spec fn degrees_fit(conns: Conns, m: nat) -> bool {
    forall|id: int, l: int|
        0 <= id < conns.len() && 0 <= l < conns[id].len() ==> (#[trigger] conns[id][l]).len()
            <= most_links(m, l)
}

/// Whether every node is on the lowest layer.
pub open spec fn all_grounded(conns: Conns) -> bool {
    forall|id: int| 0 <= id < conns.len() ==> (#[trigger] conns[id]).len() > 0
}

/// Whether no node is linked to itself.
pub open spec fn no_self_links(conns: Conns) -> bool {
    forall|id: int, l: int, i: int|
        0 <= id < conns.len() && 0 <= l < conns[id].len() && 0 <= i < conns[id][l].len() ==> (
        #[trigger] conns[id][l][i]) != id
}

/// Whether no node is on a layer above `top`.
pub open spec fn layers_fit(conns: Conns, top: nat) -> bool {
    forall|id: int| 0 <= id < conns.len() ==> (#[trigger] conns[id]).len() <= top + 1
}

/// Whether the nodes are still on the layers that they were on, none above
/// `top` and none linked to itself.
pub open spec fn layers_kept(before: Conns, after: Conns, top: nat) -> bool {
    &&& after.len() == before.len()
    &&& no_self_links(after)
    &&& layers_fit(after, top)
    &&& forall|id: int|
        0 <= id < after.len() ==> before[id].len() <= (#[trigger] after[id]).len()
}

/// Whether a graph is well formed: a vector, a label and links for each of its
/// nodes, links to others among them and not too many, no layer above the
/// highest, and an entry that is on it.
pub open spec fn graph_wf(g: Graph) -> bool {
    let n = g.vectors.len();
    &&& g.labels.len() == n
    &&& g.conns.len() == n
    &&& n > 0 ==> g.entry < n && g.conns[g.entry as int].len() == g.max_level + 1
    &&& ids_below(g.conns, n as int)
    &&& no_self_links(g.conns)
    &&& layers_fit(g.conns, g.max_level)
    &&& degrees_fit(g.conns, g.m)
    &&& all_grounded(g.conns)
}

/// A layer of the graph as a new node sees it.
pub struct BuildLayer<'a, D: Fn(u32, u32) -> u32> {
    pub connections: &'a Vec<Vec<Vec<u32>>>,
    pub layer: usize,
    pub from: u32,
    pub distance: &'a D,
    pub none: Vec<u32>,
}

impl<'a, D: Fn(u32, u32) -> u32> Layer for BuildLayer<'a, D> {
    open spec fn size(&self) -> nat {
        self.connections@.len()
    }

    open spec fn dists(&self) -> Dists {
        dists_from(ranks_of(*self.distance), self.from as int)
    }

    open spec fn links(&self) -> Links {
        layer_of(plain_conns(self.connections@), self.layer as int)
    }

    open spec fn wf(&self) -> bool {
        &&& measures(*self.distance, self.from as nat + 1)
        &&& self.connections@.len() <= self.from
        &&& self.none@.len() == 0
    }

    fn dist(&self, id: u32) -> (d: u32) {
        let distance = self.distance;
        let from: u32 = self.from;
        let d = distance(from, id);
        assert(distance.ensures((from, id), d));
        d
    }

    fn neighbours(&self, id: u32) -> (ns: &[u32]) {
        let lists = &self.connections[id as usize];
        assert(plain_conns(self.connections@)[id as int] == plain_lists(lists@));
        if self.layer < lists.len() {
            lists[self.layer].as_slice()
        } else {
            assert(self.none@ =~= Seq::empty());
            self.none.as_slice()
        }
    }
}

/// What a node is linked to after one more link was one of its links before,
/// or is the new one.
proof fn lemma_linked(ranks: Ranks, id: int, list: Seq<u32>, new: u32, most: nat)
    ensures
        linked(ranks, id, list, new, most).len() <= most,
        forall|i: int|
            0 <= i < linked(ranks, id, list, new, most).len() ==> {
                let x = #[trigger] linked(ranks, id, list, new, most)[i];
                x == new || list.contains(x)
            },
{
    broadcast use vstd::seq_lib::group_to_multiset_ensures;

    let all = list.push(new);
    let r = linked(ranks, id, list, new, most);
    if list.len() < most {
        assert forall|i: int| 0 <= i < r.len() implies ({
            let x = #[trigger] r[i];
            x == new || list.contains(x)
        }) by {
            if i < list.len() {
                assert(list[i] == r[i]);
            }
        }
    } else {
        let ms = measured(ranks, id, all);
        let rs = ranked_all(ms);
        ranked_all_is_sorted(ms);
        assert forall|i: int| 0 <= i < r.len() implies ({
            let x = #[trigger] r[i];
            x == new || list.contains(x)
        }) by {
            assert(rs.contains(rs[i]));
            assert(rs.to_multiset().contains(rs[i]));
            assert(ms.contains(rs[i]));
            let j = choose|j: int| 0 <= j < ms.len() && ms[j] == rs[i];
            assert(all[j] == r[i]);
            if j < list.len() {
                assert(list[j] == r[i]);
            }
        }
    }
}

/// The graph keeps its bounds when a node is linked back.
proof fn lemma_linked_back_fits(
    conns: Conns,
    ranks: Ranks,
    id: int,
    layer: int,
    new: u32,
    m: nat,
)
    requires
        0 <= id < conns.len(),
        0 <= layer,
        new == conns.len(),
        ids_fit(conns, conns.len() as int, layer - 1),
        degrees_fit(conns, m),
        all_grounded(conns),
    ensures
        ({
            let after = linked_back(conns, ranks, id, layer, new, most_links(m, layer));
            &&& after.len() == conns.len()
            &&& ids_fit(after, conns.len() as int, layer - 1)
            &&& degrees_fit(after, m)
            &&& all_grounded(after)
        }),
{
    let most = most_links(m, layer);
    let lists = padded(conns[id], (layer + 1) as nat);
    let after = linked_back(conns, ranks, id, layer, new, most);
    let n = conns.len() as int;
    assert(lists[layer].len() <= most) by {
        if layer < conns[id].len() {
            assert(conns[id][layer].len() <= most);
        }
    }
    lemma_linked(ranks, id, lists[layer], new, most);
    assert forall|a: int, l: int, i: int|
        0 <= a < after.len() && 0 <= l < after[a].len() && 0 <= i < after[a][l].len() implies (
    #[trigger] after[a][l][i]) < if l <= layer - 1 {
        n
    } else {
        n + 1
    } by {
        if a != id {
            assert(conns[a][l][i] == after[a][l][i]);
        } else if l != layer {
            if l < conns[id].len() {
                assert(conns[id][l][i] == after[a][l][i]);
            }
        } else {
            let x = after[a][l][i];
            assert(x == linked(ranks, id, lists[layer], new, most)[i]);
            if x != new {
                let j = choose|j: int| 0 <= j < lists[layer].len() && lists[layer][j] == x;
                assert(conns[id][layer][j] == x);
            }
        }
    }
    assert forall|a: int, l: int| 0 <= a < after.len() && 0 <= l < after[a].len() implies (
    #[trigger] after[a][l]).len() <= most_links(m, l) by {
        if a != id {
            assert(conns[a][l] == after[a][l]);
        } else if l != layer {
            if l < conns[id].len() {
                assert(conns[id][l] == after[a][l]);
            }
        }
    }
    assert forall|a: int| 0 <= a < after.len() implies (#[trigger] after[a]).len() > 0 by {
        assert(conns[a].len() > 0);
    }
}

/// The nodes keep their layers when one is linked back.
proof fn lemma_linked_back_keeps(
    conns: Conns,
    ranks: Ranks,
    id: int,
    layer: int,
    new: u32,
    most: nat,
    top: nat,
)
    requires
        0 <= id < conns.len(),
        0 <= layer <= top,
        new == conns.len(),
        no_self_links(conns),
        layers_fit(conns, top),
    ensures
        layers_kept(conns, linked_back(conns, ranks, id, layer, new, most), top),
{
    let lists = padded(conns[id], (layer + 1) as nat);
    let after = linked_back(conns, ranks, id, layer, new, most);
    lemma_linked(ranks, id, lists[layer], new, most);
    assert(conns[id].len() <= top + 1);
    assert forall|a: int, l: int, i: int|
        0 <= a < after.len() && 0 <= l < after[a].len() && 0 <= i < after[a][l].len() implies (
    #[trigger] after[a][l][i]) != a by {
        if a != id {
            assert(conns[a][l][i] == after[a][l][i]);
        } else if l != layer {
            if l < conns[id].len() {
                assert(conns[id][l][i] == after[a][l][i]);
            }
        } else {
            let x = after[a][l][i];
            assert(x == linked(ranks, id, lists[layer], new, most)[i]);
            if x != new {
                let j = choose|j: int| 0 <= j < lists[layer].len() && lists[layer][j] == x;
                assert(conns[id][layer][j] == x);
            }
        }
    }
    assert forall|a: int| 0 <= a < after.len() implies (#[trigger] after[a]).len() <= top + 1
        && conns[a].len() <= after[a].len() by {
        assert(conns[a].len() <= top + 1);
    }
}

/// The first `n` ids of a list, all of them where there are fewer.
fn first_ids(found: &Ranked, n: usize) -> (r: Vec<u32>)
    ensures
        r@ == if found@.len() <= n {
            ids_of(found@)
        } else {
            ids_of(found@).take(n as int)
        },
{
    let count: usize = if found.items.len() <= n {
        found.items.len()
    } else {
        n
    };
    let mut r: Vec<u32> = Vec::new();
    let mut i: usize = 0;
    while i < count
        invariant
            i <= count <= found.items@.len(),
            r@.len() == i,
            forall|j: int| 0 <= j < i ==> #[trigger] r@[j] == ids_of(found@)[j],
        decreases count - i,
    {
        r.push(found.items[i].1);
        i = i + 1;
    }
    assert(r@ =~= if found@.len() <= n {
        ids_of(found@)
    } else {
        ids_of(found@).take(n as int)
    });
    r
}

/// The `most` of a list that are nearest to a node.
fn keep_nearest<D: Fn(u32, u32) -> u32>(list: &Vec<u32>, nb: u32, most: usize, distance: &D) -> (r:
    Vec<u32>)
    requires
        list@.len() > most,
        forall|i: int| 0 <= i < list@.len() ==> distance.requires((nb, #[trigger] list@[i])),
        forall|a: u32, b: u32, x: u32, y: u32|
            #[trigger] distance.ensures((a, b), x) && #[trigger] distance.ensures((a, b), y) ==> x
                == y,
    ensures
        r@ == nearest_links(ranks_of(*distance), nb as int, list@, most as nat),
{
    let ghost ranks = ranks_of(*distance);
    let ghost all = measured(ranks, nb as int, list@);
    let mut rs = Ranked::new();
    let mut i: usize = 0;
    assert(all.take(0) =~= Seq::empty());
    while i < list.len()
        invariant
            i <= list@.len(),
            forall|j: int| 0 <= j < list@.len() ==> distance.requires((nb, #[trigger] list@[j])),
            forall|a: u32, b: u32, x: u32, y: u32|
                #[trigger] distance.ensures((a, b), x) && #[trigger] distance.ensures((a, b), y)
                    ==> x == y,
            ranks == ranks_of(*distance),
            all == measured(ranks, nb as int, list@),
            rs@ == ranked_all(all.take(i as int)),
        decreases list@.len() - i,
    {
        let id: u32 = list[i];
        let d: u32 = distance(nb, id);
        assert(distance.ensures((nb, id), d));
        assert(ranks(nb as int, id as int) == d);
        assert(all.take(i + 1).drop_last() =~= all.take(i as int));
        assert(all.take(i + 1).last() == (d as int, id as int));
        rs.put(d, id);
        i = i + 1;
    }
    proof {
        assert(all.take(all.len() as int) =~= all);
        ranked_all_is_sorted(all);
    }
    let r = first_ids(&rs, most);
    assert(r@ =~= nearest_links(ranks, nb as int, list@, most as nat));
    r
}

/// Links a node back to a new one on a layer.
fn link_back<D: Fn(u32, u32) -> u32>(
    lists: &mut Vec<Vec<u32>>,
    layer: usize,
    new: u32,
    nb: u32,
    most: usize,
    distance: &D,
)
    requires
        layer < usize::MAX,
        nb < new,
        measures(*distance, new as nat + 1),
        forall|l: int, i: int|
            0 <= l < old(lists)@.len() && 0 <= i < old(lists)@[l]@.len() ==> #[trigger] old(
                lists,
            )@[l]@[i] <= new,
        layer < old(lists)@.len() ==> old(lists)@[layer as int]@.len() <= most,
    ensures
        ({
            let before = padded(plain_lists(old(lists)@), (layer + 1) as nat);
            plain_lists(final(lists)@) == before.update(
                layer as int,
                linked(
                    ranks_of(*distance),
                    nb as int,
                    before[layer as int],
                    new,
                    most as nat,
                ),
            )
        }),
{
    let ghost start = lists@;
    let ghost want = padded(plain_lists(start), (layer + 1) as nat);
    while lists.len() <= layer
        invariant
            layer < usize::MAX,
            start.len() <= lists@.len(),
            lists@.len() <= layer + 1 || lists@.len() == start.len(),
            forall|l: int| 0 <= l < start.len() ==> #[trigger] lists@[l] == start[l],
            forall|l: int| start.len() <= l < lists@.len() ==> (#[trigger] lists@[l])@.len() == 0,
        decreases layer + 1 - lists@.len(),
    {
        let none: Vec<u32> = Vec::new();
        lists.push(none);
    }
    let ghost mid = lists@;
    proof {
        assert forall|l: int| 0 <= l < mid.len() implies (#[trigger] mid[l])@ =~= want[l] by {
            if l < start.len() {
                assert(plain_lists(start)[l] == start[l]@);
            }
        }
        assert(plain_lists(mid) =~= want);
        assert(mid[layer as int]@ == want[layer as int]);
    }
    lists[layer].push(new);
    proof {
        assert(lists@[layer as int]@ == want[layer as int].push(new));
        assert forall|i: int| 0 <= i < lists@[layer as int]@.len() implies distance.requires(
            (nb, #[trigger] lists@[layer as int]@[i]),
        ) by {
            let x = lists@[layer as int]@[i];
            if i < want[layer as int].len() {
                assert(mid[layer as int]@[i] == x);
                if layer < start.len() {
                    assert(start[layer as int]@[i] == x);
                }
            }
            assert(x <= new);
        }
    }
    if lists[layer].len() > most {
        let kept = keep_nearest(&lists[layer], nb, most, distance);
        lists.set(layer, kept);
    }
    proof {
        let goal = want.update(
            layer as int,
            linked(ranks_of(*distance), nb as int, want[layer as int], new, most as nat),
        );
        assert forall|l: int| 0 <= l < lists@.len() implies (#[trigger] lists@[l])@
            =~= goal[l] by {
            if l != layer {
                assert(lists@[l] == mid[l]);
                assert(plain_lists(mid)[l] == mid[l]@);
            }
        }
        assert(plain_lists(lists@) =~= goal);
    }
}

proof fn lemma_layer_closed(conns: Conns, layer: int, top: int)
    requires
        ids_fit(conns, conns.len() as int, top),
        layer <= top,
    ensures
        closed_under(layer_of(conns, layer), conns.len()),
{
    let links = layer_of(conns, layer);
    let n = conns.len();
    assert forall|id: int, i: int| 0 <= id < n && 0 <= i < links(id).len() implies #[trigger] links(
        id,
    )[i] < n by {
        assert(conns[id][layer][i] < n);
    }
}

impl BuildGraph {
    /// Whether the graph is well formed and can grow.
    pub open spec fn wf(self) -> bool {
        &&& graph_wf(self@)
        &&& self.m <= usize::MAX / 2
        &&& self.max_level < usize::MAX
    }

    /// A graph without nodes.
    pub fn new(m: usize, ef_construction: usize) -> (g: BuildGraph)
        requires
            m <= usize::MAX / 2,
        ensures
            g.wf(),
            g@ == (Graph {
                vectors: Seq::empty(),
                labels: Seq::empty(),
                conns: Seq::empty(),
                entry: 0,
                max_level: 0,
                m: m as nat,
                ef_con: ef_construction as nat,
                rng: SEED,
            }),
    {
        let g = BuildGraph {
            vectors: Vec::new(),
            labels: Vec::new(),
            connections: Vec::new(),
            entry: 0,
            max_level: 0,
            m,
            ef_con: ef_construction,
            rng: SEED,
        };
        assert(g@.conns =~= Seq::empty());
        g
    }

    /// Draws the level of the next node.
    pub fn rand_level<F: Fn(u64) -> usize>(&mut self, level_of: &F) -> (level: usize)
        requires
            levels(*level_of),
        ensures
            final(self)@ == (Graph { rng: next_draw(old(self)@.rng), ..old(self)@ }),
            level == levels_of(*level_of)(next_draw(old(self)@.rng)),
            level < usize::MAX,
            final(self).connections == old(self).connections,
            final(self).vectors == old(self).vectors,
            final(self).labels == old(self).labels,
    {
        self.rng = step(self.rng);
        let r: u64 = self.rng;
        let level: usize = level_of(r);
        assert(level_of.ensures((r,), level));
        level
    }

    /// Walks down the layers above `level` from the entry.
    fn descend<D: Fn(u32, u32) -> u32>(&self, new: u32, level: usize, distance: &D) -> (ep: u32)
        requires
            self.connections@.len() == new,
            self.entry < new,
            ids_below(self@.conns, new as int),
            measures(*distance, new as nat + 1),
            level < usize::MAX,
        ensures
            ep == descended(
                self@.conns,
                dists_from(ranks_of(*distance), new as int),
                self.entry as int,
                self.max_level as int,
                level + 1,
            ),
            ep < new,
    {
        let ghost conns = self@.conns;
        let ghost d = dists_from(ranks_of(*distance), new as int);
        let mut ep: u32 = self.entry;
        let mut lc: usize = self.max_level;
        while lc > level
            invariant
                conns == self@.conns,
                d == dists_from(ranks_of(*distance), new as int),
                self.connections@.len() == new,
                ids_below(conns, new as int),
                measures(*distance, new as nat + 1),
                ep < new,
                descended(conns, d, self.entry as int, self.max_level as int, level + 1)
                    == descended(conns, d, ep as int, lc as int, level + 1),
            decreases lc,
        {
            proof {
                lemma_layer_closed(conns, lc as int, lc as int);
            }
            let layer = BuildLayer {
                connections: &self.connections,
                layer: lc,
                from: new,
                distance,
                none: Vec::new(),
            };
            ep = greedy_single(&layer, ep);
            lc = lc - 1;
        }
        ep
    }

    /// Links a new node on one layer: gives back its links there, and all that
    /// the search found.
    fn connect_layer<D: Fn(u32, u32) -> u32>(
        &mut self,
        new: u32,
        eps: &Vec<u32>,
        lc: usize,
        distance: &D,
        bufs: &mut BuildBufs,
    ) -> (r: (Vec<u32>, Vec<u32>))
        requires
            old(self).connections@.len() == new,
            lc < usize::MAX,
            old(self).m <= usize::MAX / 2,
            ids_fit(old(self)@.conns, new as int, lc as int),
            degrees_fit(old(self)@.conns, old(self)@.m),
            all_grounded(old(self)@.conns),
            no_self_links(old(self)@.conns),
            layers_fit(old(self)@.conns, old(self)@.max_level),
            lc <= old(self).max_level,
            measures(*distance, new as nat + 1),
            forall|i: int| 0 <= i < eps@.len() ==> #[trigger] eps@[i] < new,
        ensures
            ids_fit(final(self)@.conns, new as int, lc - 1),
            degrees_fit(final(self)@.conns, old(self)@.m),
            all_grounded(final(self)@.conns),
            layers_kept(old(self)@.conns, final(self)@.conns, old(self)@.max_level),
            final(self)@.conns.len() == new,
            ({
                let ranks = ranks_of(*distance);
                let m = old(self)@.m;
                let conns = old(self)@.conns;
                let found = ids_of(
                    beam(
                        dists_from(ranks, new as int),
                        layer_of(conns, lc as int),
                        conns.len(),
                        eps@,
                        old(self)@.ef_con,
                    ),
                );
                let chosen = if found.len() <= m {
                    found
                } else {
                    found.take(m as int)
                };
                &&& r.0@ == chosen
                &&& r.1@ == found
                &&& final(self)@ == (Graph {
                    conns: all_linked_back(
                        conns,
                        ranks,
                        chosen,
                        lc as int,
                        new,
                        most_links(m, lc as int),
                    ),
                    ..old(self)@
                })
            }),
            forall|i: int| 0 <= i < r.0@.len() ==> #[trigger] r.0@[i] < new,
            forall|i: int| 0 <= i < r.1@.len() ==> #[trigger] r.1@[i] < new,
    {
        let ghost ranks = ranks_of(*distance);
        let ghost conns0 = self@.conns;
        let ghost g0 = self@;
        proof {
            lemma_layer_closed(conns0, lc as int, lc as int);
        }
        let found = {
            let layer = BuildLayer {
                connections: &self.connections,
                layer: lc,
                from: new,
                distance,
                none: Vec::new(),
            };
            beam_search(&layer, eps.as_slice(), self.ef_con, bufs)
        };
        let out = first_ids(&found, found.items.len());
        let chosen = first_ids(&found, self.m);
        proof {
            assert forall|i: int| 0 <= i < out@.len() implies #[trigger] out@[i] < new by {
                assert(found@[i].1 < new);
            }
            assert forall|i: int| 0 <= i < chosen@.len() implies #[trigger] chosen@[i] < new by {
                assert(found@[i].1 < new);
            }
        }
        let most: usize = if lc == 0 {
            2 * self.m
        } else {
            self.m
        };
        let mut i: usize = 0;
        assert(chosen@.take(0) =~= Seq::empty());
        while i < chosen.len()
            invariant
                i <= chosen@.len(),
                forall|j: int| 0 <= j < chosen@.len() ==> #[trigger] chosen@[j] < new,
                ranks == ranks_of(*distance),
                lc < usize::MAX,
                most == most_links(g0.m, lc as int),
                measures(*distance, new as nat + 1),
                self@.conns.len() == new,
                ids_fit(self@.conns, new as int, lc - 1),
                degrees_fit(self@.conns, g0.m),
                all_grounded(self@.conns),
                layers_kept(conns0, self@.conns, g0.max_level),
                lc <= g0.max_level,
                self@ == (Graph {
                    conns: all_linked_back(
                        conns0,
                        ranks,
                        chosen@.take(i as int),
                        lc as int,
                        new,
                        most as nat,
                    ),
                    ..g0
                }),
            decreases chosen@.len() - i,
        {
            let nb: u32 = chosen[i];
            let ghost before = self.connections@;
            let ghost conns1 = self@.conns;
            let at: usize = nb as usize;
            proof {
                assert(chosen@.take(i + 1).drop_last() =~= chosen@.take(i as int));
                lemma_linked_back_fits(conns1, ranks, nb as int, lc as int, new, g0.m);
                lemma_linked_back_keeps(
                    conns1,
                    ranks,
                    nb as int,
                    lc as int,
                    new,
                    most as nat,
                    g0.max_level,
                );
                assert(conns1[at as int] == plain_lists(before[at as int]@));
                assert forall|l: int, j: int|
                    0 <= l < before[at as int]@.len() && 0 <= j < before[at as int]@[l]@.len() implies
                    #[trigger] before[at as int]@[l]@[j] <= new by {
                    assert(conns1[at as int][l][j] == before[at as int]@[l]@[j]);
                }
                if lc < before[at as int]@.len() {
                    assert(conns1[at as int][lc as int] == before[at as int]@[lc as int]@);
                }
            }
            link_back(&mut self.connections[at], lc, new, nb, most, distance);
            proof {
                let after = linked_back(conns1, ranks, nb as int, lc as int, new, most as nat);
                assert forall|a: int| 0 <= a < after.len() implies #[trigger] self@.conns[a]
                    == after[a] by {
                    assert(self@.conns[a] == plain_lists(self.connections@[a]@));
                    if a != at {
                        assert(self.connections@[a] == before[a]);
                        assert(conns1[a] == plain_lists(before[a]@));
                    }
                }
                assert(self@.conns =~= after);
                assert forall|a: int| 0 <= a < after.len() implies conns0[a].len()
                    <= (#[trigger] after[a]).len() by {
                    assert(conns0[a].len() <= conns1[a].len());
                }
            }
            i = i + 1;
        }
        assert(chosen@.take(chosen@.len() as int) =~= chosen@);
        (chosen, out)
    }

    /// Puts a node into the graph.
    pub fn insert<D: Fn(u32, u32) -> u32, F: Fn(u64) -> usize>(
        &mut self,
        vector: BVec,
        is_fraud: bool,
        distance: &D,
        level_of: &F,
        bufs: &mut BuildBufs,
    )
        requires
            old(self).wf(),
            old(self)@.vectors.len() < u32::MAX,
            measures(*distance, old(self)@.vectors.len() + 1),
            levels(*level_of),
        ensures
            final(self).wf(),
            final(self)@ == inserted(
                old(self)@,
                vector,
                is_fraud,
                ranks_of(*distance),
                levels_of(*level_of),
            ),
            final(self).vectors@ == old(self).vectors@.push(vector),
            final(self).labels@ == old(self).labels@.push(is_fraud),
            final(self).connections@.len() == old(self).connections@.len() + 1,
    {
        let ghost g0 = self@;
        let ghost ranks = ranks_of(*distance);
        let new: u32 = self.vectors.len() as u32;
        let level: usize = self.rand_level(level_of);
        let mut own: Vec<Vec<u32>> = Vec::new();
        let mut i: usize = 0;
        while i <= level
            invariant
                level < usize::MAX,
                i <= level + 1,
                own@.len() == i,
                forall|l: int| 0 <= l < i ==> (#[trigger] own@[l])@ == Seq::<u32>::empty(),
            decreases level + 1 - i,
        {
            let none: Vec<u32> = Vec::new();
            own.push(none);
            i = i + 1;
        }
        assert(plain_lists(own@) =~= no_links((level + 1) as nat));
        if new == 0 {
            let ghost before = self.connections@;
            self.vectors.push(vector);
            self.labels.push(is_fraud);
            self.connections.push(own);
            self.entry = 0;
            self.max_level = level;
            assert(self@.conns =~= g0.conns.push(no_links((level + 1) as nat)));
            return ;
        }
        let ep: u32 = self.descend(new, level, distance);
        let mut eps: Vec<u32> = Vec::new();
        eps.push(ep);
        let top: usize = if self.max_level <= level {
            self.max_level
        } else {
            level
        };
        let mut left: usize = top + 1;
        let ghost goal = connected(
            g0.conns,
            no_links((level + 1) as nat),
            ranks,
            new,
            seq![ep],
            top as int,
            g0.m,
            g0.ef_con,
        );
        let ghost rng = self.rng;
        assert(eps@ =~= seq![ep]);
        while left > 0
            invariant
                left <= top + 1,
                top <= level < usize::MAX,
                new > 0,
                ranks == ranks_of(*distance),
                measures(*distance, new as nat + 1),
                own@.len() == level + 1,
                forall|l: int, i: int|
                    0 <= l < own@.len() && 0 <= i < own@[l]@.len() ==> #[trigger] own@[l]@[i]
                        < new,
                forall|l: int|
                    0 <= l < own@.len() ==> (#[trigger] own@[l])@.len() <= most_links(g0.m, l),
                forall|i: int| 0 <= i < eps@.len() ==> #[trigger] eps@[i] < new,
                self.m == g0.m,
                self.m <= usize::MAX / 2,
                self@ == (Graph { conns: self@.conns, rng, ..g0 }),
                self@.conns.len() == new,
                self.connections@.len() == new,
                ids_fit(self@.conns, new as int, left - 1),
                degrees_fit(self@.conns, g0.m),
                all_grounded(self@.conns),
                layers_kept(g0.conns, self@.conns, g0.max_level),
                top <= g0.max_level,
                goal == connected(
                    self@.conns,
                    plain_lists(own@),
                    ranks,
                    new,
                    eps@,
                    left - 1,
                    g0.m,
                    g0.ef_con,
                ),
            decreases left,
        {
            let lc: usize = left - 1;
            let ghost own0 = own@;
            let ghost conns1 = self@.conns;
            let (chosen, found) = self.connect_layer(new, &eps, lc, distance, bufs);
            own.set(lc, chosen);
            proof {
                assert forall|a: int| 0 <= a < self@.conns.len() implies g0.conns[a].len() <= (
                #[trigger] self@.conns[a]).len() by {
                    assert(g0.conns[a].len() <= conns1[a].len());
                }
                assert(plain_lists(own@) =~= plain_lists(own0).update(lc as int, chosen@));
                assert forall|l: int, i: int|
                    0 <= l < own@.len() && 0 <= i < own@[l]@.len() implies #[trigger] own@[l]@[i]
                    < new by {
                    if l != lc {
                        assert(own0[l]@[i] < new);
                    }
                }
                assert forall|l: int| 0 <= l < own@.len() implies (#[trigger] own@[l])@.len()
                    <= most_links(g0.m, l) by {
                    if l != lc {
                        assert(own0[l]@.len() <= most_links(g0.m, l));
                    }
                }
            }
            eps = found;
            left = lc;
        }
        let ghost before = self@.conns;
        let ghost links = plain_lists(own@);
        if level > self.max_level {
            self.entry = new;
            self.max_level = level;
        }
        self.vectors.push(vector);
        self.labels.push(is_fraud);
        self.connections.push(own);
        proof {
            let after = self@.conns;
            assert(after =~= before.push(links));
            let n = new as int + 1;
            assert forall|id: int, l: int, i: int|
                0 <= id < after.len() && 0 <= l < after[id].len() && 0 <= i
                    < after[id][l].len() implies (#[trigger] after[id][l][i]) < n by {
                if id < new {
                    assert(before[id][l][i] == after[id][l][i]);
                } else {
                    assert(own@[l]@[i] == after[id][l][i]);
                }
            }
            assert forall|id: int, l: int| 0 <= id < after.len() && 0 <= l < after[id].len() implies (
            #[trigger] after[id][l]).len() <= most_links(g0.m, l) by {
                if id < new {
                    assert(before[id][l] == after[id][l]);
                } else {
                    assert(own@[l]@ == after[id][l]);
                }
            }
            assert forall|id: int| 0 <= id < after.len() implies (#[trigger] after[id]).len()
                > 0 by {
                if id < new {
                    assert(before[id].len() > 0);
                }
            }
            assert forall|id: int, l: int, i: int|
                0 <= id < after.len() && 0 <= l < after[id].len() && 0 <= i
                    < after[id][l].len() implies (#[trigger] after[id][l][i]) != id by {
                if id < new {
                    assert(before[id][l][i] == after[id][l][i]);
                } else {
                    assert(own@[l]@[i] == after[id][l][i]);
                }
            }
            assert forall|id: int| 0 <= id < after.len() implies (#[trigger] after[id]).len()
                <= self@.max_level + 1 by {
                if id < new {
                    assert(before[id].len() <= g0.max_level + 1);
                }
            }
            assert(g0.conns[g0.entry as int].len() <= before[g0.entry as int].len());
            assert(before[g0.entry as int].len() <= g0.max_level + 1);
            assert(self@.entry < new ==> after[self@.entry as int] == before[self@.entry as int]);
        }
    }
}

} // verus!
