//! From the graph being built to the finished one.
use std::collections::HashMap;

use vstd::prelude::*;
use vstd::slice::slice_to_vec;

use crate::distance::BVec;
use crate::hnsw::graph::{
    graph_wf, inserted, levels, levels_of, links_on, measures, most_links, plain_lists, ranks_of,
    BuildGraph, Conns, Graph, Levels, Ranks, SEED,
};
use crate::hnsw::index::{base_links, before_none, row_of, upper_row, StaticHNSW, NONE};
use crate::hnsw::visited::BuildBufs;
use crate::types::RawData;

verus! {

broadcast use vstd::std_specs::hash::group_hash_axioms;

/// A row of the lowest layer: the links, filled up with `NONE`.
pub open spec fn filled_row(links: Seq<u32>, m: nat) -> Seq<u32> {
    Seq::new(
        m,
        |i: int|
            if i < links.len() {
                links[i]
            } else {
                NONE
            },
    )
}

/// Whether a finished graph holds the links of one being built.
pub open spec fn holds_links(idx: StaticHNSW, conns: Conns) -> bool {
    &&& idx.links0@.len() == conns.len() * idx.m_max0
    &&& forall|id: int|
        0 <= id < conns.len() ==> #[trigger] row_of(idx, id) == filled_row(
            links_on(conns, id, 0),
            idx.m_max0 as nat,
        )
    &&& forall|key: u32| #[trigger]
        idx.upper@.contains_key(key) <==> key < conns.len() && conns[key as int].len() > 1
    &&& forall|key: u32| #[trigger]
        idx.upper@.contains_key(key) ==> plain_lists(idx.upper@[key]@)
            == conns[key as int].drop_first()
}

/// Whether `idx` is the finished form of a graph.
pub open spec fn frozen_from(idx: StaticHNSW, g: Graph, ef_search: nat, k: nat) -> bool {
    &&& idx.vectors@ == g.vectors
    &&& idx.labels@ == g.labels.map_values(
        |b: bool|
            if b {
                1u8
            } else {
                0u8
            },
    )
    &&& idx.m_max0 == most_links(g.m, 0)
    &&& idx.entry == g.entry
    &&& idx.max_level == g.max_level
    &&& idx.ef_search == ef_search
    &&& idx.k == k
    &&& holds_links(idx, g.conns)
}

proof fn lemma_filled_row(links: Seq<u32>, m: nat)
    requires
        links.len() <= m,
        forall|i: int| 0 <= i < links.len() ==> #[trigger] links[i] != NONE,
    ensures
        before_none(filled_row(links, m)) == links,
    decreases links.len(),
{
    let row = filled_row(links, m);
    if links.len() == 0 {
        assert(before_none(row) =~= links);
    } else {
        let rest = links.drop_first();
        assert(row.drop_first() =~= filled_row(rest, (m - 1) as nat));
        lemma_filled_row(rest, (m - 1) as nat);
        assert(links[0] != NONE);
        assert(seq![links[0]] + rest =~= links);
    }
}

/// A node keeps its links on every layer when the graph is finished.
pub proof fn freezing_keeps_the_links(idx: StaticHNSW, g: Graph, id: int)
    requires
        graph_wf(g),
        holds_links(idx, g.conns),
        idx.m_max0 == most_links(g.m, 0),
        g.conns.len() <= u32::MAX,
        0 <= id < g.conns.len(),
    ensures
        base_links(idx)(id) == links_on(g.conns, id, 0),
        forall|layer: int|
            layer >= 1 ==> #[trigger] upper_row(idx, id, layer) == links_on(g.conns, id, layer),
{
    let conns = g.conns;
    let links = links_on(conns, id, 0);
    assert(row_of(idx, id) == filled_row(links, idx.m_max0 as nat));
    assert forall|i: int| 0 <= i < links.len() implies #[trigger] links[i] != NONE by {
        assert(conns[id][0][i] < conns.len());
    }
    assert(links.len() <= idx.m_max0) by {
        if conns[id].len() > 0 {
            assert(conns[id][0].len() <= most_links(g.m, 0));
        }
    }
    lemma_filled_row(links, idx.m_max0 as nat);
    assert forall|layer: int| layer >= 1 implies #[trigger] upper_row(idx, id, layer)
        == links_on(conns, id, layer) by {
        let key = id as u32;
        if idx.upper@.contains_key(key) {
            assert(plain_lists(idx.upper@[key]@) == conns[id].drop_first());
            assert(plain_lists(idx.upper@[key]@).len() == idx.upper@[key]@.len());
            if layer <= idx.upper@[key]@.len() {
                assert(plain_lists(idx.upper@[key]@)[layer - 1] == idx.upper@[key]@[layer - 1]@);
            }
        }
    }
}

proof fn lemma_frozen_wf(idx: StaticHNSW, g: Graph, ef_search: nat, k: nat)
    requires
        graph_wf(g),
        frozen_from(idx, g, ef_search, k),
        g.conns.len() <= u32::MAX,
    ensures
        idx.wf(),
{
    let conns = g.conns;
    let n = conns.len();
    let links = base_links(idx);
    assert forall|id: int, i: int| 0 <= id < n && 0 <= i < links(id).len() implies #[trigger] links(
        id,
    )[i] < n by {
        freezing_keeps_the_links(idx, g, id);
        assert(conns[id][0][i] < n);
    }
    assert forall|key: u32, l: int, i: int|
        idx.upper@.contains_key(key) && 0 <= l < idx.upper@[key]@.len() && 0 <= i
            < idx.upper@[key]@[l]@.len() implies #[trigger] idx.upper@[key]@[l]@[i] < n by {
        let lists = plain_lists(idx.upper@[key]@);
        assert(lists == conns[key as int].drop_first());
        assert(lists[l] == idx.upper@[key]@[l]@);
        assert(lists.len() == idx.upper@[key]@.len());
        assert(conns[key as int][l + 1] == lists[l]);
        assert(conns[key as int][l + 1][i] == idx.upper@[key]@[l]@[i]);
    }
}

/// The finished form of a graph is that graph: its vectors, its labels, where a
/// walk enters it, and the links of every node on every layer.
pub proof fn finished_graphs_are_the_same_graph(
    idx: StaticHNSW,
    g: Graph,
    ef_search: nat,
    k: nat,
    id: int,
)
    requires
        graph_wf(g),
        frozen_from(idx, g, ef_search, k),
        g.conns.len() <= u32::MAX,
        0 <= id < g.vectors.len(),
    ensures
        idx.vectors@ == g.vectors,
        idx.labels@.len() == g.labels.len(),
        idx.labels@[id] == if g.labels[id] {
            1u8
        } else {
            0u8
        },
        idx.entry == g.entry,
        idx.max_level == g.max_level,
        idx.ef_search == ef_search,
        idx.k == k,
        idx.m_max0 == 2 * g.m,
        base_links(idx)(id) == links_on(g.conns, id, 0),
        forall|layer: int|
            layer >= 1 ==> #[trigger] upper_row(idx, id, layer) == links_on(g.conns, id, layer),
{
    freezing_keeps_the_links(idx, g, id);
}

/// Copies all lists but the first.
fn upper_lists(lists: &Vec<Vec<u32>>) -> (r: Vec<Vec<u32>>)
    requires
        lists@.len() > 1,
    ensures
        plain_lists(r@) == plain_lists(lists@).drop_first(),
{
    let mut r: Vec<Vec<u32>> = Vec::new();
    let mut l: usize = 1;
    while l < lists.len()
        invariant
            1 <= l <= lists@.len(),
            r@.len() == l - 1,
            forall|j: int| 0 <= j < r@.len() ==> (#[trigger] r@[j])@ == lists@[j + 1]@,
        decreases lists@.len() - l,
    {
        let copy = slice_to_vec(lists[l].as_slice());
        r.push(copy);
        l = l + 1;
    }
    assert(plain_lists(r@) =~= plain_lists(lists@).drop_first());
    r
}

/// Appends the row of a node to those of the lowest layer.
fn push_row(links0: &mut Vec<u32>, lists: &Vec<Vec<u32>>, m: usize)
    requires
        lists@.len() > 0 ==> lists@[0]@.len() <= m,
    ensures
        final(links0)@ == old(links0)@ + filled_row(
            if lists@.len() > 0 {
                lists@[0]@
            } else {
                Seq::empty()
            },
            m as nat,
        ),
{
    let ghost before = links0@;
    let ghost links = if lists@.len() > 0 {
        lists@[0]@
    } else {
        Seq::empty()
    };
    let ghost row = filled_row(links, m as nat);
    let count: usize = if lists.len() > 0 {
        lists[0].len()
    } else {
        0
    };
    let mut i: usize = 0;
    assert(before + row.take(0) =~= before);
    while i < m
        invariant
            i <= m,
            count == links.len(),
            count > 0 ==> lists@.len() > 0 && links == lists@[0]@,
            row == filled_row(links, m as nat),
            links0@ == before + row.take(i as int),
        decreases m - i,
    {
        let x: u32 = if i < count {
            lists[0][i]
        } else {
            NONE
        };
        links0.push(x);
        assert(row.take(i + 1) =~= row.take(i as int).push(x));
        assert(links0@ =~= before + row.take(i + 1));
        i = i + 1;
    }
    assert(row.take(m as int) =~= row);
}

impl StaticHNSW {
    /// The finished form of a graph.
    pub fn from_build_graph(g: BuildGraph, ef_search: usize, k: usize) -> (idx: StaticHNSW)
        requires
            g.wf(),
            g@.conns.len() <= u32::MAX,
            g@.conns.len() * (2 * g.m) <= usize::MAX,
        ensures
            idx.wf(),
            frozen_from(idx, g@, ef_search as nat, k as nat),
    {
        let ghost conns = g@.conns;
        let n: usize = g.connections.len();
        let m0: usize = 2 * g.m;
        let mut links0: Vec<u32> = Vec::new();
        let mut upper: HashMap<u32, Vec<Vec<u32>>> = HashMap::new();
        let mut labels: Vec<u8> = Vec::new();
        let mut id: usize = 0;
        while id < n
            invariant
                g.wf(),
                conns == g@.conns,
                n == g.connections@.len(),
                n <= u32::MAX,
                m0 == 2 * g.m,
                n * m0 <= usize::MAX,
                id <= n,
                labels@.len() == id,
                forall|j: int|
                    0 <= j < id ==> #[trigger] labels@[j] == if g.labels@[j] {
                        1u8
                    } else {
                        0u8
                    },
                links0@.len() == id * m0,
                forall|j: int|
                    0 <= j < id ==> #[trigger] links0@.subrange(j * m0, j * m0 + m0)
                        == filled_row(links_on(conns, j, 0), m0 as nat),
                forall|key: u32| #[trigger]
                    upper@.contains_key(key) <==> key < id && conns[key as int].len() > 1,
                forall|key: u32| #[trigger]
                    upper@.contains_key(key) ==> plain_lists(upper@[key]@)
                        == conns[key as int].drop_first(),
            decreases n - id,
        {
            let lists = &g.connections[id];
            let ghost rows = links0@;
            let ghost map = upper@;
            proof {
                assert(conns[id as int] == plain_lists(lists@));
                if lists@.len() > 0 {
                    assert(conns[id as int][0].len() <= most_links(g@.m, 0));
                    assert(conns[id as int][0] == lists@[0]@);
                }
            }
            push_row(&mut links0, lists, m0);
            if lists.len() > 1 {
                let above = upper_lists(lists);
                upper.insert(id as u32, above);
            }
            labels.push(
                if g.labels[id] {
                    1
                } else {
                    0
                },
            );
            proof {
                assert((id + 1) * m0 == id * m0 + m0) by (nonlinear_arith);
                assert forall|j: int| 0 <= j < id + 1 implies #[trigger] links0@.subrange(
                    j * m0,
                    j * m0 + m0,
                ) == filled_row(links_on(conns, j, 0), m0 as nat) by {
                    if j < id {
                        assert(0 <= j * m0 && j * m0 + m0 <= id * m0) by (nonlinear_arith)
                            requires
                                0 <= j < id,
                                0 <= m0,
                        ;
                        assert(links0@.subrange(j * m0, j * m0 + m0) =~= rows.subrange(
                            j * m0,
                            j * m0 + m0,
                        ));
                    } else {
                        assert(links0@.subrange(j * m0, j * m0 + m0) =~= filled_row(
                            links_on(conns, j, 0),
                            m0 as nat,
                        ));
                    }
                }
                assert(plain_lists(lists@).len() == lists@.len());
            }
            id = id + 1;
        }
        let idx = StaticHNSW {
            vectors: g.vectors,
            labels,
            links0,
            m_max0: m0,
            upper,
            entry: g.entry,
            max_level: g.max_level,
            ef_search,
            k,
        };
        proof {
            assert(idx.labels@ =~= g@.labels.map_values(
                |b: bool|
                    if b {
                        1u8
                    } else {
                        0u8
                    },
            ));
            assert forall|j: int| 0 <= j < conns.len() implies #[trigger] row_of(idx, j)
                == filled_row(links_on(conns, j, 0), m0 as nat) by {
                assert(row_of(idx, j) == links0@.subrange(j * m0, j * m0 + m0));
            }
            lemma_frozen_wf(idx, g@, ef_search as nat, k as nat);
        }
        idx
    }
}

impl BuildGraph {
    /// Finishes the graph.
    pub fn freeze(self, ef_search: usize, k: usize) -> (idx: StaticHNSW)
        requires
            self.wf(),
            self@.conns.len() <= u32::MAX,
            self@.conns.len() * (2 * self.m) <= usize::MAX,
        ensures
            idx.wf(),
            frozen_from(idx, self@, ef_search as nat, k as nat),
    {
        StaticHNSW::from_build_graph(self, ef_search, k)
    }
}

/// The graph of the first `n` records.
pub open spec fn grown(
    data: Seq<RawData<BVec>>,
    n: nat,
    m: nat,
    ef_con: nat,
    ranks: Ranks,
    levels: Levels,
) -> Graph
    decreases n,
{
    if n == 0 {
        Graph {
            vectors: Seq::empty(),
            labels: Seq::empty(),
            conns: Seq::empty(),
            entry: 0,
            max_level: 0,
            m,
            ef_con,
            rng: SEED,
        }
    } else {
        inserted(
            grown(data, (n - 1) as nat, m, ef_con, ranks, levels),
            data[n - 1].vector,
            data[n - 1].fraud(),
            ranks,
            levels,
        )
    }
}

/// Builds the graph of labelled vectors. `distance` measures two records by
/// their numbers, `level_of` turns a draw into the level of a node.
pub fn build_index<D: Fn(u32, u32) -> u32, F: Fn(u64) -> usize>(
    m: usize,
    ef_construction: usize,
    ef_search: usize,
    k: usize,
    data: &[RawData<BVec>],
    distance: &D,
    level_of: &F,
) -> (idx: StaticHNSW)
    requires
        data@.len() <= u32::MAX,
        m <= usize::MAX / 2,
        data@.len() * (2 * m) <= usize::MAX,
        measures(*distance, data@.len()),
        levels(*level_of),
    ensures
        idx.wf(),
        graph_wf(
            grown(
                data@,
                data@.len(),
                m as nat,
                ef_construction as nat,
                ranks_of(*distance),
                levels_of(*level_of),
            ),
        ),
        frozen_from(
            idx,
            grown(
                data@,
                data@.len(),
                m as nat,
                ef_construction as nat,
                ranks_of(*distance),
                levels_of(*level_of),
            ),
            ef_search as nat,
            k as nat,
        ),
{
    let mut g = BuildGraph::new(m, ef_construction);
    let mut bufs = BuildBufs::new();
    let mut i: usize = 0;
    while i < data.len()
        invariant
            i <= data@.len(),
            data@.len() <= u32::MAX,
            measures(*distance, data@.len()),
            levels(*level_of),
            g.wf(),
            g@.vectors.len() == i,
            g.m == m,
            g@ == grown(
                data@,
                i as nat,
                m as nat,
                ef_construction as nat,
                ranks_of(*distance),
                levels_of(*level_of),
            ),
        decreases data@.len() - i,
    {
        g.insert(data[i].vector, data[i].is_fraud(), distance, level_of, &mut bufs);
        i = i + 1;
    }
    g.freeze(ef_search, k)
}

impl StaticHNSW {
    /// Builds the graph of labelled vectors.
    pub fn build<D: Fn(u32, u32) -> u32, F: Fn(u64) -> usize>(
        m: usize,
        ef_construction: usize,
        ef_search: usize,
        k: usize,
        data: &[RawData<BVec>],
        distance: &D,
        level_of: &F,
    ) -> (idx: StaticHNSW)
        requires
            data@.len() <= u32::MAX,
            m <= usize::MAX / 2,
            data@.len() * (2 * m) <= usize::MAX,
            measures(*distance, data@.len()),
            levels(*level_of),
        ensures
            idx.wf(),
            graph_wf(
                grown(
                    data@,
                    data@.len(),
                    m as nat,
                    ef_construction as nat,
                    ranks_of(*distance),
                    levels_of(*level_of),
                ),
            ),
            frozen_from(
                idx,
                grown(
                    data@,
                    data@.len(),
                    m as nat,
                    ef_construction as nat,
                    ranks_of(*distance),
                    levels_of(*level_of),
                ),
                ef_search as nat,
                k as nat,
            ),
    {
        build_index(m, ef_construction, ef_search, k, data, distance, level_of)
    }
}

} // verus!
