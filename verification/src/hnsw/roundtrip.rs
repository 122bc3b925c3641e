//! What is written is read back.
use vstd::prelude::*;

use crate::bvecs::{bvecs_bytes, lemma_bvecs_back, lemma_bvecs_byte, lemma_bvecs_len};
use crate::bytes::{
    holds_at, le4, le8, lemma_flat_at, lemma_flat_front, lemma_holds_all, lemma_holds_bounds,
    lemma_holds_byte, lemma_holds_parts, lemma_holds_within, lemma_num4_of_le4, lemma_num8_of_le8,
    num4, number_at, numbers_are_little_endian,
};
use crate::hnsw::codec::{
    file_bytes, head_bytes, ids_bytes, keys_below, lemma_keys_below, list_bytes, lists_bytes,
    node_bytes, nodes_bytes, padding, plain_upper, writable, HEADER, MAGIC, RESERVED, VERSION,
};
use crate::distance::BVec;
use crate::hnsw::freeze::frozen_from;
use crate::hnsw::graph::{graph_wf, most_links, plain_lists, Graph};
use crate::hnsw::index::{
    base_links, descended, frauds_among, query_dists, row_of, upper_links, upper_row, voters,
    StaticHNSW,
};
use crate::hnsw::load::{
    complete, has_magic, has_version, ids_at, labels_at, lists_at, nodes_at, reads_as, row_len,
    rows_at, upper_at, upper_in, upper_total, vector_total,
};
use crate::hnsw::search::greedy;

verus! {

broadcast use crate::bytes::group_le_lens;

proof fn lemma_ids_len(ids: Seq<u32>)
    ensures
        ids_bytes(ids).len() == 4 * ids.len(),
{
    lemma_flat_at(ids, |x: u32| le4(x as int), 4);
}

proof fn lemma_ids_back(ids: Seq<u32>, data: Seq<u8>, at: int)
    requires
        holds_at(data, at, ids_bytes(ids)),
    ensures
        ids_at(data, at, ids.len()) == ids,
        at + 4 * ids.len() <= data.len(),
{
    let f = |x: u32| le4(x as int);
    let all = ids_bytes(ids);
    lemma_flat_at(ids, f, 4);
    lemma_holds_bounds(data, at, all);
    assert forall|i: int| 0 <= i < ids.len() implies #[trigger] ids_at(data, at, ids.len())[i]
        == ids[i] by {
        assert(holds_at(all, 4 * i, f(ids[i])));
        lemma_holds_within(data, at, all, 4 * i, f(ids[i]));
        lemma_num4_of_le4(data, at + 4 * i, ids[i] as int);
    }
    assert(ids_at(data, at, ids.len()) =~= ids);
}

proof fn lemma_lists_back(lists: Seq<Seq<u32>>, data: Seq<u8>, at: int)
    requires
        holds_at(data, at, lists_bytes(lists)),
        forall|l: int| 0 <= l < lists.len() ==> (#[trigger] lists[l]).len() < 0x1_0000_0000,
    ensures
        lists_at(data, at, lists.len()) == Some((lists, at + lists_bytes(lists).len())),
    decreases lists.len(),
{
    let f = |l: Seq<u32>| list_bytes(l);
    if lists.len() == 0 {
        crate::bytes::lemma_flat_none(lists, f);
        assert(lists.take(0) =~= lists);
        assert(lists =~= Seq::empty());
    } else {
        let l0 = lists[0];
        let rest = lists.drop_first();
        lemma_flat_front(lists, f);
        assert(l0.len() < 0x1_0000_0000);
        lemma_holds_parts(data, at, f(l0), lists_bytes(rest));
        lemma_holds_parts(data, at, le4(l0.len() as int), ids_bytes(l0));
        lemma_num4_of_le4(data, at, l0.len() as int);
        lemma_ids_back(l0, data, at + 4);
        lemma_ids_len(l0);
        assert forall|l: int| 0 <= l < rest.len() implies (#[trigger] rest[l]).len()
            < 0x1_0000_0000 by {
            assert(rest[l] == lists[l + 1]);
        }
        lemma_lists_back(rest, data, at + 4 + 4 * l0.len());
        assert(seq![l0] + rest =~= lists);
    }
}

/// The map with the entries of `upper` under these keys put in.
spec fn put_keys(
    m: Map<u32, Seq<Seq<u32>>>,
    upper: Map<u32, Seq<Seq<u32>>>,
    keys: Seq<u32>,
) -> Map<u32, Seq<Seq<u32>>>
    decreases keys.len(),
{
    if keys.len() == 0 {
        m
    } else {
        put_keys(m.insert(keys[0], upper[keys[0]]), upper, keys.drop_first())
    }
}

proof fn lemma_put_keys(
    m: Map<u32, Seq<Seq<u32>>>,
    upper: Map<u32, Seq<Seq<u32>>>,
    keys: Seq<u32>,
    k: u32,
)
    ensures
        put_keys(m, upper, keys).contains_key(k) <==> m.contains_key(k) || keys.contains(k),
        keys.contains(k) ==> put_keys(m, upper, keys)[k] == upper[k],
        !keys.contains(k) && m.contains_key(k) ==> put_keys(m, upper, keys)[k] == m[k],
    decreases keys.len(),
{
    if keys.len() > 0 {
        let rest = keys.drop_first();
        let m2 = m.insert(keys[0], upper[keys[0]]);
        lemma_put_keys(m2, upper, rest, k);
        if keys.contains(k) && k != keys[0] {
            let i = choose|i: int| 0 <= i < keys.len() && keys[i] == k;
            assert(rest[i - 1] == k);
        }
        if rest.contains(k) {
            let i = choose|i: int| 0 <= i < rest.len() && rest[i] == k;
            assert(keys[i + 1] == k);
        }
    }
}

/// All the entries of a map put in make the map.
proof fn lemma_put_all(upper: Map<u32, Seq<Seq<u32>>>, n: nat)
    requires
        n <= 0x1_0000_0000,
        forall|k: u32| #[trigger] upper.contains_key(k) ==> k < n,
    ensures
        put_keys(Map::empty(), upper, keys_below(upper, n)) == upper,
{
    let keys = keys_below(upper, n);
    let all = put_keys(Map::empty(), upper, keys);
    lemma_keys_below(upper, n);
    assert forall|k: u32| #[trigger] all.contains_key(k) <==> upper.contains_key(k) by {
        lemma_put_keys(Map::empty(), upper, keys, k);
        if keys.contains(k) {
            let i = choose|i: int| 0 <= i < keys.len() && keys[i] == k;
            assert(upper.contains_key(keys[i]));
        }
    }
    assert forall|k: u32| #[trigger] all.contains_key(k) implies all[k] == upper[k] by {
        lemma_put_keys(Map::empty(), upper, keys, k);
    }
    assert(all =~= upper);
}

proof fn lemma_nodes_back(
    upper: Map<u32, Seq<Seq<u32>>>,
    keys: Seq<u32>,
    data: Seq<u8>,
    at: int,
    m: Map<u32, Seq<Seq<u32>>>,
)
    requires
        holds_at(data, at, nodes_bytes(upper, keys)),
        forall|i: int| 0 <= i < keys.len() ==> upper.contains_key(#[trigger] keys[i]),
        lists_fit(upper),
    ensures
        nodes_at(data, at, keys.len(), m) == Some(put_keys(m, upper, keys)),
    decreases keys.len(),
{
    let f = |k: u32| node_bytes(k, upper[k]);
    if keys.len() > 0 {
        let k = keys[0];
        let rest = keys.drop_first();
        let lists = upper[k];
        assert(upper.contains_key(keys[0]));
        lemma_flat_front(keys, f);
        lemma_holds_parts(data, at, f(k), nodes_bytes(upper, rest));
        let a = le4(k as int);
        let b = le4(lists.len() as int % 0x1_0000_0000);
        let c = lists_bytes(lists);
        lemma_holds_parts(data, at, a, b + c);
        lemma_holds_parts(data, at + 4, b, c);
        lemma_holds_bounds(data, at + 4, b);
        lemma_num4_of_le4(data, at, k as int);
        lemma_num4_of_le4(data, at + 4, lists.len() as int);
        lemma_lists_back(lists, data, at + 8);
        assert forall|i: int| 0 <= i < rest.len() implies upper.contains_key(
            #[trigger] rest[i],
        ) by {
            assert(rest[i] == keys[i + 1]);
        }
        lemma_nodes_back(upper, rest, data, at + 8 + c.len(), m.insert(k, lists));
    }
}

/// Whether the counts of the upper layers fit in four bytes.
pub open spec fn lists_fit(upper: Map<u32, Seq<Seq<u32>>>) -> bool {
    &&& forall|k: u32| #[trigger] upper.contains_key(k) ==> upper[k].len() < 0x1_0000_0000
    &&& forall|k: u32, l: int|
        upper.contains_key(k) && 0 <= l < upper[k].len() ==> (#[trigger] upper[k][l]).len()
            < 0x1_0000_0000
}

/// Whether the numbers of a graph fit where they are written.
pub open spec fn fits_file(idx: StaticHNSW) -> bool {
    &&& idx.m_max0 < 0x1_0000_0000
    &&& idx.max_level < 0x1_0000_0000
    &&& idx.ef_search < 0x1_0000_0000
    &&& idx.k < 0x1_0000_0000
    &&& lists_fit(plain_upper(idx.upper@))
}

/// Whether two graphs agree in everything.
pub open spec fn same_graph(a: StaticHNSW, b: StaticHNSW) -> bool {
    &&& a.vectors@ == b.vectors@
    &&& a.labels@ == b.labels@
    &&& a.links0@ == b.links0@
    &&& a.m_max0 == b.m_max0
    &&& plain_upper(a.upper@) == plain_upper(b.upper@)
    &&& a.entry == b.entry
    &&& a.max_level == b.max_level
    &&& a.ef_search == b.ef_search
    &&& a.k == b.k
}

/// Where the parts of a file lie.
proof fn lemma_sections(idx: StaticHNSW)
    requires
        writable(idx),
    ensures
        laid_out(idx, file_bytes(idx)),
{
    let data = file_bytes(idx);
    let n = idx.vectors@.len();
    let upper = plain_upper(idx.upper@);
    let keys = keys_below(upper, n);
    let pad = padding(HEADER + 17 * n);
    let h = head_bytes(idx, keys.len() as int);
    let a = bvecs_bytes(idx.vectors@);
    let b = idx.labels@;
    let z = Seq::new(pad as nat, |i: int| 0u8);
    let c = ids_bytes(idx.links0@);
    let d = nodes_bytes(upper, keys);
    assert(h.len() == 48) by {
        reveal(head_bytes);
    }
    lemma_bvecs_len(idx.vectors@);
    lemma_ids_len(idx.links0@);
    lemma_holds_all(data);
    lemma_holds_parts(data, 0, h, a + (b + (z + (c + d))));
    lemma_holds_parts(data, 48, a, b + (z + (c + d)));
    lemma_holds_parts(data, (48 + 16 * n) as int, b, z + (c + d));
    lemma_holds_parts(data, (48 + 17 * n) as int, z, c + d);
    lemma_holds_parts(data, 48 + 17 * n + pad, c, d);
}

/// Where the parts of a head lie.
proof fn lemma_head_parts(
    data: Seq<u8>,
    m: Seq<u8>,
    v: Seq<u8>,
    n: Seq<u8>,
    a: Seq<u8>,
    b: Seq<u8>,
    c: Seq<u8>,
    d: Seq<u8>,
    e: Seq<u8>,
    f: Seq<u8>,
    z: Seq<u8>,
)
    requires
        holds_at(data, 0, m + (v + (n + (a + (b + (c + (d + (e + (f + z))))))))),
        m.len() == 4,
        v.len() == 4,
        n.len() == 8,
        a.len() == 4,
        b.len() == 4,
        c.len() == 4,
        d.len() == 4,
        e.len() == 4,
        f.len() == 4,
    ensures
        holds_at(data, 0, m),
        holds_at(data, 4, v),
        holds_at(data, 8, n),
        holds_at(data, 16, a),
        holds_at(data, 20, b),
        holds_at(data, 24, c),
        holds_at(data, 28, d),
        holds_at(data, 32, e),
        holds_at(data, 36, f),
{
    lemma_holds_parts(data, 0, m, v + (n + (a + (b + (c + (d + (e + (f + z))))))));
    lemma_holds_parts(data, 4, v, n + (a + (b + (c + (d + (e + (f + z)))))));
    lemma_holds_parts(data, 8, n, a + (b + (c + (d + (e + (f + z))))));
    lemma_holds_parts(data, 16, a, b + (c + (d + (e + (f + z)))));
    lemma_holds_parts(data, 20, b, c + (d + (e + (f + z))));
    lemma_holds_parts(data, 24, c, d + (e + (f + z)));
    lemma_holds_parts(data, 28, d, e + (f + z));
    lemma_holds_parts(data, 32, e, f + z);
    lemma_holds_parts(data, 36, f, z);
}

/// What the head of a file says.
proof fn lemma_head_back(idx: StaticHNSW, data: Seq<u8>, count: int)
    requires
        fits_file(idx),
        0 <= count < 0x1_0000_0000,
        idx.vectors@.len() <= u32::MAX,
        holds_at(data, 0, head_bytes(idx, count)),
    ensures
        has_magic(data),
        has_version(data),
        vector_total(data) == idx.vectors@.len(),
        row_len(data) == idx.m_max0,
        num4(data, 20) == idx.max_level,
        num4(data, 24) == idx.entry,
        num4(data, 28) == idx.ef_search,
        num4(data, 32) == idx.k,
        upper_total(data) == count,
{
    let n = idx.vectors@.len() as int;
    let a = idx.m_max0 as int % 0x1_0000_0000;
    let b = idx.max_level as int % 0x1_0000_0000;
    let c = idx.entry as int;
    let d = idx.ef_search as int % 0x1_0000_0000;
    let e = idx.k as int % 0x1_0000_0000;
    let f = count % 0x1_0000_0000;
    assert(holds_at(
        data,
        0,
        MAGIC@ + (VERSION@ + (le8(n) + (le4(a) + (le4(b) + (le4(c) + (le4(d) + (le4(e) + (le4(f)
            + RESERVED@)))))))),
    )) by {
        reveal(head_bytes);
    }
    lemma_head_parts(
        data,
        MAGIC@,
        VERSION@,
        le8(n),
        le4(a),
        le4(b),
        le4(c),
        le4(d),
        le4(e),
        le4(f),
        RESERVED@,
    );
    lemma_num8_of_le8(data, 8, n);
    lemma_num4_of_le4(data, 16, a);
    lemma_num4_of_le4(data, 20, b);
    lemma_num4_of_le4(data, 24, c);
    lemma_num4_of_le4(data, 28, d);
    lemma_num4_of_le4(data, 32, e);
    lemma_num4_of_le4(data, 36, f);
    lemma_holds_byte(data, 4, VERSION@, 0);
    assert forall|i: int| 0 <= i < 4 implies MAGIC@[i] == data[i] by {
        lemma_holds_byte(data, 0, MAGIC@, i);
    }
    assert(data.take(4) =~= MAGIC@);
}

/// The upper layers are read back.
proof fn lemma_upper_back(idx: StaticHNSW, data: Seq<u8>, at: int)
    requires
        writable(idx),
        lists_fit(plain_upper(idx.upper@)),
        holds_at(
            data,
            at,
            nodes_bytes(
                plain_upper(idx.upper@),
                keys_below(plain_upper(idx.upper@), idx.vectors@.len()),
            ),
        ),
    ensures
        nodes_at(
            data,
            at,
            keys_below(plain_upper(idx.upper@), idx.vectors@.len()).len(),
            Map::empty(),
        ) == Some(plain_upper(idx.upper@)),
        keys_below(plain_upper(idx.upper@), idx.vectors@.len()).len() <= idx.vectors@.len(),
{
    let upper = plain_upper(idx.upper@);
    let n = idx.vectors@.len();
    lemma_keys_below(upper, n);
    lemma_nodes_back(upper, keys_below(upper, n), data, at, Map::empty());
    assert forall|k: u32| #[trigger] upper.contains_key(k) implies k < n by {
        assert(idx.upper@.contains_key(k));
    }
    lemma_put_all(upper, n);
}

/// Whether the parts of a graph lie in the bytes where a file has them.
spec fn laid_out(idx: StaticHNSW, data: Seq<u8>) -> bool {
    let n = idx.vectors@.len();
    let rows = 48 + 17 * n + padding(HEADER + 17 * n);
    let upper = plain_upper(idx.upper@);
    let keys = keys_below(upper, n);
    &&& holds_at(data, 0, head_bytes(idx, keys.len() as int))
    &&& holds_at(data, 48, bvecs_bytes(idx.vectors@))
    &&& holds_at(data, (48 + 16 * n) as int, idx.labels@)
    &&& holds_at(data, rows, ids_bytes(idx.links0@))
    &&& holds_at(data, rows + 4 * idx.links0@.len(), nodes_bytes(upper, keys))
}

/// What the places of a file are, by its head.
proof fn lemma_places(idx: StaticHNSW, data: Seq<u8>)
    requires
        writable(idx),
        vector_total(data) == idx.vectors@.len(),
        row_len(data) == idx.m_max0,
    ensures
        labels_at(data) == 48 + 16 * idx.vectors@.len(),
        rows_at(data) == 48 + 17 * idx.vectors@.len() + padding(
            HEADER + 17 * idx.vectors@.len(),
        ),
        upper_at(data) == rows_at(data) + 4 * idx.links0@.len(),
{
}

proof fn lemma_laid_out_is_complete(idx: StaticHNSW, data: Seq<u8>)
    requires
        writable(idx),
        fits_file(idx),
        laid_out(idx, data),
    ensures
        has_magic(data),
        has_version(data),
        complete(data),
        upper_in(data) == Some(plain_upper(idx.upper@)),
        vector_total(data) == idx.vectors@.len(),
        row_len(data) == idx.m_max0,
        num4(data, 20) == idx.max_level,
        num4(data, 24) == idx.entry,
        num4(data, 28) == idx.ef_search,
        num4(data, 32) == idx.k,
{
    let n = idx.vectors@.len();
    let keys = keys_below(plain_upper(idx.upper@), n);
    let end = 48 + 17 * n + padding(HEADER + 17 * n) + 4 * idx.links0@.len();
    lemma_upper_back(idx, data, end);
    lemma_head_back(idx, data, keys.len() as int);
    lemma_places(idx, data);
    lemma_holds_bounds(data, end, nodes_bytes(plain_upper(idx.upper@), keys));
}

proof fn lemma_laid_out_is_same(idx: StaticHNSW, back: StaticHNSW, data: Seq<u8>)
    requires
        writable(idx),
        fits_file(idx),
        laid_out(idx, data),
        reads_as(data, back),
    ensures
        same_graph(idx, back),
{
    let n = idx.vectors@.len();
    let rows = 48 + 17 * n + padding(HEADER + 17 * n);
    lemma_laid_out_is_complete(idx, data);
    lemma_places(idx, data);
    lemma_bvecs_back(idx.vectors@, back.vectors@, data, 48);
    lemma_ids_back(idx.links0@, data, rows);
    lemma_holds_bounds(data, (48 + 16 * n) as int, idx.labels@);
    assert forall|j: int| 0 <= j < n implies idx.labels@[j] == #[trigger] back.labels@[j] by {
        lemma_holds_byte(data, (48 + 16 * n) as int, idx.labels@, j);
    }
    assert(idx.labels@ =~= back.labels@);
}

/// What is saved loads, and loads as the same graph.
pub proof fn load_gives_back_save(idx: StaticHNSW, back: StaticHNSW)
    requires
        writable(idx),
        fits_file(idx),
    ensures
        has_magic(file_bytes(idx)),
        has_version(file_bytes(idx)),
        complete(file_bytes(idx)),
        reads_as(file_bytes(idx), back) ==> same_graph(idx, back),
{
    lemma_sections(idx);
    lemma_laid_out_is_complete(idx, file_bytes(idx));
    if reads_as(file_bytes(idx), back) {
        lemma_laid_out_is_same(idx, back, file_bytes(idx));
    }
}

proof fn lemma_same_links(a: StaticHNSW, b: StaticHNSW)
    requires
        same_graph(a, b),
    ensures
        base_links(a) == base_links(b),
        forall|layer: int| #[trigger] upper_links(a, layer) == upper_links(b, layer),
{
    assert forall|id: int| #[trigger] base_links(a)(id) == base_links(b)(id) by {
        assert(row_of(a, id) == row_of(b, id));
    }
    assert(base_links(a) =~= base_links(b));
    assert forall|layer: int| #[trigger] upper_links(a, layer) == upper_links(b, layer) by {
        assert forall|id: int| #[trigger]
            upper_links(a, layer)(id) == upper_links(b, layer)(id) by {
            lemma_same_row(a, b, id, layer);
        }
        assert(upper_links(a, layer) =~= upper_links(b, layer));
    }
}

proof fn lemma_same_row(a: StaticHNSW, b: StaticHNSW, id: int, layer: int)
    requires
        plain_upper(a.upper@) == plain_upper(b.upper@),
    ensures
        upper_row(a, id, layer) == upper_row(b, id, layer),
{
    let key = id as u32;
    let pa = plain_upper(a.upper@);
    let pb = plain_upper(b.upper@);
    assert(pa.contains_key(key) == a.upper@.contains_key(key));
    assert(pb.contains_key(key) == b.upper@.contains_key(key));
    if a.upper@.contains_key(key) {
        let la = plain_lists(a.upper@[key]@);
        let lb = plain_lists(b.upper@[key]@);
        assert(pa[key] == la && pb[key] == lb);
        assert(la.len() == a.upper@[key]@.len() && lb.len() == b.upper@[key]@.len());
        if 1 <= layer <= la.len() {
            assert(la[layer - 1] == a.upper@[key]@[layer - 1]@);
            assert(lb[layer - 1] == b.upper@[key]@[layer - 1]@);
        }
    }
}

proof fn lemma_same_descent(a: StaticHNSW, b: StaticHNSW, q: BVec, ep: int, top: int)
    requires
        same_graph(a, b),
        query_dists(a, q) == query_dists(b, q),
        forall|layer: int| #[trigger] upper_links(a, layer) == upper_links(b, layer),
    ensures
        descended(a, q, ep, top) == descended(b, q, ep, top),
    decreases top,
{
    if top > 0 {
        assert(upper_links(a, top) == upper_links(b, top));
        lemma_same_descent(
            a,
            b,
            q,
            greedy(query_dists(a, q), upper_links(a, top), ep),
            top - 1,
        );
    }
}

/// A graph that was saved and loaded answers as it did before.
pub proof fn loaded_graph_answers_the_same(idx: StaticHNSW, back: StaticHNSW, q: BVec)
    requires
        idx.wf(),
        fits_file(idx),
        reads_as(file_bytes(idx), back),
    ensures
        back.wf(),
        voters(back, q) == voters(idx, q),
        frauds_among(back.labels@, voters(back, q)) == frauds_among(idx.labels@, voters(idx, q)),
{
    load_gives_back_save(idx, back);
    lemma_same_links(idx, back);
    assert(query_dists(idx, q) =~= query_dists(back, q));
    lemma_same_descent(idx, back, q, idx.entry as int, idx.max_level as int);
    let n = idx.vectors@.len();
    assert forall|key: u32| #[trigger] back.upper@.contains_key(key) implies key < n by {
        assert(plain_upper(back.upper@).contains_key(key));
        assert(plain_upper(idx.upper@).contains_key(key));
        assert(idx.upper@.contains_key(key));
    }
    assert forall|key: u32, l: int, i: int|
        back.upper@.contains_key(key) && 0 <= l < back.upper@[key]@.len() && 0 <= i
            < back.upper@[key]@[l]@.len() implies #[trigger] back.upper@[key]@[l]@[i] < n by {
        lemma_same_row(idx, back, key as int, l + 1);
        assert(upper_row(back, key as int, l + 1) == back.upper@[key]@[l]@);
        let row = upper_row(idx, key as int, l + 1);
        assert(row.len() > 0);
        assert(idx.upper@[key]@[l]@[i] < n);
    }
}

/// A graph that was built has numbers that fit where they are written, as long
/// as its settings and its highest layer do.
pub proof fn built_graphs_fit_a_file(idx: StaticHNSW, g: Graph, ef_search: nat, k: nat)
    requires
        graph_wf(g),
        frozen_from(idx, g, ef_search, k),
        idx.m_max0 < 0x1_0000_0000,
        idx.max_level < 0x1_0000_0000,
        idx.ef_search < 0x1_0000_0000,
        idx.k < 0x1_0000_0000,
    ensures
        fits_file(idx),
{
    let upper = plain_upper(idx.upper@);
    assert forall|key: u32| #[trigger] upper.contains_key(key) implies upper[key]
        == g.conns[key as int].drop_first() && key < g.conns.len()
        && g.conns[key as int].len() > 1 by {
        assert(idx.upper@.contains_key(key));
    }
    assert forall|key: u32| #[trigger] upper.contains_key(key) implies upper[key].len()
        < 0x1_0000_0000 by {
        assert(g.conns[key as int].len() <= g.max_level + 1);
    }
    assert forall|key: u32, l: int|
        upper.contains_key(key) && 0 <= l < upper[key].len() implies (#[trigger] upper[key][l]).len()
        < 0x1_0000_0000 by {
        assert(upper[key][l] == g.conns[key as int][l + 1]);
        assert(g.conns[key as int][l + 1].len() <= most_links(g.m, l + 1));
    }
}

/// A graph that was built, saved and loaded answers as it did before.
pub proof fn built_graphs_load_the_same(
    idx: StaticHNSW,
    g: Graph,
    ef_search: nat,
    k: nat,
    back: StaticHNSW,
    q: BVec,
)
    requires
        idx.wf(),
        graph_wf(g),
        frozen_from(idx, g, ef_search, k),
        idx.m_max0 < 0x1_0000_0000,
        idx.max_level < 0x1_0000_0000,
        idx.ef_search < 0x1_0000_0000,
        idx.k < 0x1_0000_0000,
    ensures
        has_magic(file_bytes(idx)),
        has_version(file_bytes(idx)),
        complete(file_bytes(idx)),
        reads_as(file_bytes(idx), back) ==> back.wf() && voters(back, q) == voters(idx, q)
            && frauds_among(back.labels@, voters(back, q)) == frauds_among(
            idx.labels@,
            voters(idx, q),
        ),
{
    built_graphs_fit_a_file(idx, g, ef_search, k);
    load_gives_back_save(idx, back);
    if reads_as(file_bytes(idx), back) {
        loaded_graph_answers_the_same(idx, back, q);
    }
}

proof fn lemma_row_stands(ids: Seq<u32>, data: Seq<u8>, at: int, i: int)
    requires
        holds_at(data, at, ids_bytes(ids)),
        0 <= i < ids.len(),
    ensures
        number_at(data, at + 4 * i, 4) == ids[i],
{
    let f = |x: u32| le4(x as int);
    let all = ids_bytes(ids);
    lemma_flat_at(ids, f, 4);
    assert(holds_at(all, 4 * i, f(ids[i])));
    lemma_holds_within(data, at, all, 4 * i, f(ids[i]));
    lemma_num4_of_le4(data, at + 4 * i, ids[i] as int);
    numbers_are_little_endian(data, at + 4 * i);
}

/// What stands in the head of a file: "HNSW", the version, and the numbers of
/// the graph.
pub proof fn heads_have_a_fixed_layout(idx: StaticHNSW)
    requires
        writable(idx),
        fits_file(idx),
    ensures
        ({
            let data = file_bytes(idx);
            &&& data.take(4) == seq![0x48u8, 0x4e, 0x53, 0x57]
            &&& data[4] == 2
            &&& number_at(data, 8, 8) == idx.vectors@.len()
            &&& number_at(data, 16, 4) == idx.m_max0
            &&& number_at(data, 20, 4) == idx.max_level
            &&& number_at(data, 24, 4) == idx.entry
            &&& number_at(data, 28, 4) == idx.ef_search
            &&& number_at(data, 32, 4) == idx.k
        }),
{
    let data = file_bytes(idx);
    lemma_sections(idx);
    lemma_laid_out_is_complete(idx, data);
    numbers_are_little_endian(data, 8);
    numbers_are_little_endian(data, 16);
    numbers_are_little_endian(data, 20);
    numbers_are_little_endian(data, 24);
    numbers_are_little_endian(data, 28);
    numbers_are_little_endian(data, 32);
    assert(MAGIC@ =~= seq![0x48u8, 0x4e, 0x53, 0x57]);
}

/// Whether the vectors, labels and links stand in the bytes, the links from
/// `rows` on.
pub open spec fn stand_in(idx: StaticHNSW, data: Seq<u8>, rows: int) -> bool {
    let n = idx.vectors@.len() as int;
    &&& forall|i: int, j: int|
        0 <= i < n && 0 <= j < 16 ==> data[48 + 16 * i + j] == #[trigger] idx.vectors@[i]@[j]
    &&& forall|i: int| 0 <= i < n ==> data[48 + 16 * n + i] == #[trigger] idx.labels@[i]
    &&& forall|i: int|
        0 <= i < idx.links0@.len() ==> number_at(data, rows + 4 * i, 4)
            == #[trigger] idx.links0@[i]
}

proof fn lemma_stand_in(idx: StaticHNSW, data: Seq<u8>, rows: int)
    requires
        holds_at(data, 48, bvecs_bytes(idx.vectors@)),
        holds_at(data, 48 + 16 * idx.vectors@.len() as int, idx.labels@),
        holds_at(data, rows, ids_bytes(idx.links0@)),
        idx.labels@.len() == idx.vectors@.len(),
    ensures
        stand_in(idx, data, rows),
{
    let n = idx.vectors@.len() as int;
    assert forall|i: int, j: int| 0 <= i < n && 0 <= j < 16 implies data[48 + 16 * i + j]
        == #[trigger] idx.vectors@[i]@[j] by {
        lemma_bvecs_byte(idx.vectors@, data, 48, i, j);
    }
    assert forall|i: int| 0 <= i < n implies data[48 + 16 * n + i] == #[trigger] idx.labels@[i] by {
        lemma_holds_byte(data, 48 + 16 * n, idx.labels@, i);
    }
    assert forall|i: int| 0 <= i < idx.links0@.len() implies number_at(data, rows + 4 * i, 4)
        == #[trigger] idx.links0@[i] by {
        lemma_row_stands(idx.links0@, data, rows, i);
    }
}

proof fn lemma_padded(at: int)
    requires
        0 <= at,
    ensures
        at + padding(at) == (at + 3) / 4 * 4,
{
}

/// Where everything stands behind the head of a file: vector after vector, the
/// labels, zeros up to a multiple of four, and the rows.
pub proof fn files_have_a_fixed_layout(idx: StaticHNSW)
    requires
        writable(idx),
    ensures
        stand_in(idx, file_bytes(idx), (48 + 17 * idx.vectors@.len() as int + 3) / 4 * 4),
{
    let data = file_bytes(idx);
    let n = idx.vectors@.len() as int;
    lemma_sections(idx);
    lemma_padded(48 + 17 * n);
    lemma_stand_in(idx, data, 48 + 17 * n + padding(HEADER + 17 * n));
}

} // verus!
