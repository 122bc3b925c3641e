//! Reading a finished graph back from the bytes of a file.
use std::collections::HashMap;

use vstd::prelude::*;

use crate::bvecs::{bvecs_at, get_bvecs};
use crate::bytes::{begins_with, get_u32, get_u64, num4, num8, put_bytes, starts_with};
use crate::hnsw::codec::{padding, plain_upper, LoadError, HEADER, MAGIC, VERSION};
use crate::hnsw::graph::plain_lists;
use crate::hnsw::index::StaticHNSW;

verus! {

broadcast use vstd::std_specs::hash::group_hash_axioms;

/// How many vectors the head announces.
pub open spec fn vector_total(data: Seq<u8>) -> int {
    num8(data, 8)
}

/// How many links a row has.
pub open spec fn row_len(data: Seq<u8>) -> int {
    num4(data, 16)
}

/// How many nodes on upper layers the head announces.
pub open spec fn upper_total(data: Seq<u8>) -> int {
    num4(data, 36)
}

/// Where the labels start.
pub open spec fn labels_at(data: Seq<u8>) -> int {
    HEADER + 16 * vector_total(data)
}

/// Where the rows start.
pub open spec fn rows_at(data: Seq<u8>) -> int {
    let end = labels_at(data) + vector_total(data);
    end + padding(end)
}

/// Where the upper layers start.
pub open spec fn upper_at(data: Seq<u8>) -> int {
    rows_at(data) + 4 * (vector_total(data) * row_len(data))
}

/// The numbers in the bytes from `at` on.
pub open spec fn ids_at(data: Seq<u8>, at: int, count: nat) -> Seq<u32> {
    Seq::new(count, |i: int| num4(data, at + 4 * i) as u32)
}

/// So many lists from `at` on, and where they end.
pub open spec fn lists_at(data: Seq<u8>, at: int, count: nat) -> Option<(Seq<Seq<u32>>, int)>
    decreases count,
{
    if count == 0 {
        Some((Seq::empty(), at))
    } else if at + 4 > data.len() || at + 4 + 4 * num4(data, at) > data.len() {
        None
    } else {
        let size = num4(data, at);
        match lists_at(data, at + 4 + 4 * size, (count - 1) as nat) {
            Some((rest, e)) => Some((seq![ids_at(data, at + 4, size as nat)] + rest, e)),
            None => None,
        }
    }
}

/// So many nodes on upper layers from `at` on, put to those in `m`.
pub open spec fn nodes_at(
    data: Seq<u8>,
    at: int,
    count: nat,
    m: Map<u32, Seq<Seq<u32>>>,
) -> Option<Map<u32, Seq<Seq<u32>>>>
    decreases count,
{
    if count == 0 {
        Some(m)
    } else if at + 8 > data.len() {
        None
    } else {
        match lists_at(data, at + 8, num4(data, at + 4) as nat) {
            Some((lists, e)) => nodes_at(
                data,
                e,
                (count - 1) as nat,
                m.insert(num4(data, at) as u32, lists),
            ),
            None => None,
        }
    }
}

/// The upper layers in the bytes of a file.
pub open spec fn upper_in(data: Seq<u8>) -> Option<Map<u32, Seq<Seq<u32>>>> {
    nodes_at(data, upper_at(data), upper_total(data) as nat, Map::empty())
}

/// Whether the bytes begin with the magic bytes of a graph.
pub open spec fn has_magic(data: Seq<u8>) -> bool {
    begins_with(data, MAGIC@)
}

/// Whether the bytes are of the version that can be read.
pub open spec fn has_version(data: Seq<u8>) -> bool {
    data.len() > 4 && data[4] == VERSION[0]
}

/// Whether the vectors, labels and rows start within the bytes, and all of the
/// upper layers lie there. Where there are none of these, the rows may be cut
/// short.
pub open spec fn complete(data: Seq<u8>) -> bool {
    data.len() >= HEADER && rows_at(data) <= data.len() && upper_in(data) is Some
}

/// How many links there are: all of them, or those that lie within the bytes.
pub open spec fn links_in(data: Seq<u8>) -> nat {
    if upper_at(data) <= data.len() {
        (vector_total(data) * row_len(data)) as nat
    } else {
        ((data.len() - rows_at(data)) / 4) as nat
    }
}

/// Whether `idx` is the graph in the bytes.
pub open spec fn reads_as(data: Seq<u8>, idx: StaticHNSW) -> bool {
    let n = vector_total(data);
    &&& idx.vectors@.len() == n
    &&& bvecs_at(idx.vectors@, data, HEADER as int)
    &&& idx.labels@ == data.subrange(labels_at(data), labels_at(data) + n)
    &&& idx.links0@ == ids_at(data, rows_at(data), links_in(data))
    &&& idx.m_max0 == row_len(data)
    &&& idx.max_level == num4(data, 20)
    &&& idx.entry == num4(data, 24)
    &&& idx.ef_search == num4(data, 28)
    &&& idx.k == num4(data, 32)
    &&& upper_in(data) == Some(plain_upper(idx.upper@))
}

/// Reads so many numbers.
fn get_ids(data: &[u8], at: usize, count: usize) -> (ids: Vec<u32>)
    requires
        at + 4 * count <= data@.len(),
    ensures
        ids@ == ids_at(data@, at as int, count as nat),
{
    let len: usize = data.len();
    let mut ids: Vec<u32> = Vec::new();
    let mut i: usize = 0;
    while i < count
        invariant
            i <= count,
            len == data@.len(),
            at + 4 * count <= len,
            ids@.len() == i,
            forall|j: int| 0 <= j < i ==> #[trigger] ids@[j] == num4(data@, at + 4 * j),
        decreases count - i,
    {
        ids.push(get_u32(data, at + 4 * i));
        i = i + 1;
    }
    assert(ids@ =~= ids_at(data@, at as int, count as nat));
    ids
}

/// Reads so many lists, and where they end.
fn get_lists(data: &[u8], at: usize, count: u32) -> (r: Option<(Vec<Vec<u32>>, usize)>)
    requires
        at <= data@.len(),
    ensures
        r matches Some((lists, e)) ==> lists_at(data@, at as int, count as nat) == Some(
            (plain_lists(lists@), e as int),
        ) && e <= data@.len(),
        r is None ==> lists_at(data@, at as int, count as nat) is None,
{
    let len: usize = data.len();
    let mut lists: Vec<Vec<u32>> = Vec::new();
    let mut p: usize = at;
    let mut left: u32 = count;
    proof {
        match lists_at(data@, at as int, count as nat) {
            Some((rest, e)) => {
                assert(plain_lists(lists@) + rest =~= rest);
            },
            None => {},
        }
    }
    while left > 0
        invariant
            len == data@.len(),
            p <= len,
            lists_at(data@, at as int, count as nat) == match lists_at(
                data@,
                p as int,
                left as nat,
            ) {
                Some((rest, e)) => Some((plain_lists(lists@) + rest, e)),
                None => None,
            },
        decreases left,
    {
        if len - p < 4 {
            return None;
        }
        let size = get_u32(data, p);
        if 4 + 4 * (size as u64) > (len - p) as u64 {
            return None;
        }
        let ghost before = plain_lists(lists@);
        let ids = get_ids(data, p + 4, size as usize);
        lists.push(ids);
        proof {
            assert(plain_lists(lists@) =~= before.push(ids@));
            match lists_at(data@, p + 4 + 4 * size, (left - 1) as nat) {
                Some((rest, e)) => {
                    assert(before + (seq![ids@] + rest) =~= before.push(ids@) + rest);
                },
                None => {},
            }
        }
        p = p + 4 + 4 * size as usize;
        left = left - 1;
    }
    proof {
        assert(plain_lists(lists@) + Seq::<Seq<u32>>::empty() =~= plain_lists(lists@));
    }
    Some((lists, p))
}

/// Reads so many nodes on upper layers.
fn get_nodes(data: &[u8], at: usize, count: u32) -> (r: Option<HashMap<u32, Vec<Vec<u32>>>>)
    requires
        at <= data@.len(),
    ensures
        nodes_at(data@, at as int, count as nat, Map::empty()) == match r {
            Some(upper) => Some(plain_upper(upper@)),
            None => None,
        },
{
    let len: usize = data.len();
    let mut upper: HashMap<u32, Vec<Vec<u32>>> = HashMap::new();
    let mut p: usize = at;
    let mut left: u32 = count;
    assert(plain_upper(upper@) =~= Map::empty());
    while left > 0
        invariant
            len == data@.len(),
            p <= len,
            nodes_at(data@, at as int, count as nat, Map::empty()) == nodes_at(
                data@,
                p as int,
                left as nat,
                plain_upper(upper@),
            ),
        decreases left,
    {
        if len - p < 8 {
            return None;
        }
        let id = get_u32(data, p);
        let layers = get_u32(data, p + 4);
        match get_lists(data, p + 8, layers) {
            Some((lists, e)) => {
                let ghost before = plain_upper(upper@);
                upper.insert(id, lists);
                assert(plain_upper(upper@) =~= before.insert(id, plain_lists(lists@)));
                p = e;
            },
            None => {
                return None;
            },
        }
        left = left - 1;
    }
    Some(upper)
}

impl StaticHNSW {
    /// The graph in the bytes of a file. Where the bytes end inside the rows the
    /// graph has the links that are there, and is not valid.
    pub fn load(data: &[u8]) -> (res: Result<StaticHNSW, LoadError>)
        ensures
            res is Ok <==> has_magic(data@) && has_version(data@) && complete(data@),
            res matches Ok(idx) ==> reads_as(data@, idx),
            res matches Err(LoadError::BadMagic) <==> data@.len() >= 4 && !has_magic(data@),
            res matches Err(LoadError::BadVersion) <==> has_magic(data@) && data@.len() > 4
                && !has_version(data@),
    {
        let len: usize = data.len();
        if len < 4 {
            return Err(LoadError::Truncated);
        }
        if !starts_with(data, MAGIC.as_slice()) {
            return Err(LoadError::BadMagic);
        }
        if len < 5 {
            return Err(LoadError::Truncated);
        }
        if data[4] != VERSION[0] {
            return Err(LoadError::BadVersion);
        }
        if len < HEADER {
            return Err(LoadError::Truncated);
        }
        let total = get_u64(data, 8);
        let m = get_u32(data, 16);
        let max_level = get_u32(data, 20);
        let entry = get_u32(data, 24);
        let ef_search = get_u32(data, 28);
        let k = get_u32(data, 32);
        let upper_cnt = get_u32(data, 36);
        proof {
            assert(0 <= total * m <= 0xffff_ffff_ffff_ffff * 0xffff_ffff) by (nonlinear_arith)
                requires
                    0 <= total <= 0xffff_ffff_ffff_ffff,
                    0 <= m <= 0xffff_ffff,
            ;
        }
        let links: u128 = total as u128 * m as u128;
        let l_off: u128 = 48 + 16 * (total as u128);
        let l_end: u128 = l_off + total as u128;
        let r_off: u128 = l_end + (4 - l_end % 4) % 4;
        let u_off: u128 = r_off + 4 * links;
        if r_off > len as u128 {
            return Err(LoadError::Truncated);
        }
        let n: usize = total as usize;
        let upper: HashMap<u32, Vec<Vec<u32>>> = if upper_cnt == 0 {
            HashMap::new()
        } else if u_off > len as u128 {
            return Err(LoadError::Truncated);
        } else {
            match get_nodes(data, u_off as usize, upper_cnt) {
                Some(upper) => upper,
                None => {
                    return Err(LoadError::Truncated);
                },
            }
        };
        assert(upper_cnt == 0 ==> plain_upper(upper@) =~= Map::empty());
        let present: usize = if u_off <= len as u128 {
            links as usize
        } else {
            (len - r_off as usize) / 4
        };
        let vectors = get_bvecs(data, HEADER, n);
        let mut labels: Vec<u8> = Vec::new();
        put_bytes(
            &mut labels,
            vstd::slice::slice_subrange(data, l_off as usize, l_end as usize),
        );
        assert(labels@ =~= data@.subrange(labels_at(data@), labels_at(data@) + n));
        let links0 = get_ids(data, r_off as usize, present);
        Ok(
            StaticHNSW {
                vectors,
                labels,
                links0,
                m_max0: m as usize,
                upper,
                entry,
                max_level: max_level as usize,
                ef_search: ef_search as usize,
                k: k as usize,
            },
        )
    }
}

} // verus!
