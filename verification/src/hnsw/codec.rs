//! The file format of a finished graph.
//!
//! All numbers are little-endian. A head of 48 bytes (magic bytes, version, how
//! many vectors, links per row, highest layer, entry, nodes per query, voters,
//! how many nodes are on upper layers) is followed by the vectors, the labels,
//! padding to a multiple of four, the rows of the lowest layer, and for each
//! node on upper layers its id, how many layers, and per layer how many links
//! and the links.

use vstd::prelude::*;

use crate::bvecs::{bvecs_bytes, put_bvecs};
use crate::bytes::{flat, le4, le8, lemma_flat_none, lemma_flat_push, put_bytes, put_u32, put_u64};
use crate::hnsw::graph::plain_lists;
use crate::hnsw::index::StaticHNSW;

verus! {

broadcast use {crate::bytes::group_le_lens, vstd::std_specs::hash::group_hash_axioms};

/// The first bytes of a graph: "HNSW".
pub const MAGIC: [u8; 4] = [0x48, 0x4e, 0x53, 0x57];

/// The version of the format, in four bytes.
pub const VERSION: [u8; 4] = [2, 0, 0, 0];

/// Eight bytes that say nothing.
pub const RESERVED: [u8; 8] = [0, 0, 0, 0, 0, 0, 0, 0];

/// Where the vectors start.
pub const HEADER: usize = 48;

/// Why bytes are no graph.
#[derive(Clone, Copy, PartialEq, Eq, Structural, Debug)]
pub enum LoadError {
    /// They do not begin with the magic bytes.
    BadMagic,
    /// They are of another version.
    BadVersion,
    /// They end before what they announce.
    Truncated,
}

/// The bytes of several numbers.
pub open spec fn ids_bytes(ids: Seq<u32>) -> Seq<u8> {
    flat(ids, |x: u32| le4(x as int))
}

/// The bytes of the links on one layer. A count that does not fit in four
/// bytes loses its upper part.
pub open spec fn list_bytes(list: Seq<u32>) -> Seq<u8> {
    le4(list.len() as int % 0x1_0000_0000) + ids_bytes(list)
}

/// The bytes of the links on several layers.
pub open spec fn lists_bytes(lists: Seq<Seq<u32>>) -> Seq<u8> {
    flat(lists, |l: Seq<u32>| list_bytes(l))
}

/// The bytes of a node on upper layers.
pub open spec fn node_bytes(id: u32, lists: Seq<Seq<u32>>) -> Seq<u8> {
    le4(id as int) + (le4(lists.len() as int % 0x1_0000_0000) + lists_bytes(lists))
}

/// The links of the upper layers, without the places where they are kept.
pub open spec fn plain_upper(upper: Map<u32, Vec<Vec<u32>>>) -> Map<u32, Seq<Seq<u32>>> {
    upper.map_values(|lists: Vec<Vec<u32>>| plain_lists(lists@))
}

/// The ids below `n` that are on upper layers, in order.
pub open spec fn keys_below(upper: Map<u32, Seq<Seq<u32>>>, n: nat) -> Seq<u32>
    decreases n,
{
    if n == 0 {
        Seq::empty()
    } else if upper.contains_key((n - 1) as u32) {
        keys_below(upper, (n - 1) as nat).push((n - 1) as u32)
    } else {
        keys_below(upper, (n - 1) as nat)
    }
}

/// The bytes of several nodes on upper layers.
pub open spec fn nodes_bytes(upper: Map<u32, Seq<Seq<u32>>>, keys: Seq<u32>) -> Seq<u8> {
    flat(keys, |k: u32| node_bytes(k, upper[k]))
}

/// How many bytes are missing to a multiple of four.
pub open spec fn padding(at: int) -> int {
    (4 - at % 4) % 4
}

/// The head of a file. A number that does not fit in four bytes loses its
/// upper part.
#[verifier::opaque]
pub open spec fn head_bytes(idx: StaticHNSW, upper_count: int) -> Seq<u8> {
    MAGIC@ + (VERSION@ + (le8(idx.vectors@.len() as int) + (le4(
        idx.m_max0 as int % 0x1_0000_0000,
    ) + (le4(idx.max_level as int % 0x1_0000_0000) + (le4(idx.entry as int) + (le4(
        idx.ef_search as int % 0x1_0000_0000,
    ) + (le4(idx.k as int % 0x1_0000_0000) + (le4(upper_count % 0x1_0000_0000)
        + RESERVED@))))))))
}

/// The bytes of a graph.
pub open spec fn file_bytes(idx: StaticHNSW) -> Seq<u8> {
    let n = idx.vectors@.len();
    let upper = plain_upper(idx.upper@);
    let keys = keys_below(upper, n);
    head_bytes(idx, keys.len() as int) + (bvecs_bytes(idx.vectors@) + (idx.labels@ + (Seq::new(
        padding(HEADER + 17 * n) as nat,
        |i: int| 0u8,
    ) + (ids_bytes(idx.links0@) + nodes_bytes(upper, keys)))))
}

/// Whether a graph can be written: a label and a row for each vector, and upper
/// layers of these only.
pub open spec fn writable(idx: StaticHNSW) -> bool {
    let n = idx.vectors@.len();
    &&& n <= u32::MAX
    &&& idx.labels@.len() == n
    &&& idx.links0@.len() == n * idx.m_max0
    &&& forall|key: u32| #[trigger] idx.upper@.contains_key(key) ==> key < n
}

/// Appends the bytes of several numbers.
fn put_ids(out: &mut Vec<u8>, ids: &Vec<u32>)
    ensures
        final(out)@ == old(out)@ + ids_bytes(ids@),
{
    let ghost before = out@;
    let ghost f = |x: u32| le4(x as int);
    let mut i: usize = 0;
    proof {
        lemma_flat_none(ids@, f);
        assert(before + Seq::<u8>::empty() =~= before);
    }
    while i < ids.len()
        invariant
            i <= ids@.len(),
            f == (|x: u32| le4(x as int)),
            out@ == before + flat(ids@.take(i as int), f),
        decreases ids@.len() - i,
    {
        put_u32(out, ids[i]);
        proof {
            lemma_flat_push(ids@, f, i as int);
            assert(out@ =~= before + flat(ids@.take(i + 1), f));
        }
        i = i + 1;
    }
    proof {
        lemma_flat_none(ids@, f);
    }
}

/// Appends the bytes of a node on upper layers.
fn put_node(out: &mut Vec<u8>, id: u32, lists: &Vec<Vec<u32>>)
    ensures
        final(out)@ == old(out)@ + node_bytes(id, plain_lists(lists@)),
{
    let ghost start = out@;
    let ghost all = plain_lists(lists@);
    let ghost f = |l: Seq<u32>| list_bytes(l);
    put_u32(out, id);
    put_u32(out, (lists.len() as u64 % 0x1_0000_0000) as u32);
    let ghost before = out@;
    let mut i: usize = 0;
    proof {
        lemma_flat_none(all, f);
        assert(before + Seq::<u8>::empty() =~= before);
    }
    while i < lists.len()
        invariant
            i <= lists@.len(),
            all == plain_lists(lists@),
            f == (|l: Seq<u32>| list_bytes(l)),
            out@ == before + flat(all.take(i as int), f),
        decreases lists@.len() - i,
    {
        put_u32(out, (lists[i].len() as u64 % 0x1_0000_0000) as u32);
        put_ids(out, &lists[i]);
        proof {
            lemma_flat_push(all, f, i as int);
            assert(all[i as int] == lists@[i as int]@);
            assert(out@ =~= before + flat(all.take(i + 1), f));
        }
        i = i + 1;
    }
    proof {
        lemma_flat_none(all, f);
        assert(out@ =~= start + node_bytes(id, all));
    }
}

impl StaticHNSW {
    /// The ids of the nodes on upper layers, in order.
    pub fn upper_keys(&self) -> (keys: Vec<u32>)
        requires
            self.vectors@.len() <= u32::MAX,
        ensures
            keys@ == keys_below(plain_upper(self.upper@), self.vectors@.len()),
    {
        let n: usize = self.vectors.len();
        let mut keys: Vec<u32> = Vec::new();
        let mut i: usize = 0;
        while i < n
            invariant
                i <= n,
                n == self.vectors@.len(),
                n <= u32::MAX,
                keys@ == keys_below(plain_upper(self.upper@), i as nat),
            decreases n - i,
        {
            let key: u32 = i as u32;
            if self.upper.contains_key(&key) {
                keys.push(key);
            }
            i = i + 1;
        }
        keys
    }

    /// Appends the head of a file.
    fn put_head(&self, out: &mut Vec<u8>, upper_count: usize)
        ensures
            final(out)@ == old(out)@ + head_bytes(*self, upper_count as int),
    {
        let ghost start = out@;
        put_bytes(out, MAGIC.as_slice());
        put_bytes(out, VERSION.as_slice());
        put_u64(out, self.vectors.len() as u64);
        put_u32(out, (self.m_max0 as u64 % 0x1_0000_0000) as u32);
        put_u32(out, (self.max_level as u64 % 0x1_0000_0000) as u32);
        put_u32(out, self.entry);
        put_u32(out, (self.ef_search as u64 % 0x1_0000_0000) as u32);
        put_u32(out, (self.k as u64 % 0x1_0000_0000) as u32);
        put_u32(out, (upper_count as u64 % 0x1_0000_0000) as u32);
        put_bytes(out, RESERVED.as_slice());
        proof {
            reveal(head_bytes);
            assert(out@ =~= start + head_bytes(*self, upper_count as int));
        }
    }

    /// The bytes of the graph as they stand in a file.
    pub fn save(&self) -> (out: Vec<u8>)
        requires
            writable(*self),
        ensures
            out@ == file_bytes(*self),
    {
        let n: usize = self.vectors.len();
        let ghost upper = plain_upper(self.upper@);
        let keys = self.upper_keys();
        let mut out: Vec<u8> = Vec::new();
        self.put_head(&mut out, keys.len());
        put_bvecs(&mut out, &self.vectors);
        put_bytes(&mut out, self.labels.as_slice());
        let ghost top = out@;
        let pad: u64 = (4 - (48 + 17 * (n as u64)) % 4) % 4;
        let ghost zeros = Seq::new(padding(HEADER + 17 * n) as nat, |i: int| 0u8);
        let mut p: u64 = 0;
        assert(zeros.take(0) =~= Seq::empty());
        assert(top + Seq::<u8>::empty() =~= top);
        while p < pad
            invariant
                p <= pad,
                zeros.len() == pad,
                forall|i: int| 0 <= i < zeros.len() ==> #[trigger] zeros[i] == 0,
                out@ == top + zeros.take(p as int),
            decreases pad - p,
        {
            out.push(0);
            assert(zeros.take(p + 1) =~= zeros.take(p as int).push(0));
            assert(out@ =~= top + zeros.take(p + 1));
            p = p + 1;
        }
        assert(zeros.take(pad as int) =~= zeros);
        put_ids(&mut out, &self.links0);
        let ghost mid = out@;
        let ghost f = |k: u32| node_bytes(k, upper[k]);
        let mut i: usize = 0;
        proof {
            lemma_flat_none(keys@, f);
            assert(mid + Seq::<u8>::empty() =~= mid);
            lemma_keys_below(upper, n as nat);
        }
        while i < keys.len()
            invariant
                i <= keys@.len(),
                upper == plain_upper(self.upper@),
                f == (|k: u32| node_bytes(k, upper[k])),
                forall|j: int|
                    0 <= j < keys@.len() ==> upper.contains_key(#[trigger] keys@[j]),
                out@ == mid + flat(keys@.take(i as int), f),
            decreases keys@.len() - i,
        {
            let key: u32 = keys[i];
            assert(upper.contains_key(keys@[i as int]));
            match self.upper.get(&key) {
                Some(lists) => {
                    put_node(&mut out, key, lists);
                },
                None => {},
            }
            proof {
                lemma_flat_push(keys@, f, i as int);
                assert(out@ =~= mid + flat(keys@.take(i + 1), f));
            }
            i = i + 1;
        }
        proof {
            lemma_flat_none(keys@, f);
            assert(out@ =~= file_bytes(*self));
        }
        out
    }
}

/// The ids on upper layers are those of the map, each once.
pub proof fn lemma_keys_below(upper: Map<u32, Seq<Seq<u32>>>, n: nat)
    requires
        n <= 0x1_0000_0000,
    ensures
        forall|i: int|
            0 <= i < keys_below(upper, n).len() ==> upper.contains_key(
                #[trigger] keys_below(upper, n)[i],
            ) && keys_below(upper, n)[i] < n,
        forall|key: u32|
            key < n && upper.contains_key(key) ==> #[trigger] keys_below(upper, n).contains(key),
        keys_below(upper, n).no_duplicates(),
        keys_below(upper, n).len() <= n,
    decreases n,
{
    if n > 0 {
        let m = (n - 1) as nat;
        let before = keys_below(upper, m);
        lemma_keys_below(upper, m);
        assert forall|key: u32| key < n && upper.contains_key(key) implies #[trigger] keys_below(
            upper,
            n,
        ).contains(key) by {
            if key < m {
                assert(before.contains(key));
                let i = choose|i: int| 0 <= i < before.len() && before[i] == key;
                assert(keys_below(upper, n)[i] == key);
            } else {
                let all = keys_below(upper, n);
                assert(all[all.len() - 1] == key);
            }
        }
    }
}

} // verus!
