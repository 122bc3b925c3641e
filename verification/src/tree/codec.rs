//! The file format of a tree index.
//!
//! All numbers are little-endian. The file holds the magic bytes, a head of 16
//! bytes for each partition (root, then how many nodes, vector values and
//! labels it owns), every node in 80 bytes, every vector value in two, and the
//! labels.
use vstd::prelude::*;

use crate::bytes::{
    flat, get_i16, get_i32, get_u32, holds_at, le2, le4, lemma_flat_at, lemma_flat_none,
    lemma_flat_push, lemma_holds_all, lemma_holds_bounds, lemma_holds_byte, lemma_holds_parts,
    lemma_holds_within, lemma_num2_of_le2, lemma_num4_of_le4, num2, num4, number_at,
    numbers_are_little_endian, put_bytes, put_i16, put_i32, put_u32, starts_with, unwrap, wrap, begins_with,
};
use crate::tree::grow::plain_all;
use crate::tree::index::{
    answer, built_from, built_index_holds_the_records, empty_index_is_empty, lemma_offsets, routed, Point,
    TreeIndex, NUM_PARTS,
};
use crate::tree::kernel::QVec;
use crate::tree::model::{hits, Node};
use crate::types::RawData;

verus! {

broadcast use crate::bytes::group_le_lens;

/// The first bytes of a tree index: "KDTR0001".
pub const MAGIC: [u8; 8] = [0x4b, 0x44, 0x54, 0x52, 0x30, 0x30, 0x30, 0x31];

/// Where the nodes start.
pub const NODES_AT: usize = 136;

/// Bytes of a node.
pub const NODE_LEN: usize = 80;

/// Why bytes are no tree index.
#[derive(Clone, Copy, PartialEq, Eq, Structural, Debug)]
pub enum LoadError {
    /// They do not begin with the magic bytes.
    BadMagic,
    /// They end before what they announce.
    Truncated,
}

/// What a file says of one partition.
pub struct PartHead {
    pub root: i32,
    pub nodes: u32,
    pub vectors: u32,
    pub labels: u32,
}

/// The bytes of a signed two-byte number.
pub open spec fn i16_bytes(v: i16) -> Seq<u8> {
    le2(wrap(v as int, 0x1_0000))
}

/// The bytes of a vector.
pub open spec fn qvec_bytes(q: QVec) -> Seq<u8> {
    flat(q@, |v: i16| i16_bytes(v))
}

/// The bytes of a node.
pub open spec fn node_bytes(n: Node) -> Seq<u8> {
    le4(wrap(n.left as int, 0x1_0000_0000)) + (le4(wrap(n.right as int, 0x1_0000_0000)) + (le4(
        n.start as int,
    ) + (le4(n.count as int) + (qvec_bytes(n.min) + qvec_bytes(n.max)))))
}

/// The bytes of a partition's head.
pub open spec fn head_bytes(h: PartHead) -> Seq<u8> {
    le4(wrap(h.root as int, 0x1_0000_0000)) + (le4(h.nodes as int) + (le4(h.vectors as int) + le4(
        h.labels as int,
    )))
}

/// The heads of the partitions. A count that does not fit in four bytes loses
/// its upper part.
pub open spec fn heads(idx: TreeIndex) -> Seq<PartHead> {
    Seq::new(
        NUM_PARTS as nat,
        |p: int|
            PartHead {
                root: idx.roots[p],
                nodes: ((idx.node_off[p + 1] - idx.node_off[p]) % 0x1_0000_0000) as u32,
                vectors: ((idx.vec_off[p + 1] - idx.vec_off[p]) % 0x1_0000_0000) as u32,
                labels: ((idx.lbl_off[p + 1] - idx.lbl_off[p]) % 0x1_0000_0000) as u32,
            },
    )
}

/// The bytes of an index.
pub open spec fn file_bytes(idx: TreeIndex) -> Seq<u8> {
    MAGIC@ + (flat(heads(idx), |h: PartHead| head_bytes(h)) + (flat(
        idx.nodes@,
        |n: Node| node_bytes(n),
    ) + (flat(idx.vectors@, |v: i16| i16_bytes(v)) + idx.labels@)))
}

/// Appends the bytes of a vector.
fn put_qvec(out: &mut Vec<u8>, q: &QVec)
    ensures
        final(out)@ == old(out)@ + qvec_bytes(*q),
{
    let ghost before = out@;
    let ghost f = |v: i16| i16_bytes(v);
    let mut i: usize = 0;
    proof {
        lemma_flat_none(q@, f);
    }
    while i < 16
        invariant
            i <= 16,
            f == (|v: i16| i16_bytes(v)),
            out@ == before + flat(q@.take(i as int), f),
        decreases 16 - i,
    {
        put_i16(out, q[i]);
        proof {
            lemma_flat_push(q@, f, i as int);
            assert(before + flat(q@.take(i as int), f) + f(q@[i as int]) =~= before + flat(
                q@.take(i + 1),
                f,
            ));
        }
        i = i + 1;
    }
    assert(q@.take(16) =~= q@);
}

/// Appends the bytes of a node.
fn put_node(out: &mut Vec<u8>, n: &Node)
    ensures
        final(out)@ == old(out)@ + node_bytes(*n),
{
    put_i32(out, n.left);
    put_i32(out, n.right);
    put_u32(out, n.start);
    put_u32(out, n.count);
    put_qvec(out, &n.min);
    put_qvec(out, &n.max);
    assert(out@ =~= old(out)@ + node_bytes(*n));
}

impl TreeIndex {
    /// The bytes of the index as they stand in a file.
    pub fn save(&self) -> (out: Vec<u8>)
        requires
            self.divided(),
        ensures
            out@ == file_bytes(*self),
    {
        let mut out: Vec<u8> = Vec::new();
        put_bytes(&mut out, MAGIC.as_slice());
        assert(out@ =~= MAGIC@);
        let ghost fh = |h: PartHead| head_bytes(h);
        let ghost fnode = |n: Node| node_bytes(n);
        let ghost fv = |v: i16| i16_bytes(v);
        proof {
            lemma_flat_none(heads(*self), fh);
            lemma_flat_none(self.nodes@, fnode);
            lemma_flat_none(self.vectors@, fv);
        }
        let mut p: usize = 0;
        while p < NUM_PARTS
            invariant
                p <= NUM_PARTS,
                self.divided(),
                fh == (|h: PartHead| head_bytes(h)),
                out@ == MAGIC@ + flat(heads(*self).take(p as int), fh),
            decreases NUM_PARTS - p,
        {
            let ghost before = out@;
            assert(self.node_off@[p as int] <= self.node_off@[p + 1]);
            assert(self.vec_off@[p as int] <= self.vec_off@[p + 1]);
            assert(self.lbl_off@[p as int] <= self.lbl_off@[p + 1]);
            let nc = (self.node_off[p + 1] - self.node_off[p]) as u64 % 0x1_0000_0000;
            let vl = (self.vec_off[p + 1] - self.vec_off[p]) as u64 % 0x1_0000_0000;
            let ll = (self.lbl_off[p + 1] - self.lbl_off[p]) as u64 % 0x1_0000_0000;
            put_i32(&mut out, self.roots[p]);
            put_u32(&mut out, nc as u32);
            put_u32(&mut out, vl as u32);
            put_u32(&mut out, ll as u32);
            proof {
                assert(out@ =~= before + fh(heads(*self)[p as int]));
                lemma_flat_push(heads(*self), fh, p as int);
                assert(out@ =~= MAGIC@ + flat(heads(*self).take(p + 1), fh));
            }
            p = p + 1;
        }
        assert(heads(*self).take(NUM_PARTS as int) =~= heads(*self));
        let ghost top = MAGIC@ + flat(heads(*self), fh);
        let mut i: usize = 0;
        assert(out@ =~= top + flat(self.nodes@.take(0), fnode));
        while i < self.nodes.len()
            invariant
                i <= self.nodes@.len(),
                fnode == (|n: Node| node_bytes(n)),
                out@ == top + flat(self.nodes@.take(i as int), fnode),
            decreases self.nodes@.len() - i,
        {
            put_node(&mut out, &self.nodes[i]);
            proof {
                lemma_flat_push(self.nodes@, fnode, i as int);
                assert(out@ =~= top + flat(self.nodes@.take(i + 1), fnode));
            }
            i = i + 1;
        }
        assert(self.nodes@.take(self.nodes@.len() as int) =~= self.nodes@);
        let ghost mid = top + flat(self.nodes@, fnode);
        let mut j: usize = 0;
        assert(out@ =~= mid + flat(self.vectors@.take(0), fv));
        while j < self.vectors.len()
            invariant
                j <= self.vectors@.len(),
                fv == (|v: i16| i16_bytes(v)),
                out@ == mid + flat(self.vectors@.take(j as int), fv),
            decreases self.vectors@.len() - j,
        {
            put_i16(&mut out, self.vectors[j]);
            proof {
                lemma_flat_push(self.vectors@, fv, j as int);
                assert(out@ =~= mid + flat(self.vectors@.take(j + 1), fv));
            }
            j = j + 1;
        }
        assert(self.vectors@.take(self.vectors@.len() as int) =~= self.vectors@);
        put_bytes(&mut out, self.labels.as_slice());
        assert(out@ =~= file_bytes(*self));
        out
    }
}

/// The signed two-byte number at `at`.
pub open spec fn i16_at(data: Seq<u8>, at: int) -> int {
    unwrap(num2(data, at), 0x1_0000)
}

/// The signed four-byte number at `at`.
pub open spec fn i32_at(data: Seq<u8>, at: int) -> int {
    unwrap(num4(data, at), 0x1_0000_0000)
}

/// Whether the vector at `at` is `q`.
pub open spec fn qvec_at(q: QVec, data: Seq<u8>, at: int) -> bool {
    forall|j: int| 0 <= j < 16 ==> #[trigger] q[j] == i16_at(data, at + 2 * j)
}

/// Whether the node at `at` is `n`.
pub open spec fn node_at(n: Node, data: Seq<u8>, at: int) -> bool {
    &&& n.left == i32_at(data, at)
    &&& n.right == i32_at(data, at + 4)
    &&& n.start == num4(data, at + 8)
    &&& n.count == num4(data, at + 12)
    &&& qvec_at(n.min, data, at + 16)
    &&& qvec_at(n.max, data, at + 48)
}

/// Field `field` of the head of partition `p`, counted from zero.
pub open spec fn head_num(data: Seq<u8>, p: int, field: int) -> int {
    num4(data, 8 + 16 * p + 4 * field)
}

/// The sum of one field over the heads of the first `p` partitions.
pub open spec fn head_sum(data: Seq<u8>, p: nat, field: int) -> int
    decreases p,
{
    if p == 0 {
        0
    } else {
        head_sum(data, (p - 1) as nat, field) + head_num(data, p - 1, field)
    }
}

/// Nodes that the heads announce.
pub open spec fn node_total(data: Seq<u8>) -> int {
    head_sum(data, NUM_PARTS as nat, 1)
}

/// Vector values that the heads announce.
pub open spec fn vec_total(data: Seq<u8>) -> int {
    head_sum(data, NUM_PARTS as nat, 2)
}

/// Labels that the heads announce.
pub open spec fn lbl_total(data: Seq<u8>) -> int {
    head_sum(data, NUM_PARTS as nat, 3)
}

/// Where the vector values start.
pub open spec fn vectors_at(data: Seq<u8>) -> int {
    NODES_AT + NODE_LEN * node_total(data)
}

/// Where the labels start.
pub open spec fn labels_at(data: Seq<u8>) -> int {
    vectors_at(data) + 2 * vec_total(data)
}

/// Whether the bytes are long enough for what they announce.
pub open spec fn complete(data: Seq<u8>) -> bool {
    data.len() >= NODES_AT && labels_at(data) + lbl_total(data) <= data.len()
}

/// Whether the bytes begin with the magic bytes of an index.
pub open spec fn has_magic(data: Seq<u8>) -> bool {
    begins_with(data, MAGIC@)
}

/// Whether `idx` is the index in the bytes.
pub open spec fn reads_as(data: Seq<u8>, idx: TreeIndex) -> bool {
    &&& forall|p: int| 0 <= p < NUM_PARTS ==> #[trigger] idx.roots[p] == i32_at(data, 8 + 16 * p)
    &&& forall|p: int|
        0 <= p <= NUM_PARTS ==> #[trigger] idx.node_off[p] == head_sum(data, p as nat, 1)
    &&& forall|p: int|
        0 <= p <= NUM_PARTS ==> #[trigger] idx.vec_off[p] == head_sum(data, p as nat, 2)
    &&& forall|p: int|
        0 <= p <= NUM_PARTS ==> #[trigger] idx.lbl_off[p] == head_sum(data, p as nat, 3)
    &&& idx.nodes@.len() == node_total(data)
    &&& forall|i: int|
        0 <= i < idx.nodes@.len() ==> node_at(
            #[trigger] idx.nodes@[i],
            data,
            NODES_AT + NODE_LEN * i,
        )
    &&& idx.vectors@.len() == vec_total(data)
    &&& forall|j: int|
        0 <= j < idx.vectors@.len() ==> #[trigger] idx.vectors@[j] == i16_at(
            data,
            vectors_at(data) + 2 * j,
        )
    &&& idx.labels@ == data.subrange(labels_at(data), labels_at(data) + lbl_total(data))
}

proof fn lemma_head_sum_bounds(data: Seq<u8>, p: nat, field: int)
    ensures
        0 <= head_sum(data, p, field) <= p * 0x1_0000_0000,
        p > 0 ==> head_sum(data, (p - 1) as nat, field) <= head_sum(data, p, field),
    decreases p,
{
    if p > 0 {
        lemma_head_sum_bounds(data, (p - 1) as nat, field);
    }
}

proof fn lemma_head_sum_mono(data: Seq<u8>, p: nat, q: nat, field: int)
    requires
        p <= q,
    ensures
        head_sum(data, p, field) <= head_sum(data, q, field),
    decreases q,
{
    if p < q {
        lemma_head_sum_mono(data, p, (q - 1) as nat, field);
        lemma_head_sum_bounds(data, q, field);
    }
}

/// Reads a vector.
fn get_qvec(data: &[u8], at: usize) -> (q: QVec)
    requires
        at + 32 <= data@.len(),
    ensures
        qvec_at(q, data@, at as int),
{
    let mut q: QVec = [0i16;16];
    let mut i: usize = 0;
    assert(data@.len() == data.len());
    while i < 16
        invariant
            i <= 16,
            at + 32 <= data.len(),
            data@.len() == data.len(),
            forall|j: int| 0 <= j < i ==> #[trigger] q[j] == i16_at(data@, at + 2 * j),
        decreases 16 - i,
    {
        q[i] = get_i16(data, at + 2 * i);
        i = i + 1;
    }
    q
}

/// Reads a node.
fn get_node(data: &[u8], at: usize) -> (n: Node)
    requires
        at + 80 <= data@.len(),
    ensures
        node_at(n, data@, at as int),
{
    assert(data@.len() == data.len());
    Node {
        left: get_i32(data, at),
        right: get_i32(data, at + 4),
        start: get_u32(data, at + 8),
        count: get_u32(data, at + 12),
        min: get_qvec(data, at + 16),
        max: get_qvec(data, at + 48),
    }
}

/// The running sums of one field over the heads of the partitions.
fn head_sums(data: &[u8], field: usize) -> (sums: [u64; 9])
    requires
        data@.len() >= NODES_AT,
        field < 4,
    ensures
        forall|p: int|
            0 <= p <= NUM_PARTS ==> #[trigger] sums[p] == head_sum(data@, p as nat, field as int),
{
    let mut sums: [u64; 9] = [0u64;9];
    let mut p: usize = 0;
    while p < NUM_PARTS
        invariant
            p <= NUM_PARTS,
            data@.len() >= NODES_AT,
            field < 4,
            forall|j: int|
                0 <= j <= p ==> #[trigger] sums[j] == head_sum(data@, j as nat, field as int),
        decreases NUM_PARTS - p,
    {
        let n = get_u32(data, 8 + 16 * p + 4 * field);
        proof {
            lemma_head_sum_bounds(data@, p as nat, field as int);
        }
        sums[p + 1] = sums[p] + n as u64;
        p = p + 1;
    }
    sums
}

/// Running sums as offsets, where the last one is.
fn to_offsets(sums: &[u64; 9], limit: usize) -> (off: [usize; 9])
    requires
        forall|p: int| 0 <= p <= NUM_PARTS ==> #[trigger] sums[p] <= limit,
    ensures
        forall|p: int| 0 <= p <= NUM_PARTS ==> #[trigger] off[p] == sums[p],
{
    let mut off: [usize; 9] = [0usize;9];
    let mut p: usize = 0;
    while p < 9
        invariant
            p <= 9,
            forall|j: int| 0 <= j <= NUM_PARTS ==> #[trigger] sums[j] <= limit,
            forall|j: int| 0 <= j < p ==> #[trigger] off[j] == sums[j],
        decreases 9 - p,
    {
        assert(sums[p as int] <= limit);
        off[p] = sums[p] as usize;
        p = p + 1;
    }
    off
}

impl TreeIndex {
    /// Reads an index from the bytes of a file. Bytes past its end are ignored.
    pub fn load(data: &[u8]) -> (res: Result<TreeIndex, LoadError>)
        ensures
            res is Ok <==> has_magic(data@) && complete(data@),
            res matches Ok(idx) ==> reads_as(data@, idx),
            res matches Err(LoadError::BadMagic) <==> data@.len() >= 8 && !has_magic(data@),
    {
        let len: usize = data.len();
        if len < 8 {
            return Err(LoadError::Truncated);
        }
        if !starts_with(data, MAGIC.as_slice()) {
            return Err(LoadError::BadMagic);
        }
        if len < NODES_AT {
            return Err(LoadError::Truncated);
        }
        let node_sums = head_sums(data, 1);
        let vec_sums = head_sums(data, 2);
        let lbl_sums = head_sums(data, 3);
        proof {
            lemma_head_sum_bounds(data@, 8, 1);
            lemma_head_sum_bounds(data@, 8, 2);
            lemma_head_sum_bounds(data@, 8, 3);
        }
        let vecs_at: u64 = 136 + 80 * node_sums[8];
        let lbls_at: u64 = vecs_at + 2 * vec_sums[8];
        let end: u64 = lbls_at + lbl_sums[8];
        if end > len as u64 {
            return Err(LoadError::Truncated);
        }
        let total_nodes: usize = node_sums[8] as usize;
        let total_vecs: usize = vec_sums[8] as usize;
        let total_lbls: usize = lbl_sums[8] as usize;
        let mut nodes: Vec<Node> = Vec::with_capacity(total_nodes);
        let mut i: usize = 0;
        while i < total_nodes
            invariant
                len == data@.len(),
                i <= total_nodes,
                136 + 80 * total_nodes <= len,
                nodes@.len() == i,
                forall|j: int|
                    0 <= j < i ==> node_at(#[trigger] nodes@[j], data@, NODES_AT + NODE_LEN * j),
            decreases total_nodes - i,
        {
            let n = get_node(data, NODES_AT + NODE_LEN * i);
            nodes.push(n);
            i = i + 1;
        }
        let vecs_at: usize = vecs_at as usize;
        let mut vectors: Vec<i16> = Vec::with_capacity(total_vecs);
        let mut j: usize = 0;
        while j < total_vecs
            invariant
                len == data@.len(),
                j <= total_vecs,
                vecs_at + 2 * total_vecs <= len,
                vectors@.len() == j,
                forall|k: int|
                    0 <= k < j ==> #[trigger] vectors@[k] == i16_at(data@, vecs_at + 2 * k),
            decreases total_vecs - j,
        {
            vectors.push(get_i16(data, vecs_at + 2 * j));
            j = j + 1;
        }
        let lbls_at: usize = lbls_at as usize;
        let tail = vstd::slice::slice_subrange(data, lbls_at, lbls_at + total_lbls);
        let labels = vstd::slice::slice_to_vec(tail);
        let mut roots: [i32; 8] = [-1i32;8];
        let mut p: usize = 0;
        while p < NUM_PARTS
            invariant
                len == data@.len(),
                len >= NODES_AT,
                p <= NUM_PARTS,
                forall|q: int| 0 <= q < p ==> #[trigger] roots[q] == i32_at(data@, 8 + 16 * q),
            decreases NUM_PARTS - p,
        {
            roots[p] = get_i32(data, 8 + 16 * p);
            p = p + 1;
        }
        proof {
            assert forall|p: int| 0 <= p <= NUM_PARTS implies #[trigger] node_sums[p] <= len by {
                lemma_head_sum_mono(data@, p as nat, 8, 1);
            }
            assert forall|p: int| 0 <= p <= NUM_PARTS implies #[trigger] vec_sums[p] <= len by {
                lemma_head_sum_mono(data@, p as nat, 8, 2);
            }
            assert forall|p: int| 0 <= p <= NUM_PARTS implies #[trigger] lbl_sums[p] <= len by {
                lemma_head_sum_mono(data@, p as nat, 8, 3);
            }
        }
        let node_off = to_offsets(&node_sums, len);
        let vec_off = to_offsets(&vec_sums, len);
        let lbl_off = to_offsets(&lbl_sums, len);
        Ok(TreeIndex { nodes, node_off, roots, vectors, vec_off, labels, lbl_off })
    }
}

/// Whether every partition's counts fit in the four bytes that a file has for
/// them.
pub open spec fn fits_file(idx: TreeIndex) -> bool {
    forall|p: int|
        0 <= p < NUM_PARTS ==> {
            &&& #[trigger] idx.node_off[p + 1] - idx.node_off[p] < 0x1_0000_0000
            &&& idx.vec_off[p + 1] - idx.vec_off[p] < 0x1_0000_0000
            &&& idx.lbl_off[p + 1] - idx.lbl_off[p] < 0x1_0000_0000
        }
}

/// Whether two indexes hold the same.
pub open spec fn same_index(a: TreeIndex, b: TreeIndex) -> bool {
    &&& a.nodes@ == b.nodes@
    &&& a.node_off == b.node_off
    &&& a.roots == b.roots
    &&& a.vectors@ == b.vectors@
    &&& a.vec_off == b.vec_off
    &&& a.labels@ == b.labels@
    &&& a.lbl_off == b.lbl_off
}

proof fn lemma_qvec_back(q: QVec, r: QVec, data: Seq<u8>, at: int)
    requires
        holds_at(data, at, qvec_bytes(q)),
        qvec_at(r, data, at),
    ensures
        q == r,
{
    let f = |v: i16| i16_bytes(v);
    lemma_flat_at(q@, f, 2);
    assert forall|j: int| 0 <= j < 16 implies q@[j] == r@[j] by {
        assert(holds_at(flat(q@, f), 2 * j, f(q@[j])));
        lemma_holds_within(data, at, flat(q@, f), 2 * j, f(q@[j]));
        lemma_num2_of_le2(data, at + 2 * j, wrap(q@[j] as int, 0x1_0000));
        assert(r[j] == i16_at(data, at + 2 * j));
    }
    assert(q@ =~= r@);
    assert(q =~= r);
}

proof fn lemma_node_back(n: Node, m: Node, data: Seq<u8>, at: int)
    requires
        holds_at(data, at, node_bytes(n)),
        node_at(m, data, at),
    ensures
        n == m,
{
    let f = |v: i16| i16_bytes(v);
    lemma_flat_at(n.min@, f, 2);
    let a = le4(wrap(n.left as int, 0x1_0000_0000));
    let b = le4(wrap(n.right as int, 0x1_0000_0000));
    let c = le4(n.start as int);
    let d = le4(n.count as int);
    let e = qvec_bytes(n.min);
    let g = qvec_bytes(n.max);
    lemma_holds_parts(data, at, a, b + (c + (d + (e + g))));
    lemma_holds_parts(data, at + 4, b, c + (d + (e + g)));
    lemma_holds_parts(data, at + 8, c, d + (e + g));
    lemma_holds_parts(data, at + 12, d, e + g);
    lemma_holds_parts(data, at + 16, e, g);
    lemma_num4_of_le4(data, at, wrap(n.left as int, 0x1_0000_0000));
    lemma_num4_of_le4(data, at + 4, wrap(n.right as int, 0x1_0000_0000));
    lemma_num4_of_le4(data, at + 8, n.start as int);
    lemma_num4_of_le4(data, at + 12, n.count as int);
    lemma_qvec_back(n.min, m.min, data, at + 16);
    lemma_qvec_back(n.max, m.max, data, at + 48);
}

proof fn lemma_head_back(h: PartHead, data: Seq<u8>, p: int)
    requires
        holds_at(data, 8 + 16 * p, head_bytes(h)),
    ensures
        i32_at(data, 8 + 16 * p) == h.root,
        head_num(data, p, 1) == h.nodes,
        head_num(data, p, 2) == h.vectors,
        head_num(data, p, 3) == h.labels,
{
    let at = 8 + 16 * p;
    let a = le4(wrap(h.root as int, 0x1_0000_0000));
    let b = le4(h.nodes as int);
    let c = le4(h.vectors as int);
    let d = le4(h.labels as int);
    lemma_holds_parts(data, at, a, b + (c + d));
    lemma_holds_parts(data, at + 4, b, c + d);
    lemma_holds_parts(data, at + 8, c, d);
    lemma_num4_of_le4(data, at, wrap(h.root as int, 0x1_0000_0000));
    lemma_num4_of_le4(data, at + 4, h.nodes as int);
    lemma_num4_of_le4(data, at + 8, h.vectors as int);
    lemma_num4_of_le4(data, at + 12, h.labels as int);
}

proof fn lemma_sums_back(idx: TreeIndex, data: Seq<u8>, p: nat)
    requires
        idx.divided(),
        fits_file(idx),
        p <= NUM_PARTS,
        forall|j: int|
            0 <= j < NUM_PARTS ==> {
                &&& #[trigger] head_num(data, j, 1) == heads(idx)[j].nodes
                &&& head_num(data, j, 2) == heads(idx)[j].vectors
                &&& head_num(data, j, 3) == heads(idx)[j].labels
            },
    ensures
        head_sum(data, p, 1) == idx.node_off[p as int],
        head_sum(data, p, 2) == idx.vec_off[p as int],
        head_sum(data, p, 3) == idx.lbl_off[p as int],
    decreases p,
{
    if p > 0 {
        lemma_sums_back(idx, data, (p - 1) as nat);
        let j = p - 1;
        assert(head_num(data, j, 1) == heads(idx)[j].nodes);
        lemma_head_counts(idx, j);
    }
}

/// The head of a partition has its counts whole where they fit.
proof fn lemma_head_counts(idx: TreeIndex, j: int)
    requires
        idx.divided(),
        fits_file(idx),
        0 <= j < NUM_PARTS,
    ensures
        heads(idx)[j].nodes == idx.node_off[j + 1] - idx.node_off[j],
        heads(idx)[j].vectors == idx.vec_off[j + 1] - idx.vec_off[j],
        heads(idx)[j].labels == idx.lbl_off[j + 1] - idx.lbl_off[j],
{
    assert(idx.node_off[j + 1] - idx.node_off[j] < 0x1_0000_0000);
    assert(idx.node_off@[j] <= idx.node_off@[j + 1]);
    assert(idx.vec_off@[j] <= idx.vec_off@[j + 1]);
    assert(idx.lbl_off@[j] <= idx.lbl_off@[j + 1]);
}

/// Where the parts of a file lie.
proof fn lemma_sections(idx: TreeIndex)
    ensures
        ({
            let data = file_bytes(idx);
            let n = idx.nodes@.len();
            let v = idx.vectors@.len();
            &&& has_magic(data)
            &&& holds_at(data, 8, flat(heads(idx), |h: PartHead| head_bytes(h)))
            &&& holds_at(data, 136, flat(idx.nodes@, |x: Node| node_bytes(x)))
            &&& holds_at(data, (136 + 80 * n) as int, flat(idx.vectors@, |x: i16| i16_bytes(x)))
            &&& holds_at(data, (136 + 80 * n + 2 * v) as int, idx.labels@)
        }),
        forall|i: int|
            0 <= i < idx.nodes@.len() ==> node_bytes(#[trigger] idx.nodes@[i]).len() == 80,
{
    let data = file_bytes(idx);
    let fh = |h: PartHead| head_bytes(h);
    let fnode = |n: Node| node_bytes(n);
    let fv = |v: i16| i16_bytes(v);
    let a = flat(heads(idx), fh);
    let b = flat(idx.nodes@, fnode);
    let c = flat(idx.vectors@, fv);
    let d = idx.labels@;
    assert(data.take(8) =~= MAGIC@);
    lemma_holds_all(data);
    lemma_holds_parts(data, 0, MAGIC@, a + (b + (c + d)));
    lemma_holds_parts(data, 8, a, b + (c + d));
    lemma_flat_at(heads(idx), fh, 16);
    assert forall|i: int| 0 <= i < idx.nodes@.len() implies node_bytes(
        #[trigger] idx.nodes@[i],
    ).len() == 80 by {
        lemma_flat_at(idx.nodes@[i].min@, fv, 2);
        lemma_flat_at(idx.nodes@[i].max@, fv, 2);
    }
    lemma_flat_at(idx.nodes@, fnode, 80);
    lemma_flat_at(idx.vectors@, fv, 2);
    lemma_holds_parts(data, 136, b, c + d);
    lemma_holds_parts(data, (136 + b.len()) as int, c, d);
}

proof fn lemma_heads_back(idx: TreeIndex, p: int)
    requires
        0 <= p < NUM_PARTS,
    ensures
        ({
            let data = file_bytes(idx);
            &&& head_num(data, p, 1) == heads(idx)[p].nodes
            &&& head_num(data, p, 2) == heads(idx)[p].vectors
            &&& head_num(data, p, 3) == heads(idx)[p].labels
            &&& i32_at(data, 8 + 16 * p) == heads(idx)[p].root
        }),
{
    let data = file_bytes(idx);
    let fh = |h: PartHead| head_bytes(h);
    lemma_sections(idx);
    lemma_flat_at(heads(idx), fh, 16);
    assert(holds_at(flat(heads(idx), fh), 16 * p, fh(heads(idx)[p])));
    lemma_holds_within(data, 8, flat(heads(idx), fh), 16 * p, fh(heads(idx)[p]));
    lemma_head_back(heads(idx)[p], data, p);
}

proof fn lemma_all_sums_back(idx: TreeIndex)
    requires
        idx.divided(),
        fits_file(idx),
    ensures
        forall|p: int|
            0 <= p <= NUM_PARTS ==> {
                &&& #[trigger] head_sum(file_bytes(idx), p as nat, 1) == idx.node_off[p]
                &&& head_sum(file_bytes(idx), p as nat, 2) == idx.vec_off[p]
                &&& head_sum(file_bytes(idx), p as nat, 3) == idx.lbl_off[p]
            },
{
    let data = file_bytes(idx);
    assert forall|p: int| 0 <= p < NUM_PARTS implies {
        &&& #[trigger] head_num(data, p, 1) == heads(idx)[p].nodes
        &&& head_num(data, p, 2) == heads(idx)[p].vectors
        &&& head_num(data, p, 3) == heads(idx)[p].labels
    } by {
        lemma_heads_back(idx, p);
    }
    assert forall|p: int| 0 <= p <= NUM_PARTS implies {
        &&& #[trigger] head_sum(data, p as nat, 1) == idx.node_off[p]
        &&& head_sum(data, p as nat, 2) == idx.vec_off[p]
        &&& head_sum(data, p as nat, 3) == idx.lbl_off[p]
    } by {
        lemma_sums_back(idx, data, p as nat);
    }
}

proof fn lemma_totals_back(idx: TreeIndex)
    requires
        idx.divided(),
        fits_file(idx),
    ensures
        node_total(file_bytes(idx)) == idx.nodes@.len(),
        vec_total(file_bytes(idx)) == idx.vectors@.len(),
        lbl_total(file_bytes(idx)) == idx.labels@.len(),
{
    lemma_all_sums_back(idx);
    assert(head_sum(file_bytes(idx), 8int as nat, 1) == idx.node_off[8]);
}

proof fn lemma_nodes_back(idx: TreeIndex, back: TreeIndex)
    requires
        idx.divided(),
        fits_file(idx),
        reads_as(file_bytes(idx), back),
    ensures
        idx.nodes@ == back.nodes@,
{
    let data = file_bytes(idx);
    let fnode = |n: Node| node_bytes(n);
    let b = flat(idx.nodes@, fnode);
    lemma_sections(idx);
    lemma_totals_back(idx);
    lemma_flat_at(idx.nodes@, fnode, 80);
    assert forall|i: int| 0 <= i < idx.nodes@.len() implies idx.nodes@[i]
        == #[trigger] back.nodes@[i] by {
        assert(holds_at(b, 80 * i, fnode(idx.nodes@[i])));
        lemma_holds_within(data, 136, b, 80 * i, fnode(idx.nodes@[i]));
        lemma_node_back(idx.nodes@[i], back.nodes@[i], data, 136 + 80 * i);
    }
    assert(idx.nodes@ =~= back.nodes@);
}

proof fn lemma_vectors_back(idx: TreeIndex, back: TreeIndex)
    requires
        idx.divided(),
        fits_file(idx),
        reads_as(file_bytes(idx), back),
    ensures
        idx.vectors@ == back.vectors@,
        idx.labels@ == back.labels@,
{
    let data = file_bytes(idx);
    let fv = |v: i16| i16_bytes(v);
    let c = flat(idx.vectors@, fv);
    let d = idx.labels@;
    lemma_sections(idx);
    lemma_totals_back(idx);
    lemma_flat_at(idx.vectors@, fv, 2);
    let at = 136 + 80 * idx.nodes@.len();
    assert forall|j: int| 0 <= j < idx.vectors@.len() implies idx.vectors@[j]
        == #[trigger] back.vectors@[j] by {
        assert(holds_at(c, 2 * j, fv(idx.vectors@[j])));
        lemma_holds_within(data, at as int, c, 2 * j, fv(idx.vectors@[j]));
        lemma_num2_of_le2(data, at + 2 * j, wrap(idx.vectors@[j] as int, 0x1_0000));
    }
    assert(idx.vectors@ =~= back.vectors@);
    let end = at + 2 * idx.vectors@.len();
    lemma_holds_bounds(data, end as int, d);
    assert forall|j: int| 0 <= j < d.len() implies d[j] == #[trigger] back.labels@[j] by {
        lemma_holds_byte(data, end as int, d, j);
        assert(back.labels[j] == data[labels_at(data) + j]);
    }
    assert(idx.labels@ =~= back.labels@);
}

/// What is saved loads, and loads as the same index.
pub proof fn load_gives_back_save(idx: TreeIndex, back: TreeIndex)
    requires
        idx.divided(),
        fits_file(idx),
    ensures
        has_magic(file_bytes(idx)),
        complete(file_bytes(idx)),
        reads_as(file_bytes(idx), back) ==> same_index(idx, back),
{
    let data = file_bytes(idx);
    lemma_sections(idx);
    lemma_totals_back(idx);
    lemma_holds_bounds(
        data,
        (136 + 80 * idx.nodes@.len() + 2 * idx.vectors@.len()) as int,
        idx.labels@,
    );
    if reads_as(data, back) {
        lemma_all_sums_back(idx);
        assert forall|p: int| 0 <= p < 9 implies idx.node_off@[p] == #[trigger] back.node_off@[p]
            by {
            assert(back.node_off[p] == head_sum(data, p as nat, 1));
        }
        assert forall|p: int| 0 <= p < 9 implies idx.vec_off@[p] == #[trigger] back.vec_off@[p]
            by {
            assert(back.vec_off[p] == head_sum(data, p as nat, 2));
            assert(head_sum(data, p as nat, 1) == idx.node_off[p]);
        }
        assert forall|p: int| 0 <= p < 9 implies idx.lbl_off@[p] == #[trigger] back.lbl_off@[p]
            by {
            assert(back.lbl_off[p] == head_sum(data, p as nat, 3));
            assert(head_sum(data, p as nat, 1) == idx.node_off[p]);
        }
        assert forall|p: int| 0 <= p < 8 implies idx.roots@[p] == #[trigger] back.roots@[p] by {
            lemma_heads_back(idx, p);
            assert(back.roots[p] == i32_at(data, 8 + 16 * p));
        }
        assert(idx.node_off@ =~= back.node_off@ && idx.node_off =~= back.node_off);
        assert(idx.vec_off@ =~= back.vec_off@ && idx.vec_off =~= back.vec_off);
        assert(idx.lbl_off@ =~= back.lbl_off@ && idx.lbl_off =~= back.lbl_off);
        assert(idx.roots@ =~= back.roots@ && idx.roots =~= back.roots);
        lemma_nodes_back(idx, back);
        lemma_vectors_back(idx, back);
    }
}

/// An index that was built, saved and loaded answers from the records that it
/// was built from: those of a query's partition are what a prediction chooses
/// the nearest of.
pub proof fn loaded_index_answers_from_the_records(
    idx: TreeIndex,
    data: Seq<RawData<Point>>,
    back: TreeIndex,
    q: Seq<i16>,
    p: int,
)
    requires
        idx.wf(),
        built_from(idx, data),
        fits_file(idx),
        reads_as(file_bytes(idx), back),
        0 <= p < NUM_PARTS,
    ensures
        back.wf(),
        back.part_searchable(p),
        hits(q, back.part_entries(p)) == hits(q, plain_all(routed(data, data.len(), p))),
{
    load_gives_back_save(idx, back);
    built_index_holds_the_records(idx, data, q, p);
    assert forall|j: int| 0 <= j < NUM_PARTS implies #[trigger] back.part_ok(j) by {
        assert(idx.part_ok(j));
    }
}

/// An index that was saved and loaded answers as it did before.
pub proof fn loaded_index_answers_the_same(idx: TreeIndex, back: TreeIndex, v: Point)
    requires
        idx.wf(),
        fits_file(idx),
        reads_as(file_bytes(idx), back),
    ensures
        back.wf(),
        answer(back, v) == answer(idx, v),
{
    load_gives_back_save(idx, back);
    assert forall|j: int| 0 <= j < NUM_PARTS implies #[trigger] back.part_ok(j) by {
        assert(idx.part_ok(j));
    }
}

/// The file of an index of no records: the magic bytes, and for each partition
/// a root of -1 and nothing else.
pub proof fn file_of_an_empty_index(idx: TreeIndex)
    requires
        built_from(idx, Seq::empty()),
    ensures
        file_bytes(idx).len() == NODES_AT,
        file_bytes(idx).take(8) == MAGIC@,
        forall|p: int, k: int|
            0 <= p < NUM_PARTS && 0 <= k < 16 ==> #[trigger] file_bytes(idx)[8 + 16 * p + k] == if k
                < 4 {
                0xffu8
            } else {
                0u8
            },
{
    let data = file_bytes(idx);
    let fh = |h: PartHead| head_bytes(h);
    let a = flat(heads(idx), fh);
    let b = flat(idx.nodes@, |n: Node| node_bytes(n));
    let c = flat(idx.vectors@, |v: i16| i16_bytes(v));
    empty_index_is_empty(idx);
    lemma_flat_at(heads(idx), fh, 16);
    lemma_flat_none(idx.nodes@, |n: Node| node_bytes(n));
    lemma_flat_none(idx.vectors@, |v: i16| i16_bytes(v));
    assert(idx.nodes@.take(0) =~= idx.nodes@);
    assert(idx.vectors@.take(0) =~= idx.vectors@);
    assert(data =~= MAGIC@ + a);
    assert(data.take(8) =~= MAGIC@);
    assert forall|p: int, k: int| 0 <= p < NUM_PARTS && 0 <= k < 16 implies #[trigger] data[8 + 16
        * p + k] == if k < 4 {
        0xffu8
    } else {
        0u8
    } by {
        let h = heads(idx)[p];
        lemma_no_room(idx, p);
        assert(h.root == -1 && h.nodes == 0 && h.vectors == 0 && h.labels == 0);
        assert(holds_at(a, 16 * p, fh(h)));
        lemma_holds_byte(a, 16 * p, head_bytes(h), k);
        reveal(le4);
        reveal(le2);
        assert(data[8 + 16 * p + k] == a[16 * p + k]);
    }
}

proof fn lemma_no_room(idx: TreeIndex, p: int)
    requires
        built_from(idx, Seq::empty()),
        0 <= p < NUM_PARTS,
    ensures
        idx.roots[p] == -1,
        idx.node_off[p + 1] == idx.node_off[p],
        idx.vec_off[p + 1] == idx.vec_off[p],
        idx.lbl_off[p + 1] == idx.lbl_off[p],
{
    empty_index_is_empty(idx);
    lemma_offsets(idx.node_off@, 0, p);
    lemma_offsets(idx.node_off@, 0, p + 1);
    lemma_offsets(idx.vec_off@, 0, p);
    lemma_offsets(idx.vec_off@, 0, p + 1);
    lemma_offsets(idx.lbl_off@, 0, p);
    lemma_offsets(idx.lbl_off@, 0, p + 1);
}

/// A signed number as the unsigned one with the same bits.
pub open spec fn bits_of(x: int, span: int) -> int {
    if x < 0 {
        x + span
    } else {
        x
    }
}

/// Whether a node stands in the bytes from `at` on: its children, where its
/// blocks start and how many records it owns, and the two corners of its box.
pub open spec fn stands_at(n: Node, data: Seq<u8>, at: int) -> bool {
    &&& number_at(data, at, 4) == bits_of(n.left as int, 0x1_0000_0000)
    &&& number_at(data, at + 4, 4) == bits_of(n.right as int, 0x1_0000_0000)
    &&& number_at(data, at + 8, 4) == n.start
    &&& number_at(data, at + 12, 4) == n.count
    &&& forall|j: int|
        0 <= j < 16 ==> number_at(data, at + 16 + 2 * j, 2) == bits_of(
            #[trigger] n.min[j] as int,
            0x1_0000,
        )
    &&& forall|j: int|
        0 <= j < 16 ==> number_at(data, at + 48 + 2 * j, 2) == bits_of(
            #[trigger] n.max[j] as int,
            0x1_0000,
        )
}

proof fn lemma_value_stands(vs: Seq<i16>, data: Seq<u8>, at: int, j: int)
    requires
        holds_at(data, at, flat(vs, |v: i16| i16_bytes(v))),
        0 <= j < vs.len(),
    ensures
        number_at(data, at + 2 * j, 2) == bits_of(vs[j] as int, 0x1_0000),
{
    let f = |v: i16| i16_bytes(v);
    lemma_flat_at(vs, f, 2);
    assert(holds_at(flat(vs, f), 2 * j, f(vs[j])));
    lemma_holds_within(data, at, flat(vs, f), 2 * j, f(vs[j]));
    lemma_num2_of_le2(data, at + 2 * j, wrap(vs[j] as int, 0x1_0000));
    numbers_are_little_endian(data, at + 2 * j);
}

proof fn lemma_node_stands(n: Node, data: Seq<u8>, at: int)
    requires
        holds_at(data, at, node_bytes(n)),
    ensures
        stands_at(n, data, at),
{
    let f = |v: i16| i16_bytes(v);
    lemma_flat_at(n.min@, f, 2);
    let a = le4(wrap(n.left as int, 0x1_0000_0000));
    let b = le4(wrap(n.right as int, 0x1_0000_0000));
    let c = le4(n.start as int);
    let d = le4(n.count as int);
    let e = qvec_bytes(n.min);
    let g = qvec_bytes(n.max);
    lemma_holds_parts(data, at, a, b + (c + (d + (e + g))));
    lemma_holds_parts(data, at + 4, b, c + (d + (e + g)));
    lemma_holds_parts(data, at + 8, c, d + (e + g));
    lemma_holds_parts(data, at + 12, d, e + g);
    lemma_holds_parts(data, at + 16, e, g);
    lemma_num4_of_le4(data, at, wrap(n.left as int, 0x1_0000_0000));
    lemma_num4_of_le4(data, at + 4, wrap(n.right as int, 0x1_0000_0000));
    lemma_num4_of_le4(data, at + 8, n.start as int);
    lemma_num4_of_le4(data, at + 12, n.count as int);
    numbers_are_little_endian(data, at);
    numbers_are_little_endian(data, at + 4);
    numbers_are_little_endian(data, at + 8);
    numbers_are_little_endian(data, at + 12);
    assert forall|j: int| 0 <= j < 16 implies number_at(data, at + 16 + 2 * j, 2) == bits_of(
        #[trigger] n.min[j] as int,
        0x1_0000,
    ) by {
        lemma_value_stands(n.min@, data, at + 16, j);
    }
    assert forall|j: int| 0 <= j < 16 implies number_at(data, at + 48 + 2 * j, 2) == bits_of(
        #[trigger] n.max[j] as int,
        0x1_0000,
    ) by {
        lemma_value_stands(n.max@, data, at + 48, j);
    }
}

/// Where everything stands in a file: behind "KDTR0001" a head per partition
/// (its root, and how many nodes, vector values and labels it owns), then node
/// after node, value after value, and the labels.
pub proof fn files_have_a_fixed_layout(idx: TreeIndex)
    requires
        idx.divided(),
        fits_file(idx),
    ensures
        ({
            let data = file_bytes(idx);
            let n = idx.nodes@.len() as int;
            let v = idx.vectors@.len() as int;
            &&& data.take(8) == seq![0x4bu8, 0x44, 0x54, 0x52, 0x30, 0x30, 0x30, 0x31]
            &&& forall|p: int|
                0 <= p < 8 ==> {
                    &&& number_at(data, 8 + 16 * p, 4) == bits_of(
                        #[trigger] idx.roots[p] as int,
                        0x1_0000_0000,
                    )
                    &&& number_at(data, 12 + 16 * p, 4) == idx.node_off[p + 1] - idx.node_off[p]
                    &&& number_at(data, 16 + 16 * p, 4) == idx.vec_off[p + 1] - idx.vec_off[p]
                    &&& number_at(data, 20 + 16 * p, 4) == idx.lbl_off[p + 1] - idx.lbl_off[p]
                }
            &&& forall|i: int|
                0 <= i < n ==> stands_at(#[trigger] idx.nodes@[i], data, 136 + 80 * i)
            &&& forall|j: int|
                0 <= j < v ==> number_at(data, 136 + 80 * n + 2 * j, 2) == bits_of(
                    #[trigger] idx.vectors@[j] as int,
                    0x1_0000,
                )
            &&& forall|j: int|
                0 <= j < idx.labels@.len() ==> data[136 + 80 * n + 2 * v + j]
                    == #[trigger] idx.labels@[j]
        }),
{
    let data = file_bytes(idx);
    let n = idx.nodes@.len() as int;
    let v = idx.vectors@.len() as int;
    lemma_sections(idx);
    assert(MAGIC@ =~= seq![0x4bu8, 0x44, 0x54, 0x52, 0x30, 0x30, 0x30, 0x31]);
    assert forall|p: int| 0 <= p < 8 implies {
        &&& number_at(data, 8 + 16 * p, 4) == bits_of(
            #[trigger] idx.roots[p] as int,
            0x1_0000_0000,
        )
        &&& number_at(data, 12 + 16 * p, 4) == idx.node_off[p + 1] - idx.node_off[p]
        &&& number_at(data, 16 + 16 * p, 4) == idx.vec_off[p + 1] - idx.vec_off[p]
        &&& number_at(data, 20 + 16 * p, 4) == idx.lbl_off[p + 1] - idx.lbl_off[p]
    } by {
        lemma_heads_back(idx, p);
        lemma_head_counts(idx, p);
        numbers_are_little_endian(data, 8 + 16 * p);
        numbers_are_little_endian(data, 12 + 16 * p);
        numbers_are_little_endian(data, 16 + 16 * p);
        numbers_are_little_endian(data, 20 + 16 * p);
        let root = num4(data, 8 + 16 * p);
        assert(0 <= root < 0x1_0000_0000);
    }
    assert forall|i: int| 0 <= i < n implies stands_at(
        #[trigger] idx.nodes@[i],
        data,
        136 + 80 * i,
    ) by {
        let f = |x: Node| node_bytes(x);
        lemma_flat_at(idx.nodes@, f, 80);
        assert(holds_at(flat(idx.nodes@, f), 80 * i, f(idx.nodes@[i])));
        lemma_holds_within(data, 136, flat(idx.nodes@, f), 80 * i, f(idx.nodes@[i]));
        lemma_node_stands(idx.nodes@[i], data, 136 + 80 * i);
    }
    assert forall|j: int| 0 <= j < v implies number_at(data, 136 + 80 * n + 2 * j, 2) == bits_of(
        #[trigger] idx.vectors@[j] as int,
        0x1_0000,
    ) by {
        lemma_value_stands(idx.vectors@, data, 136 + 80 * n, j);
    }
    assert forall|j: int| 0 <= j < idx.labels@.len() implies data[136 + 80 * n + 2 * v + j]
        == #[trigger] idx.labels@[j] by {
        lemma_holds_byte(data, 136 + 80 * n + 2 * v, idx.labels@, j);
    }
}

} // verus!
