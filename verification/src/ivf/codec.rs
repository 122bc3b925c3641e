//! The file format of an inverted-file index.
//!
//! All numbers are little-endian. A head of 32 bytes (magic bytes, version,
//! how many centroids, buckets per query, voters, how many vectors) is followed
//! by the centroids, the buckets (start and length), the vectors and the
//! labels.
use vstd::prelude::*;

use crate::bvecs::{
    bvecs_at, bvecs_bytes, get_bvecs, lemma_bvecs_back, lemma_bvecs_byte, lemma_bvecs_len, put_bvecs,
};
use crate::bytes::{
    begins_with, flat, get_u32, get_u64, holds_at, le4, le8, lemma_flat_at, lemma_flat_none,
    lemma_flat_push, lemma_holds_all, lemma_holds_bounds, lemma_holds_byte, lemma_holds_parts,
    lemma_holds_within, lemma_num4_of_le4, lemma_num8_of_le8, num4, num8, number_at,
    numbers_are_little_endian, put_bytes, put_u32, put_u64, starts_with,
};
use crate::distance::BVec;
use crate::ivf::index::{bucket_hits, probed, probed_hits, voters, BucketMeta, StaticIVF};

verus! {

broadcast use crate::bytes::group_le_lens;

/// The first bytes of an index: "IVF1".
pub const MAGIC: [u8; 4] = [0x49, 0x56, 0x46, 0x31];

/// The version of the format, in four bytes.
pub const VERSION: [u8; 4] = [1, 0, 0, 0];

/// Four bytes that say nothing.
pub const RESERVED: [u8; 4] = [0, 0, 0, 0];

/// Where the centroids start.
pub const HEADER: usize = 32;

/// Why bytes are no index.
#[derive(Clone, Copy, PartialEq, Eq, Structural, Debug)]
pub enum LoadError {
    /// They do not begin with the magic bytes.
    BadMagic,
    /// They are of another version.
    BadVersion,
    /// They end before what they announce.
    Truncated,
}

/// The bytes of a bucket.
pub open spec fn bucket_bytes(b: BucketMeta) -> Seq<u8> {
    le4(b.start as int) + le4(b.len as int)
}

/// The bytes of several buckets.
pub open spec fn buckets_bytes(bs: Seq<BucketMeta>) -> Seq<u8> {
    flat(bs, |b: BucketMeta| bucket_bytes(b))
}

/// The head of a file. A number that does not fit in four bytes loses its
/// upper part.
#[verifier::opaque]
pub open spec fn head_bytes(idx: StaticIVF) -> Seq<u8> {
    MAGIC@ + (VERSION@ + (le4(idx.centroids@.len() as int % 0x1_0000_0000) + (le4(
        idx.nprobe as int % 0x1_0000_0000,
    ) + (le4(idx.k as int % 0x1_0000_0000) + (RESERVED@ + le8(idx.vectors@.len() as int))))))
}

/// The bytes of an index.
pub open spec fn file_bytes(idx: StaticIVF) -> Seq<u8> {
    head_bytes(idx) + (bvecs_bytes(idx.centroids@) + (buckets_bytes(idx.buckets@) + (bvecs_bytes(
        idx.vectors@,
    ) + idx.labels@)))
}

/// How many centroids the head announces.
pub open spec fn centroid_total(data: Seq<u8>) -> int {
    num4(data, 8)
}

/// How many vectors the head announces.
pub open spec fn vector_total(data: Seq<u8>) -> int {
    num8(data, 24)
}

/// Where the buckets start.
pub open spec fn buckets_at(data: Seq<u8>) -> int {
    HEADER + 16 * centroid_total(data)
}

/// Where the vectors start.
pub open spec fn vectors_at(data: Seq<u8>) -> int {
    buckets_at(data) + 8 * centroid_total(data)
}

/// Where the labels start.
pub open spec fn labels_at(data: Seq<u8>) -> int {
    vectors_at(data) + 16 * vector_total(data)
}

/// Whether the bytes begin with the magic bytes of an index.
pub open spec fn has_magic(data: Seq<u8>) -> bool {
    begins_with(data, MAGIC@)
}

/// Whether the bytes are of the version that can be read.
pub open spec fn has_version(data: Seq<u8>) -> bool {
    data.len() > 4 && data[4] == VERSION[0]
}

/// Whether every section starts within the bytes. The labels come last: they
/// may be cut short.
pub open spec fn complete(data: Seq<u8>) -> bool {
    data.len() >= HEADER && labels_at(data) <= data.len()
}

/// Where the labels end: behind the last, or where the bytes do.
pub open spec fn labels_end(data: Seq<u8>) -> int {
    let end = labels_at(data) + vector_total(data);
    if end <= data.len() {
        end
    } else {
        data.len() as int
    }
}

/// Whether `idx` is the index in the bytes.
pub open spec fn reads_as(data: Seq<u8>, idx: StaticIVF) -> bool {
    &&& idx.centroids@.len() == centroid_total(data)
    &&& idx.nprobe == num4(data, 12)
    &&& idx.k == num4(data, 16)
    &&& idx.vectors@.len() == vector_total(data)
    &&& bvecs_at(idx.centroids@, data, HEADER as int)
    &&& idx.buckets@.len() == centroid_total(data)
    &&& forall|i: int|
        0 <= i < idx.buckets@.len() ==> (#[trigger] idx.buckets@[i]).start == num4(
            data,
            buckets_at(data) + 8 * i,
        ) && idx.buckets@[i].len == num4(data, buckets_at(data) + 8 * i + 4)
    &&& bvecs_at(idx.vectors@, data, vectors_at(data))
    &&& idx.labels@ == data.subrange(labels_at(data), labels_end(data))
}

/// Whether each centroid has a bucket and each vector a label.
pub open spec fn paired(idx: StaticIVF) -> bool {
    &&& idx.buckets@.len() == idx.centroids@.len()
    &&& idx.labels@.len() == idx.vectors@.len()
}

/// Whether the numbers of an index fit in a head.
pub open spec fn fits_file(idx: StaticIVF) -> bool {
    &&& idx.centroids@.len() < 0x1_0000_0000
    &&& idx.nprobe < 0x1_0000_0000
    &&& idx.k < 0x1_0000_0000
}

/// Whether two indexes agree in everything.
pub open spec fn same_index(a: StaticIVF, b: StaticIVF) -> bool {
    &&& a.centroids@ == b.centroids@
    &&& a.buckets@ == b.buckets@
    &&& a.vectors@ == b.vectors@
    &&& a.labels@ == b.labels@
    &&& a.nprobe == b.nprobe
    &&& a.k == b.k
}

impl StaticIVF {
    /// Appends the bytes of the buckets.
    fn put_buckets(&self, out: &mut Vec<u8>)
        ensures
            final(out)@ == old(out)@ + buckets_bytes(self.buckets@),
    {
        let ghost before = out@;
        let ghost f = |b: BucketMeta| bucket_bytes(b);
        let mut i: usize = 0;
        proof {
            lemma_flat_none(self.buckets@, f);
            assert(before + Seq::<u8>::empty() =~= before);
        }
        while i < self.buckets.len()
            invariant
                i <= self.buckets@.len(),
                f == (|b: BucketMeta| bucket_bytes(b)),
                out@ == before + flat(self.buckets@.take(i as int), f),
            decreases self.buckets@.len() - i,
        {
            put_u32(out, self.buckets[i].start);
            put_u32(out, self.buckets[i].len);
            proof {
                lemma_flat_push(self.buckets@, f, i as int);
                assert(out@ =~= before + flat(self.buckets@.take(i + 1), f));
            }
            i = i + 1;
        }
        proof {
            lemma_flat_none(self.buckets@, f);
        }
    }

    /// The bytes of the index as they stand in a file.
    pub fn save(&self) -> (out: Vec<u8>)
        requires
            paired(*self),
        ensures
            out@ == file_bytes(*self),
    {
        let mut out: Vec<u8> = Vec::new();
        put_bytes(&mut out, MAGIC.as_slice());
        put_bytes(&mut out, VERSION.as_slice());
        put_u32(&mut out, (self.centroids.len() as u64 % 0x1_0000_0000) as u32);
        put_u32(&mut out, (self.nprobe as u64 % 0x1_0000_0000) as u32);
        put_u32(&mut out, (self.k as u64 % 0x1_0000_0000) as u32);
        put_bytes(&mut out, RESERVED.as_slice());
        put_u64(&mut out, self.vectors.len() as u64);
        proof {
            reveal(head_bytes);
        }
        assert(out@ =~= head_bytes(*self));
        put_bvecs(&mut out, &self.centroids);
        self.put_buckets(&mut out);
        put_bvecs(&mut out, &self.vectors);
        put_bytes(&mut out, self.labels.as_slice());
        assert(out@ =~= file_bytes(*self));
        out
    }

    /// The index in the bytes of a file. Where the bytes end inside the labels
    /// the index has those that are there, and is not valid.
    pub fn load(data: &[u8]) -> (res: Result<StaticIVF, LoadError>)
        ensures
            res is Ok <==> has_magic(data@) && has_version(data@) && complete(data@),
            res matches Ok(idx) ==> reads_as(data@, idx),
            res matches Err(LoadError::BadMagic) <==> data@.len() >= 4 && !has_magic(data@),
            res matches Err(LoadError::BadVersion) <==> has_magic(data@) && data@.len() > 4
                && !has_version(data@),
    {
        let len: usize = data.len();
        if len < 4 {
            return Err(LoadError::Truncated);
        }
        if !starts_with(data, MAGIC.as_slice()) {
            return Err(LoadError::BadMagic);
        }
        if len < 5 {
            return Err(LoadError::Truncated);
        }
        if data[4] != VERSION[0] {
            return Err(LoadError::BadVersion);
        }
        if len < HEADER {
            return Err(LoadError::Truncated);
        }
        let nc = get_u32(data, 8);
        let nprobe = get_u32(data, 12);
        let k = get_u32(data, 16);
        let total = get_u64(data, 24);
        let need: u128 = HEADER as u128 + 24 * (nc as u128) + 16 * (total as u128);
        if need > len as u128 {
            return Err(LoadError::Truncated);
        }
        let n_centroids: usize = nc as usize;
        let n: usize = total as usize;
        let b_off: usize = HEADER + 16 * n_centroids;
        let v_off: usize = b_off + 8 * n_centroids;
        let l_off: usize = v_off + 16 * n;
        let centroids = get_bvecs(data, HEADER, n_centroids);
        let mut buckets: Vec<BucketMeta> = Vec::new();
        let mut i: usize = 0;
        while i < n_centroids
            invariant
                i <= n_centroids,
                len == data@.len(),
                b_off + 8 * n_centroids <= len,
                b_off == buckets_at(data@),
                buckets@.len() == i,
                forall|j: int|
                    0 <= j < i ==> (#[trigger] buckets@[j]).start == num4(
                        data@,
                        buckets_at(data@) + 8 * j,
                    ) && buckets@[j].len == num4(data@, buckets_at(data@) + 8 * j + 4),
            decreases n_centroids - i,
        {
            let start = get_u32(data, b_off + 8 * i);
            let size = get_u32(data, b_off + 8 * i + 4);
            buckets.push(BucketMeta { start, len: size });
            i = i + 1;
        }
        let vectors = get_bvecs(data, v_off, n);
        let mut labels: Vec<u8> = Vec::new();
        let l_end: usize = if n <= len - l_off {
            l_off + n
        } else {
            len
        };
        put_bytes(&mut labels, vstd::slice::slice_subrange(data, l_off, l_end));
        assert(labels@ =~= data@.subrange(labels_at(data@), labels_end(data@)));
        Ok(
            StaticIVF {
                centroids,
                buckets,
                vectors,
                labels,
                nprobe: nprobe as usize,
                k: k as usize,
            },
        )
    }
}

/// Where the parts of a file lie.
proof fn lemma_sections(idx: StaticIVF)
    requires
        paired(idx),
    ensures
        ({
            let data = file_bytes(idx);
            let c = idx.centroids@.len();
            let n = idx.vectors@.len();
            &&& head_bytes(idx).len() == 32
            &&& holds_at(data, 0, head_bytes(idx))
            &&& holds_at(data, 32, bvecs_bytes(idx.centroids@))
            &&& holds_at(data, (32 + 16 * c) as int, buckets_bytes(idx.buckets@))
            &&& holds_at(data, (32 + 24 * c) as int, bvecs_bytes(idx.vectors@))
            &&& holds_at(data, (32 + 24 * c + 16 * n) as int, idx.labels@)
        }),
{
    let data = file_bytes(idx);
    let h = head_bytes(idx);
    let a = bvecs_bytes(idx.centroids@);
    let b = buckets_bytes(idx.buckets@);
    let c = bvecs_bytes(idx.vectors@);
    let d = idx.labels@;
    assert(h.len() == 32) by {
        reveal(head_bytes);
    }
    lemma_holds_all(data);
    lemma_bvecs_len(idx.centroids@);
    lemma_bvecs_len(idx.vectors@);
    lemma_flat_at(idx.buckets@, |b: BucketMeta| bucket_bytes(b), 8);
    lemma_holds_parts(data, 0, h, a + (b + (c + d)));
    lemma_holds_parts(data, 32, a, b + (c + d));
    lemma_holds_parts(data, (32 + a.len()) as int, b, c + d);
    lemma_holds_parts(data, (32 + a.len() + b.len()) as int, c, d);
}

/// Where the parts of a head lie.
proof fn lemma_head_parts(
    data: Seq<u8>,
    m: Seq<u8>,
    v: Seq<u8>,
    a: Seq<u8>,
    b: Seq<u8>,
    c: Seq<u8>,
    z: Seq<u8>,
    d: Seq<u8>,
)
    requires
        holds_at(data, 0, m + (v + (a + (b + (c + (z + d)))))),
        m.len() == 4,
        v.len() == 4,
        a.len() == 4,
        b.len() == 4,
        c.len() == 4,
        z.len() == 4,
    ensures
        holds_at(data, 0, m),
        holds_at(data, 4, v),
        holds_at(data, 8, a),
        holds_at(data, 12, b),
        holds_at(data, 16, c),
        holds_at(data, 24, d),
{
    lemma_holds_parts(data, 0, m, v + (a + (b + (c + (z + d)))));
    lemma_holds_parts(data, 4, v, a + (b + (c + (z + d))));
    lemma_holds_parts(data, 8, a, b + (c + (z + d)));
    lemma_holds_parts(data, 12, b, c + (z + d));
    lemma_holds_parts(data, 16, c, z + d);
    lemma_holds_parts(data, 20, z, d);
}

/// What the head of a file says.
proof fn lemma_head_back(idx: StaticIVF, data: Seq<u8>)
    requires
        fits_file(idx),
        holds_at(data, 0, head_bytes(idx)),
    ensures
        has_magic(data),
        has_version(data),
        centroid_total(data) == idx.centroids@.len(),
        num4(data, 12) == idx.nprobe,
        num4(data, 16) == idx.k,
        idx.vectors@.len() < 0x1_0000_0000_0000_0000 ==> vector_total(data)
            == idx.vectors@.len(),
{
    let a = idx.centroids@.len() as int % 0x1_0000_0000;
    let b = idx.nprobe as int % 0x1_0000_0000;
    let c = idx.k as int % 0x1_0000_0000;
    let d = idx.vectors@.len() as int;
    assert(holds_at(
        data,
        0,
        MAGIC@ + (VERSION@ + (le4(a) + (le4(b) + (le4(c) + (RESERVED@ + le8(d)))))),
    )) by {
        reveal(head_bytes);
    }
    lemma_head_parts(data, MAGIC@, VERSION@, le4(a), le4(b), le4(c), RESERVED@, le8(d));
    lemma_num4_of_le4(data, 8, a);
    lemma_num4_of_le4(data, 12, b);
    lemma_num4_of_le4(data, 16, c);
    if d < 0x1_0000_0000_0000_0000 {
        lemma_num8_of_le8(data, 24, d);
    }
    lemma_holds_byte(data, 4, VERSION@, 0);
    assert forall|i: int| 0 <= i < 4 implies MAGIC@[i] == data[i] by {
        lemma_holds_byte(data, 0, MAGIC@, i);
    }
    assert(data.take(4) =~= MAGIC@);
}

proof fn lemma_buckets_back(bs: Seq<BucketMeta>, cs: Seq<BucketMeta>, data: Seq<u8>, at: int)
    requires
        holds_at(data, at, buckets_bytes(bs)),
        bs.len() == cs.len(),
        forall|i: int|
            0 <= i < cs.len() ==> (#[trigger] cs[i]).start == num4(data, at + 8 * i) && cs[i].len
                == num4(data, at + 8 * i + 4),
    ensures
        bs == cs,
{
    let f = |b: BucketMeta| bucket_bytes(b);
    let all = buckets_bytes(bs);
    lemma_flat_at(bs, f, 8);
    assert forall|i: int| 0 <= i < bs.len() implies bs[i] == #[trigger] cs[i] by {
        assert(holds_at(all, 8 * i, f(bs[i])));
        lemma_holds_within(data, at, all, 8 * i, f(bs[i]));
        lemma_holds_parts(data, at + 8 * i, le4(bs[i].start as int), le4(bs[i].len as int));
        lemma_num4_of_le4(data, at + 8 * i, bs[i].start as int);
        lemma_num4_of_le4(data, at + 8 * i + 4, bs[i].len as int);
    }
    assert(bs =~= cs);
}

/// What is saved loads, and loads as the same index.
pub proof fn load_gives_back_save(idx: StaticIVF, back: StaticIVF)
    requires
        paired(idx),
        fits_file(idx),
        idx.vectors@.len() < 0x1_0000_0000_0000_0000,
    ensures
        has_magic(file_bytes(idx)),
        has_version(file_bytes(idx)),
        complete(file_bytes(idx)),
        reads_as(file_bytes(idx), back) ==> same_index(idx, back),
{
    let data = file_bytes(idx);
    let c = idx.centroids@.len();
    let n = idx.vectors@.len();
    lemma_sections(idx);
    lemma_head_back(idx, data);
    lemma_holds_bounds(data, (32 + 24 * c + 16 * n) as int, idx.labels@);
    if reads_as(data, back) {
        lemma_bvecs_back(idx.centroids@, back.centroids@, data, 32);
        lemma_buckets_back(idx.buckets@, back.buckets@, data, (32 + 16 * c) as int);
        lemma_bvecs_back(idx.vectors@, back.vectors@, data, (32 + 24 * c) as int);
        let at = 32 + 24 * c + 16 * n;
        assert forall|j: int| 0 <= j < n implies idx.labels@[j] == #[trigger] back.labels@[j] by {
            lemma_holds_byte(data, at as int, idx.labels@, j);
        }
        assert(idx.labels@ =~= back.labels@);
    }
}

proof fn lemma_same_hits(a: StaticIVF, b: StaticIVF, q: BVec, probes: Seq<(int, int)>)
    requires
        same_index(a, b),
    ensures
        probed_hits(a, q, probes) == probed_hits(b, q, probes),
    decreases probes.len(),
{
    if probes.len() > 0 {
        lemma_same_hits(a, b, q, probes.drop_last());
        let c = probes.last().1;
        assert(bucket_hits(a, q, c) =~= bucket_hits(b, q, c));
    }
}

/// An index that was saved and loaded answers as it did before.
pub proof fn loaded_index_answers_the_same(idx: StaticIVF, back: StaticIVF, q: BVec)
    requires
        idx.wf(),
        fits_file(idx),
        idx.vectors@.len() < 0x1_0000_0000_0000_0000,
        reads_as(file_bytes(idx), back),
    ensures
        back.wf(),
        voters(back, q) == voters(idx, q),
{
    load_gives_back_save(idx, back);
    assert forall|c: int| 0 <= c < back.buckets@.len() implies (#[trigger] back.buckets@[c]).start
        + back.buckets@[c].len <= back.vectors@.len() by {
        assert(idx.buckets@[c].start + idx.buckets@[c].len <= idx.vectors@.len());
    }
    lemma_same_hits(idx, back, q, probed(idx, q));
}

/// Where everything stands in a file: behind "IVF1" and the version the numbers
/// of the head, then centroid after centroid, bucket after bucket, vector after
/// vector, and the labels.
pub proof fn files_have_a_fixed_layout(idx: StaticIVF)
    requires
        paired(idx),
        fits_file(idx),
        idx.vectors@.len() < 0x1_0000_0000_0000_0000,
    ensures
        ({
            let data = file_bytes(idx);
            let c = idx.centroids@.len() as int;
            let n = idx.vectors@.len() as int;
            &&& data.len() == 32 + 24 * c + 17 * n
            &&& data.take(4) == seq![0x49u8, 0x56, 0x46, 0x31]
            &&& data[4] == 1
            &&& number_at(data, 8, 4) == c
            &&& number_at(data, 12, 4) == idx.nprobe
            &&& number_at(data, 16, 4) == idx.k
            &&& number_at(data, 24, 8) == n
            &&& forall|i: int, j: int|
                0 <= i < c && 0 <= j < 16 ==> data[32 + 16 * i + j]
                    == #[trigger] idx.centroids@[i]@[j]
            &&& forall|i: int|
                0 <= i < c ==> number_at(data, 32 + 16 * c + 8 * i, 4) == (
                #[trigger] idx.buckets@[i]).start && number_at(data, 32 + 16 * c + 8 * i + 4, 4)
                    == idx.buckets@[i].len
            &&& forall|i: int, j: int|
                0 <= i < n && 0 <= j < 16 ==> data[32 + 24 * c + 16 * i + j]
                    == #[trigger] idx.vectors@[i]@[j]
            &&& forall|i: int|
                0 <= i < n ==> data[32 + 24 * c + 16 * n + i] == #[trigger] idx.labels@[i]
        }),
{
    let data = file_bytes(idx);
    let c = idx.centroids@.len() as int;
    let n = idx.vectors@.len() as int;
    lemma_sections(idx);
    lemma_head_back(idx, data);
    lemma_bvecs_len(idx.centroids@);
    lemma_bvecs_len(idx.vectors@);
    lemma_flat_at(idx.buckets@, |b: BucketMeta| bucket_bytes(b), 8);
    numbers_are_little_endian(data, 8);
    numbers_are_little_endian(data, 12);
    numbers_are_little_endian(data, 16);
    numbers_are_little_endian(data, 24);
    assert(MAGIC@ =~= seq![0x49u8, 0x56, 0x46, 0x31]);
    assert forall|i: int, j: int| 0 <= i < c && 0 <= j < 16 implies data[32 + 16 * i + j]
        == #[trigger] idx.centroids@[i]@[j] by {
        lemma_bvecs_byte(idx.centroids@, data, 32, i, j);
    }
    assert forall|i: int| 0 <= i < c implies number_at(data, 32 + 16 * c + 8 * i, 4) == (
    #[trigger] idx.buckets@[i]).start && number_at(data, 32 + 16 * c + 8 * i + 4, 4)
        == idx.buckets@[i].len by {
        let at = 32 + 16 * c + 8 * i;
        let b = idx.buckets@[i];
        let f = |b: BucketMeta| bucket_bytes(b);
        let all = buckets_bytes(idx.buckets@);
        lemma_flat_at(idx.buckets@, f, 8);
        assert(holds_at(all, 8 * i, f(b)));
        lemma_holds_within(data, 32 + 16 * c, all, 8 * i, f(b));
        lemma_holds_parts(data, at, le4(b.start as int), le4(b.len as int));
        lemma_num4_of_le4(data, at, b.start as int);
        lemma_num4_of_le4(data, at + 4, b.len as int);
        numbers_are_little_endian(data, at);
        numbers_are_little_endian(data, at + 4);
    }
    assert forall|i: int, j: int| 0 <= i < n && 0 <= j < 16 implies data[32 + 24 * c + 16 * i + j]
        == #[trigger] idx.vectors@[i]@[j] by {
        lemma_bvecs_byte(idx.vectors@, data, 32 + 24 * c, i, j);
    }
    assert forall|i: int| 0 <= i < n implies data[32 + 24 * c + 16 * n + i]
        == #[trigger] idx.labels@[i] by {
        lemma_holds_byte(data, 32 + 24 * c + 16 * n, idx.labels@, i);
    }
}

} // verus!
