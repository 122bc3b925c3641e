//! Byte vectors in files: sixteen bytes each, one after the other.
use vstd::prelude::*;

use crate::bytes::{
    flat, holds_at, lemma_flat_at, lemma_flat_none, lemma_flat_push, lemma_holds_bounds,
    lemma_holds_byte, lemma_holds_within, put_bytes,
};
use crate::distance::BVec;

verus! {

/// The bytes of several vectors.
pub open spec fn bvecs_bytes(vs: Seq<BVec>) -> Seq<u8> {
    flat(vs, |v: BVec| v@)
}

/// Whether the sixteen bytes from `at` on are those of the vector.
pub open spec fn bvec_at(v: BVec, data: Seq<u8>, at: int) -> bool {
    v@ == data.subrange(at, at + 16)
}

/// Whether the bytes from `at` on are those of the vectors.
pub open spec fn bvecs_at(vs: Seq<BVec>, data: Seq<u8>, at: int) -> bool {
    forall|i: int| 0 <= i < vs.len() ==> bvec_at(#[trigger] vs[i], data, at + 16 * i)
}

/// Vectors take sixteen bytes each.
pub proof fn lemma_bvecs_len(vs: Seq<BVec>)
    ensures
        bvecs_bytes(vs).len() == 16 * vs.len(),
{
    lemma_flat_at(vs, |v: BVec| v@, 16);
}

/// Vectors are read back from where their bytes are.
pub proof fn lemma_bvecs_back(vs: Seq<BVec>, ws: Seq<BVec>, data: Seq<u8>, at: int)
    requires
        holds_at(data, at, bvecs_bytes(vs)),
        bvecs_at(ws, data, at),
        vs.len() == ws.len(),
    ensures
        vs == ws,
{
    let f = |v: BVec| v@;
    let all = bvecs_bytes(vs);
    lemma_flat_at(vs, f, 16);
    assert forall|i: int| 0 <= i < vs.len() implies vs[i] == #[trigger] ws[i] by {
        assert(holds_at(all, 16 * i, f(vs[i])));
        lemma_holds_within(data, at, all, 16 * i, f(vs[i]));
        lemma_holds_bounds(data, at + 16 * i, f(vs[i]));
        assert(bvec_at(ws[i], data, at + 16 * i));
        assert forall|j: int| 0 <= j < 16 implies vs[i]@[j] == ws[i]@[j] by {
            lemma_holds_byte(data, at + 16 * i, f(vs[i]), j);
        }
        assert(vs[i]@ =~= ws[i]@);
        assert(vs[i] =~= ws[i]);
    }
    assert(vs =~= ws);
}

/// Appends the bytes of several vectors.
pub fn put_bvecs(out: &mut Vec<u8>, vs: &Vec<BVec>)
    ensures
        final(out)@ == old(out)@ + bvecs_bytes(vs@),
{
    let ghost before = out@;
    let ghost f = |v: BVec| v@;
    let mut i: usize = 0;
    proof {
        lemma_flat_none(vs@, f);
        assert(before + Seq::<u8>::empty() =~= before);
    }
    while i < vs.len()
        invariant
            i <= vs@.len(),
            f == (|v: BVec| v@),
            out@ == before + flat(vs@.take(i as int), f),
        decreases vs@.len() - i,
    {
        put_bytes(out, vs[i].as_slice());
        proof {
            lemma_flat_push(vs@, f, i as int);
            assert(out@ =~= before + flat(vs@.take(i + 1), f));
        }
        i = i + 1;
    }
    proof {
        lemma_flat_none(vs@, f);
    }
}

/// Reads one vector.
pub fn get_bvec(data: &[u8], at: usize) -> (v: BVec)
    requires
        at + 16 <= data@.len(),
    ensures
        bvec_at(v, data@, at as int),
{
    let len: usize = data.len();
    let mut v: BVec = [0u8; 16];
    let mut j: usize = 0;
    while j < 16
        invariant
            j <= 16,
            len == data@.len(),
            at + 16 <= len,
            forall|i: int| 0 <= i < j ==> #[trigger] v@[i] == data@[at + i],
        decreases 16 - j,
    {
        v[j] = data[at + j];
        j = j + 1;
    }
    assert(v@ =~= data@.subrange(at as int, at + 16));
    v
}

/// Reads several vectors.
pub fn get_bvecs(data: &[u8], at: usize, n: usize) -> (vs: Vec<BVec>)
    requires
        at + 16 * n <= data@.len(),
    ensures
        vs@.len() == n,
        bvecs_at(vs@, data@, at as int),
{
    let len: usize = data.len();
    let mut vs: Vec<BVec> = Vec::new();
    let mut i: usize = 0;
    while i < n
        invariant
            i <= n,
            len == data@.len(),
            at + 16 * n <= len,
            vs@.len() == i,
            bvecs_at(vs@, data@, at as int),
        decreases n - i,
    {
        let v = get_bvec(data, at + 16 * i);
        vs.push(v);
        i = i + 1;
    }
    vs
}

/// The bytes of vectors are their entries, one after the other.
pub proof fn lemma_bvecs_byte(vs: Seq<BVec>, data: Seq<u8>, at: int, i: int, j: int)
    requires
        holds_at(data, at, bvecs_bytes(vs)),
        0 <= i < vs.len(),
        0 <= j < 16,
    ensures
        data[at + 16 * i + j] == vs[i]@[j],
{
    let f = |v: BVec| v@;
    let all = bvecs_bytes(vs);
    lemma_flat_at(vs, f, 16);
    assert(holds_at(all, 16 * i, f(vs[i])));
    lemma_holds_within(data, at, all, 16 * i, f(vs[i]));
    lemma_holds_byte(data, at + 16 * i, f(vs[i]), j);
}

} // verus!
