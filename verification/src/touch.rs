//! Reading one byte of every page, so that the memory behind an index is
//! resident before the first query.
use vstd::prelude::*;

use crate::distance::BVec;

verus! {

/// The sum of two bytes, without its carry.
pub open spec fn wrapping(a: u8, b: u8) -> u8 {
    ((a + b) % 256) as u8
}

/// `acc` and the first byte of every 256th vector from `i` on, summed up.
pub open spec fn vector_sum(vs: Seq<BVec>, i: int, acc: u8) -> u8
    decreases
            (if i < vs.len() {
                vs.len() - i
            } else {
                0
            }),
{
    if i >= vs.len() {
        acc
    } else {
        vector_sum(vs, i + 256, wrapping(acc, vs[i]@[0]))
    }
}

/// `acc` and every 4096th byte from `i` on, summed up.
pub open spec fn byte_sum(bs: Seq<u8>, i: int, acc: u8) -> u8
    decreases
            (if i < bs.len() {
                bs.len() - i
            } else {
                0
            }),
{
    if i >= bs.len() {
        acc
    } else {
        byte_sum(bs, i + 4096, wrapping(acc, bs[i]))
    }
}

/// `acc` and the lowest byte of every 1024th number from `i` on, summed up.
pub open spec fn id_sum(ids: Seq<u32>, i: int, acc: u8) -> u8
    decreases
            (if i < ids.len() {
                ids.len() - i
            } else {
                0
            }),
{
    if i >= ids.len() {
        acc
    } else {
        id_sum(ids, i + 1024, wrapping(acc, (ids[i] % 256) as u8))
    }
}

/// Reads one byte of every page of the vectors.
pub fn touch_vectors(vs: &Vec<BVec>, start: u8) -> (acc: u8)
    ensures
        acc == vector_sum(vs@, 0, start),
{
    let n: usize = vs.len();
    let mut acc: u8 = start;
    let mut i: usize = 0;
    while i < n
        invariant
            n == vs@.len(),
            vector_sum(vs@, 0, start) == vector_sum(vs@, i as int, acc),
        decreases n - i,
    {
        acc = acc.wrapping_add(vs[i][0]);
        assert(i + 256 >= n ==> vector_sum(vs@, i + 256, acc) == acc);
        i = if n - i > 256 {
            i + 256
        } else {
            n
        };
    }
    acc
}

/// Reads one of every page of the bytes.
pub fn touch_bytes(bs: &Vec<u8>, start: u8) -> (acc: u8)
    ensures
        acc == byte_sum(bs@, 0, start),
{
    let n: usize = bs.len();
    let mut acc: u8 = start;
    let mut i: usize = 0;
    while i < n
        invariant
            n == bs@.len(),
            byte_sum(bs@, 0, start) == byte_sum(bs@, i as int, acc),
        decreases n - i,
    {
        acc = acc.wrapping_add(bs[i]);
        assert(i + 4096 >= n ==> byte_sum(bs@, i + 4096, acc) == acc);
        i = if n - i > 4096 {
            i + 4096
        } else {
            n
        };
    }
    acc
}

/// Reads one byte of every page of the numbers.
pub fn touch_ids(ids: &Vec<u32>, start: u8) -> (acc: u8)
    ensures
        acc == id_sum(ids@, 0, start),
{
    let n: usize = ids.len();
    let mut acc: u8 = start;
    let mut i: usize = 0;
    while i < n
        invariant
            n == ids@.len(),
            id_sum(ids@, 0, start) == id_sum(ids@, i as int, acc),
        decreases n - i,
    {
        acc = acc.wrapping_add((ids[i] % 256) as u8);
        assert(i + 1024 >= n ==> id_sum(ids@, i + 1024, acc) == acc);
        i = if n - i > 1024 {
            i + 1024
        } else {
            n
        };
    }
    acc
}

} // verus!
