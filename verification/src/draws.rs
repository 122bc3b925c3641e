//! Pseudo-random draws.
use vstd::prelude::*;

verus! {

/// The draw that follows another.
pub open spec fn next_draw(r: u64) -> u64 {
    let a = r ^ (r << 13u64);
    let b = a ^ (a >> 7u64);
    b ^ (b << 17u64)
}

/// The draw that follows another.
pub fn step(r: u64) -> (s: u64)
    ensures
        s == next_draw(r),
        s == {
            let a = r ^ (r << 13u64);
            (a ^ (a >> 7u64)) ^ ((a ^ (a >> 7u64)) << 17u64)
        },
{
    let a: u64 = r ^ (r << 13u64);
    let b: u64 = a ^ (a >> 7u64);
    b ^ (b << 17u64)
}

} // verus!
