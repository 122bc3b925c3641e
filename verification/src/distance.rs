//! Squared distances of byte vectors.
use vstd::prelude::*;

verus! {

/// A feature vector in bytes: fourteen features and two entries of padding.
pub type BVec = [u8; 16];

/// The squared distance of two vectors over their first `n` entries.
pub open spec fn sq_dist(a: Seq<u8>, b: Seq<u8>, n: nat) -> int
    decreases n,
{
    if n == 0 {
        0
    } else {
        let d = a[n - 1] - b[n - 1];
        sq_dist(a, b, (n - 1) as nat) + d * d
    }
}

proof fn lemma_square(d: int)
    by (nonlinear_arith)
    requires
        -255 <= d <= 255,
    ensures
        0 <= d * d <= 65025,
        d * d == 0 ==> d == 0,
        d * d == (-d) * (-d),
{
}

/// Squared distances are small.
pub proof fn lemma_sq_dist_bound(a: Seq<u8>, b: Seq<u8>, n: nat)
    ensures
        0 <= sq_dist(a, b, n) <= 65025 * n,
    decreases n,
{
    if n > 0 {
        lemma_sq_dist_bound(a, b, (n - 1) as nat);
        lemma_square(a[n - 1] - b[n - 1]);
    }
}

/// The distance is the same both ways.
pub proof fn sq_dist_is_symmetric(a: Seq<u8>, b: Seq<u8>, n: nat)
    ensures
        sq_dist(a, b, n) == sq_dist(b, a, n),
    decreases n,
{
    if n > 0 {
        sq_dist_is_symmetric(a, b, (n - 1) as nat);
        lemma_square(a[n - 1] - b[n - 1]);
    }
}

/// The distance is zero exactly between vectors that agree.
pub proof fn sq_dist_is_zero_when_equal(a: Seq<u8>, b: Seq<u8>, n: nat)
    requires
        n <= a.len(),
        n <= b.len(),
    ensures
        sq_dist(a, b, n) == 0 <==> a.take(n as int) == b.take(n as int),
    decreases n,
{
    if n > 0 {
        let m = (n - 1) as nat;
        sq_dist_is_zero_when_equal(a, b, m);
        lemma_sq_dist_bound(a, b, m);
        lemma_square(a[n - 1] - b[n - 1]);
        assert(a.take(n as int).drop_last() =~= a.take(m as int));
        assert(b.take(n as int).drop_last() =~= b.take(m as int));
        assert(a.take(n as int) =~= a.take(m as int).push(a[m as int]));
        assert(b.take(n as int) =~= b.take(m as int).push(b[m as int]));
        if a.take(n as int) == b.take(n as int) {
            assert(a.take(n as int)[m as int] == b.take(n as int)[m as int]);
        }
    } else {
        assert(a.take(0) =~= b.take(0));
    }
}

/// Each entry adds the square of its difference: without it the distance is
/// smaller by so much.
pub proof fn sq_dist_adds_up(a: Seq<u8>, b: Seq<u8>, n: nat, i: int)
    requires
        0 <= i < n <= a.len(),
        n <= b.len(),
    ensures
        sq_dist(a, b, n) == sq_dist(a.update(i, b[i]), b, n) + (a[i] - b[i]) * (a[i] - b[i]),
    decreases n,
{
    let c = a.update(i, b[i]);
    let m = (n - 1) as nat;
    if i == m {
        lemma_sq_dist_of_front(a, c, b, m);
        let z = c[i] - b[i];
        assert(z * z == 0) by (nonlinear_arith)
            requires
                z == 0,
        ;
    } else {
        sq_dist_adds_up(a, b, m, i);
    }
}

/// Entries from `n` on do not count.
pub proof fn lemma_sq_dist_of_front(a: Seq<u8>, c: Seq<u8>, b: Seq<u8>, n: nat)
    requires
        forall|j: int| 0 <= j < n ==> #[trigger] a[j] == c[j],
    ensures
        sq_dist(a, b, n) == sq_dist(c, b, n),
    decreases n,
{
    if n > 0 {
        lemma_sq_dist_of_front(a, c, b, (n - 1) as nat);
    }
}

/// The squared distance over the first `dims` entries.
pub fn sq_dist_over(a: &BVec, b: &BVec, dims: usize) -> (s: u32)
    requires
        dims <= 16,
    ensures
        s == sq_dist(a@, b@, dims as nat),
        s <= 65025 * 16,
{
    let mut s: u32 = 0;
    let mut i: usize = 0;
    while i < dims
        invariant
            i <= dims <= 16,
            s == sq_dist(a@, b@, i as nat),
            s <= 65025 * i,
        decreases dims - i,
    {
        let d = a[i] as i32 - b[i] as i32;
        proof {
            lemma_square(d as int);
        }
        s = s + (d * d) as u32;
        i = i + 1;
    }
    s
}

} // verus!
