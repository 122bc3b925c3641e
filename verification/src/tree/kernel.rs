//! Integer distance kernels over quantised vectors.
use vstd::prelude::*;

verus! {

/// Features per vector.
pub const DIMS: usize = 14;

/// Neighbours that vote on a query.
pub const K: usize = 5;

/// Vectors per block.
pub const LANES: usize = 8;

/// Values in a block: every feature of every lane.
pub const BLOCK: usize = 112;

/// A quantised feature vector. The last two entries are padding and always zero.
pub type QVec = [i16; 16];

/// The squared distance of two vectors over their first `n` features.
pub open spec fn sq_dist_to(q: Seq<i16>, v: Seq<i16>, n: nat) -> int
    decreases n,
{
    if n == 0 {
        0
    } else {
        let d = q[n - 1] - v[n - 1];
        sq_dist_to(q, v, (n - 1) as nat) + d * d
    }
}

/// The squared distance of two vectors.
pub open spec fn sq_dist(q: Seq<i16>, v: Seq<i16>) -> int {
    sq_dist_to(q, v, DIMS as nat)
}

/// How far a value lies outside an interval; zero inside it.
pub open spec fn gap(x: int, min: int, max: int) -> int {
    if x < min {
        min - x
    } else if x > max {
        x - max
    } else {
        0
    }
}

/// The squared distance from a vector to a box over the first `n` features.
pub open spec fn box_dist_to(q: Seq<i16>, min: Seq<i16>, max: Seq<i16>, n: nat) -> int
    decreases n,
{
    if n == 0 {
        0
    } else {
        let g = gap(q[n - 1] as int, min[n - 1] as int, max[n - 1] as int);
        box_dist_to(q, min, max, (n - 1) as nat) + g * g
    }
}

/// The squared distance from a vector to a box.
pub open spec fn box_dist(q: Seq<i16>, min: Seq<i16>, max: Seq<i16>) -> int {
    box_dist_to(q, min, max, DIMS as nat)
}

/// Whether every feature of `v` lies between `min` and `max`.
pub open spec fn in_box(v: Seq<i16>, min: Seq<i16>, max: Seq<i16>) -> bool {
    forall|d: int| 0 <= d < DIMS ==> min[d] <= #[trigger] v[d] <= max[d]
}

proof fn lemma_square_bound(d: int)
    by (nonlinear_arith)
    requires
        -65535 <= d <= 65535,
    ensures
        0 <= d * d <= 4294836225,
{
}

proof fn lemma_square_mono(a: int, b: int)
    by (nonlinear_arith)
    requires
        0 <= a,
        a <= b || a <= -b,
    ensures
        a * a <= b * b,
{
}

/// Squared distances are never negative and stay far below the largest `i64`.
pub proof fn lemma_sq_dist_bound(q: Seq<i16>, v: Seq<i16>, n: nat)
    ensures
        0 <= sq_dist_to(q, v, n) <= n * 4294836225,
    decreases n,
{
    if n > 0 {
        lemma_sq_dist_bound(q, v, (n - 1) as nat);
        lemma_square_bound(q[n - 1] - v[n - 1]);
    }
}

pub proof fn lemma_box_dist_bound(q: Seq<i16>, min: Seq<i16>, max: Seq<i16>, n: nat)
    ensures
        0 <= box_dist_to(q, min, max, n) <= n * 4294836225,
    decreases n,
{
    if n > 0 {
        lemma_box_dist_bound(q, min, max, (n - 1) as nat);
        lemma_square_bound(gap(q[n - 1] as int, min[n - 1] as int, max[n - 1] as int));
    }
}

proof fn lemma_box_dist_below(q: Seq<i16>, v: Seq<i16>, min: Seq<i16>, max: Seq<i16>, n: nat)
    requires
        n <= DIMS,
        in_box(v, min, max),
    ensures
        box_dist_to(q, min, max, n) <= sq_dist_to(q, v, n),
    decreases n,
{
    if n > 0 {
        lemma_box_dist_below(q, v, min, max, (n - 1) as nat);
        let d = n - 1;
        assert(min[d] <= v[d] <= max[d]);
        let g = gap(q[d] as int, min[d] as int, max[d] as int);
        lemma_square_mono(g, q[d] - v[d]);
    }
}

/// The distance to a box is a lower bound on the distance to anything in it.
pub proof fn box_dist_is_lower_bound(q: Seq<i16>, v: Seq<i16>, min: Seq<i16>, max: Seq<i16>)
    requires
        in_box(v, min, max),
    ensures
        box_dist(q, min, max) <= sq_dist(q, v),
{
    lemma_box_dist_below(q, v, min, max, DIMS as nat);
}

proof fn lemma_box_dist_inside(q: Seq<i16>, min: Seq<i16>, max: Seq<i16>, n: nat)
    requires
        n <= DIMS,
        in_box(q, min, max),
    ensures
        box_dist_to(q, min, max, n) == 0,
    decreases n,
{
    if n > 0 {
        lemma_box_dist_inside(q, min, max, (n - 1) as nat);
        assert(min[n - 1] <= q[n - 1] <= max[n - 1]);
    }
}

/// A vector inside a box is at distance zero from it.
pub proof fn box_dist_is_zero_inside(q: Seq<i16>, min: Seq<i16>, max: Seq<i16>)
    requires
        in_box(q, min, max),
    ensures
        box_dist(q, min, max) == 0,
{
    lemma_box_dist_inside(q, min, max, DIMS as nat);
}

/// The least squared distance from `q` to an axis-aligned box. It is zero when
/// `q` lies inside, and is used to prune whole subtrees.
pub fn lower_bound_box(q: &QVec, min: &QVec, max: &QVec) -> (sum: i64)
    ensures
        sum == box_dist(q@, min@, max@),
        0 <= sum < i64::MAX,
{
    let mut sum: i64 = 0;
    let mut d: usize = 0;
    while d < DIMS
        invariant
            d <= DIMS,
            sum == box_dist_to(q@, min@, max@, d as nat),
            0 <= sum <= d * 4294836225,
        decreases DIMS - d,
    {
        let qd = q[d] as i64;
        let lo = min[d] as i64;
        let hi = max[d] as i64;
        let diff: i64 = if qd < lo {
            lo - qd
        } else if qd > hi {
            qd - hi
        } else {
            0
        };
        proof {
            lemma_square_bound(diff as int);
            lemma_box_dist_bound(q@, min@, max@, (d + 1) as nat);
        }
        sum = sum + diff * diff;
        d = d + 1;
    }
    sum
}

/// The vector in lane `lane` of the block that starts at `base`: its features
/// lie `LANES` apart.
pub open spec fn lane_vec(vectors: Seq<i16>, base: int, lane: int) -> Seq<i16> {
    Seq::new(DIMS as nat, |d: int| vectors[base + d * LANES + lane])
}

/// The squared distances from `q` to the `LANES` vectors of one block.
pub fn scan_block(vectors: &[i16], block_base: usize, q: &QVec) -> (dists: [i64; 8])
    requires
        block_base + BLOCK <= vectors@.len(),
    ensures
        forall|i: int|
            0 <= i < LANES ==> #[trigger] dists[i] == sq_dist(
                q@,
                lane_vec(vectors@, block_base as int, i),
            ),
{
    let len: usize = vectors.len();
    let mut dists = [0i64; 8];
    let mut d: usize = 0;
    while d < DIMS
        invariant
            d <= DIMS,
            len == vectors@.len(),
            block_base + BLOCK <= len,
            forall|i: int|
                0 <= i < LANES ==> #[trigger] dists[i] == sq_dist_to(
                    q@,
                    lane_vec(vectors@, block_base as int, i),
                    d as nat,
                ),
        decreases DIMS - d,
    {
        let qd = q[d] as i64;
        let base = block_base + d * LANES;
        let mut i: usize = 0;
        while i < LANES
            invariant
                d < DIMS,
                i <= LANES,
                len == vectors@.len(),
                block_base + BLOCK <= len,
                base == block_base + d * LANES,
                qd == q[d as int],
                forall|j: int|
                    0 <= j < LANES ==> #[trigger] dists[j] == sq_dist_to(
                        q@,
                        lane_vec(vectors@, block_base as int, j),
                        if j < i {
                            (d + 1) as nat
                        } else {
                            d as nat
                        },
                    ),
            decreases LANES - i,
        {
            let diff = qd - vectors[base + i] as i64;
            proof {
                lemma_square_bound(diff as int);
                lemma_sq_dist_bound(
                    q@,
                    lane_vec(vectors@, block_base as int, i as int),
                    d as nat,
                );
            }
            dists[i] = dists[i] + diff * diff;
            i = i + 1;
        }
        d = d + 1;
    }
    dists
}

} // verus!
