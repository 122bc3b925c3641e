//! Clustering of byte vectors by k-means.
//!
//! The first centroids are drawn from the vectors. Each round assigns every
//! vector to its nearest centroid and moves every centroid to the mean of its
//! vectors; it ends after so many rounds, or when a round assigns nothing anew.
use vstd::prelude::*;

use crate::distance::{sq_dist, BVec};
use crate::draws::{next_draw, step};
use crate::ivf::index::sq_dist_u8;

verus! {

/// Where the draws start.
pub const SEED: u64 = 0x517c_c1b7_2722_0a95;

/// A vector, without the place where it is kept.
pub type Point = Seq<u8>;

/// The vectors without the places where they are kept.
pub open spec fn points(vectors: Seq<BVec>) -> Seq<Point> {
    vectors.map_values(|v: BVec| v@)
}

/// The draw after so many steps.
pub open spec fn draw(i: nat) -> u64
    decreases i,
{
    if i == 0 {
        SEED
    } else {
        next_draw(draw((i - 1) as nat))
    }
}

/// The first centroids.
pub open spec fn seeds(vectors: Seq<Point>, k: nat) -> Seq<Point> {
    Seq::new(k, |i: int| vectors[draw((i + 1) as nat) as int % vectors.len() as int])
}

/// The first of the centroids that are nearest to a vector.
pub open spec fn closest(v: Point, centroids: Seq<Point>) -> int
    decreases centroids.len(),
{
    if centroids.len() <= 1 {
        0
    } else {
        let w = closest(v, centroids.drop_last());
        if sq_dist(v, centroids.last(), 16) < sq_dist(v, centroids[w], 16) {
            centroids.len() - 1
        } else {
            w
        }
    }
}

/// The centroid of each vector.
pub open spec fn assigned(vectors: Seq<Point>, centroids: Seq<Point>) -> Seq<u32> {
    Seq::new(vectors.len(), |v: int| closest(vectors[v], centroids) as u32)
}

/// How many of the first `n` vectors belong to a centroid.
pub open spec fn count_in(asgn: Seq<u32>, c: int, n: nat) -> int
    decreases n,
{
    if n == 0 {
        0
    } else {
        count_in(asgn, c, (n - 1) as nat) + if asgn[n - 1] == c {
            1int
        } else {
            0int
        }
    }
}

/// The sum of an entry over those of the first `n` vectors that belong to a
/// centroid.
pub open spec fn sum_in(vectors: Seq<Point>, asgn: Seq<u32>, c: int, d: int, n: nat) -> int
    decreases n,
{
    if n == 0 {
        0
    } else {
        sum_in(vectors, asgn, c, d, (n - 1) as nat) + if asgn[n - 1] == c {
            vectors[n - 1][d] as int
        } else {
            0int
        }
    }
}

/// The mean of an entry, from its sum and how many there are.
pub type Mean = spec_fn(int, int) -> u8;

/// The means that `mean` computes.
pub open spec fn mean_of<M: Fn(u64, u64) -> u8>(mean: M) -> Mean {
    |sum: int, count: int|
        choose|r: u8| #[trigger] mean.ensures((sum as u64, count as u64), r)
}

/// Whether `mean` can be asked for the mean of anything, and always gives the
/// same answer.
pub open spec fn averages<M: Fn(u64, u64) -> u8>(mean: M) -> bool {
    &&& forall|s: u64, n: u64| n > 0 ==> #[trigger] mean.requires((s, n))
    &&& forall|s: u64, n: u64, a: u8, b: u8|
        #[trigger] mean.ensures((s, n), a) && #[trigger] mean.ensures((s, n), b) ==> a == b
}

/// The centroids after they moved to the means of their vectors. One without
/// vectors stays.
pub open spec fn recentred(
    vectors: Seq<Point>,
    centroids: Seq<Point>,
    asgn: Seq<u32>,
    mean: Mean,
) -> Seq<Point> {
    let n = vectors.len();
    Seq::new(
        centroids.len(),
        |c: int|
            if count_in(asgn, c, n) > 0 {
                Seq::new(16, |d: int| mean(sum_in(vectors, asgn, c, d, n), count_in(asgn, c, n)))
            } else {
                centroids[c]
            },
    )
}

/// Centroids and assignments after at most so many more rounds.
pub open spec fn rounds(
    vectors: Seq<Point>,
    centroids: Seq<Point>,
    asgn: Seq<u32>,
    iters: nat,
    mean: Mean,
) -> (Seq<Point>, Seq<u32>)
    decreases iters,
{
    if iters == 0 {
        (centroids, asgn)
    } else {
        let asgn2 = assigned(vectors, centroids);
        let centroids2 = recentred(vectors, centroids, asgn2, mean);
        if asgn2 == asgn {
            (centroids2, asgn2)
        } else {
            rounds(vectors, centroids2, asgn2, (iters - 1) as nat, mean)
        }
    }
}

/// The clustering: centroids, and the centroid of each vector.
pub open spec fn clustered(vectors: Seq<Point>, k: nat, iters: nat, mean: Mean) -> (
    Seq<Point>,
    Seq<u32>,
) {
    rounds(vectors, seeds(vectors, k), Seq::new(vectors.len(), |v: int| 0u32), iters, mean)
}

pub proof fn lemma_closest(v: Point, centroids: Seq<Point>)
    requires
        centroids.len() > 0,
    ensures
        0 <= closest(v, centroids) < centroids.len(),
        forall|c: int|
            0 <= c < centroids.len() ==> sq_dist(v, centroids[closest(v, centroids)], 16)
                <= sq_dist(v, #[trigger] centroids[c], 16),
        forall|c: int|
            0 <= c < closest(v, centroids) ==> sq_dist(v, centroids[closest(v, centroids)], 16)
                < sq_dist(v, #[trigger] centroids[c], 16),
    decreases centroids.len(),
{
    if centroids.len() > 1 {
        let init = centroids.drop_last();
        lemma_closest(v, init);
        assert forall|c: int| 0 <= c < centroids.len() implies sq_dist(
            v,
            centroids[closest(v, centroids)],
            16,
        ) <= sq_dist(v, #[trigger] centroids[c], 16) by {
            if c < init.len() {
                assert(init[c] == centroids[c]);
            }
        }
        assert forall|c: int| 0 <= c < closest(v, centroids) implies sq_dist(
            v,
            centroids[closest(v, centroids)],
            16,
        ) < sq_dist(v, #[trigger] centroids[c], 16) by {
            assert(init[c] == centroids[c]);
        }
    }
}

/// A vector's centroid is one of those nearest to it.
pub proof fn assigned_are_closest(vectors: Seq<Point>, centroids: Seq<Point>, v: int, c: int)
    requires
        0 < centroids.len() <= u32::MAX,
        0 <= v < vectors.len(),
        0 <= c < centroids.len(),
    ensures
        assigned(vectors, centroids)[v] < centroids.len(),
        sq_dist(vectors[v], centroids[assigned(vectors, centroids)[v] as int], 16) <= sq_dist(
            vectors[v],
            centroids[c],
            16,
        ),
{
    lemma_closest(vectors[v], centroids);
}

/// A clustering that a round leaves as it is stays so, however many rounds
/// follow.
pub proof fn convergence_is_stable(
    vectors: Seq<Point>,
    centroids: Seq<Point>,
    asgn: Seq<u32>,
    iters: nat,
    mean: Mean,
)
    requires
        asgn == assigned(vectors, centroids),
        recentred(vectors, centroids, asgn, mean) == centroids,
    ensures
        rounds(vectors, centroids, asgn, iters, mean) == (centroids, asgn),
{
}

/// Every vector is assigned to a centroid that there is.
pub proof fn lemma_rounds_in_range(
    vectors: Seq<Point>,
    centroids: Seq<Point>,
    asgn: Seq<u32>,
    iters: nat,
    mean: Mean,
)
    requires
        0 < centroids.len() <= u32::MAX,
        asgn.len() == vectors.len(),
        forall|v: int| 0 <= v < asgn.len() ==> #[trigger] asgn[v] < centroids.len(),
    ensures
        ({
            let (cs, a) = rounds(vectors, centroids, asgn, iters, mean);
            &&& cs.len() == centroids.len()
            &&& a.len() == vectors.len()
            &&& forall|v: int| 0 <= v < a.len() ==> #[trigger] a[v] < centroids.len()
        }),
    decreases iters,
{
    if iters > 0 {
        let asgn2 = assigned(vectors, centroids);
        let centroids2 = recentred(vectors, centroids, asgn2, mean);
        assert forall|v: int| 0 <= v < asgn2.len() implies #[trigger] asgn2[v]
            < centroids.len() by {
            lemma_closest(vectors[v], centroids);
        }
        if asgn2 != asgn {
            lemma_rounds_in_range(vectors, centroids2, asgn2, (iters - 1) as nat, mean);
        }
    }
}

/// Every vector is assigned to one of the centroids.
pub proof fn clusters_are_in_range(vectors: Seq<Point>, k: nat, iters: nat, mean: Mean)
    requires
        0 < k <= u32::MAX,
    ensures
        ({
            let (cs, a) = clustered(vectors, k, iters, mean);
            &&& cs.len() == k
            &&& a.len() == vectors.len()
            &&& forall|v: int| 0 <= v < a.len() ==> #[trigger] a[v] < k
        }),
{
    lemma_rounds_in_range(
        vectors,
        seeds(vectors, k),
        Seq::new(vectors.len(), |v: int| 0u32),
        iters,
        mean,
    );
}

/// Without vectors and centroids there is nothing to cluster.
pub proof fn lemma_no_vectors(vectors: Seq<Point>, iters: nat, mean: Mean)
    requires
        vectors.len() == 0,
    ensures
        clustered(vectors, 0, iters, mean) == (Seq::<Point>::empty(), Seq::<u32>::empty()),
{
    let none = Seq::new(vectors.len(), |v: int| 0u32);
    assert(seeds(vectors, 0) =~= Seq::empty());
    assert(none =~= Seq::empty());
    assert(assigned(vectors, seeds(vectors, 0)) =~= Seq::empty());
    assert(recentred(vectors, seeds(vectors, 0), Seq::empty(), mean) =~= Seq::empty());
}

/// Draws the first centroids.
fn seed(vectors: &[BVec], k: usize) -> (r: Vec<BVec>)
    requires
        k > 0 ==> vectors@.len() > 0,
    ensures
        points(r@) == seeds(points(vectors@), k as nat),
{
    let mut rng: u64 = SEED;
    let mut r: Vec<BVec> = Vec::new();
    let len: usize = vectors.len();
    let mut i: usize = 0;
    while i < k
        invariant
            i <= k,
            len == vectors@.len(),
            k > 0 ==> len > 0,
            rng == draw(i as nat),
            r@.len() == i,
            forall|j: int|
                0 <= j < i ==> #[trigger] r@[j] == vectors@[draw((j + 1) as nat) as int
                    % len as int],
        decreases k - i,
    {
        rng = step(rng);
        let at: usize = (rng % len as u64) as usize;
        r.push(vectors[at]);
        i = i + 1;
    }
    proof {
        let want = seeds(points(vectors@), k as nat);
        assert forall|j: int| 0 <= j < k implies #[trigger] points(r@)[j] == want[j] by {
            assert(r@[j] == vectors@[draw((j + 1) as nat) as int % len as int]);
        }
        assert(points(r@) =~= want);
    }
    r
}

/// The centroid of a vector.
fn find_closest(v: &BVec, centroids: &[BVec]) -> (c: u32)
    requires
        centroids@.len() <= u32::MAX,
    ensures
        c == closest(v@, points(centroids@)),
{
    let ghost cs = points(centroids@);
    let mut best: u32 = u32::MAX;
    let mut w: usize = 0;
    let mut c: usize = 0;
    while c < centroids.len()
        invariant
            c <= centroids@.len(),
            centroids@.len() <= u32::MAX,
            cs == points(centroids@),
            c == 0 ==> w == 0 && best == u32::MAX,
            c > 0 ==> w < c && w == closest(v@, cs.take(c as int)) && best == sq_dist(
                v@,
                cs[w as int],
                16,
            ) && best < u32::MAX,
        decreases centroids@.len() - c,
    {
        let d = sq_dist_u8(v, &centroids[c]);
        proof {
            crate::distance::lemma_sq_dist_bound(v@, centroids@[c as int]@, 16);
            assert(cs.take(c + 1).drop_last() =~= cs.take(c as int));
            assert(cs.take(c + 1).last() == cs[c as int]);
            if c > 0 {
                assert(cs.take(c + 1)[w as int] == cs[w as int]);
            }
        }
        if d < best {
            best = d;
            w = c;
        }
        c = c + 1;
    }
    assert(cs.take(cs.len() as int) =~= cs);
    w as u32
}

proof fn lemma_tally_bounds(vectors: Seq<Point>, asgn: Seq<u32>, c: int, d: int, n: nat)
    ensures
        0 <= count_in(asgn, c, n) <= n,
        0 <= sum_in(vectors, asgn, c, d, n) <= 255 * n,
    decreases n,
{
    if n > 0 {
        lemma_tally_bounds(vectors, asgn, c, d, (n - 1) as nat);
    }
}

/// Assigns every vector; gives back how many were assigned anew.
fn assign(vectors: &[BVec], centroids: &[BVec], asgn: &mut Vec<u32>) -> (changed: usize)
    requires
        centroids@.len() <= u32::MAX,
        old(asgn)@.len() == vectors@.len(),
    ensures
        final(asgn)@ == assigned(points(vectors@), points(centroids@)),
        changed == 0 <==> final(asgn)@ == old(asgn)@,
{
    let ghost before = asgn@;
    let ghost want = assigned(points(vectors@), points(centroids@));
    let mut changed: usize = 0;
    let mut v: usize = 0;
    while v < vectors.len()
        invariant
            v <= vectors@.len(),
            centroids@.len() <= u32::MAX,
            asgn@.len() == vectors@.len(),
            before.len() == vectors@.len(),
            want == assigned(points(vectors@), points(centroids@)),
            forall|i: int| 0 <= i < v ==> #[trigger] asgn@[i] == want[i],
            forall|i: int| v <= i < asgn@.len() ==> #[trigger] asgn@[i] == before[i],
            changed <= v,
            changed == 0 ==> asgn@ == before,
            changed > 0 ==> exists|i: int| 0 <= i < v && #[trigger] asgn@[i] != before[i],
        decreases vectors@.len() - v,
    {
        let c = find_closest(&vectors[v], centroids);
        let ghost prev = asgn@;
        if asgn[v] != c {
            changed = changed + 1;
            asgn.set(v, c);
            assert(asgn@[v as int] != before[v as int]);
        }
        proof {
            assert(points(vectors@)[v as int] == vectors@[v as int]@);
            assert(asgn@[v as int] == want[v as int]);
            if changed > 0 && asgn@ == prev {
                let i = choose|i: int| 0 <= i < v && #[trigger] prev[i] != before[i];
                assert(asgn@[i] != before[i]);
            }
        }
        v = v + 1;
    }
    assert(asgn@ =~= want);
    changed
}

/// Sums and counts per centroid.
fn tally(vectors: &[BVec], asgn: &[u32], k: usize) -> (r: (Vec<[u64; 16]>, Vec<u64>))
    requires
        asgn@.len() == vectors@.len(),
        255 * vectors@.len() <= u64::MAX,
        forall|v: int| 0 <= v < asgn@.len() ==> #[trigger] asgn@[v] < k,
    ensures
        r.0@.len() == k,
        r.1@.len() == k,
        forall|c: int|
            0 <= c < k ==> #[trigger] r.1@[c] == count_in(asgn@, c, vectors@.len()),
        forall|c: int, d: int|
            0 <= c < k && 0 <= d < 16 ==> #[trigger] r.0@[c]@[d] == sum_in(
                points(vectors@),
                asgn@,
                c,
                d,
                vectors@.len(),
            ),
{
    let ghost ps = points(vectors@);
    let mut sums: Vec<[u64; 16]> = Vec::new();
    let mut counts: Vec<u64> = Vec::new();
    let mut c: usize = 0;
    while c < k
        invariant
            c <= k,
            sums@.len() == c,
            counts@.len() == c,
            forall|i: int| 0 <= i < c ==> #[trigger] counts@[i] == 0,
            forall|i: int, d: int| 0 <= i < c && 0 <= d < 16 ==> #[trigger] sums@[i]@[d] == 0,
        decreases k - c,
    {
        sums.push([0u64; 16]);
        counts.push(0);
        c = c + 1;
    }
    let mut v: usize = 0;
    while v < vectors.len()
        invariant
            v <= vectors@.len(),
            ps == points(vectors@),
            asgn@.len() == vectors@.len(),
            255 * vectors@.len() <= u64::MAX,
            forall|i: int| 0 <= i < asgn@.len() ==> #[trigger] asgn@[i] < k,
            sums@.len() == k,
            counts@.len() == k,
            forall|i: int|
                0 <= i < k ==> #[trigger] counts@[i] == count_in(asgn@, i, v as nat),
            forall|i: int, d: int|
                0 <= i < k && 0 <= d < 16 ==> #[trigger] sums@[i]@[d] == sum_in(
                    ps,
                    asgn@,
                    i,
                    d,
                    v as nat,
                ),
        decreases vectors@.len() - v,
    {
        assert(asgn@[v as int] < k);
        let c: usize = asgn[v] as usize;
        let ghost sums0 = sums@;
        proof {
            lemma_tally_bounds(ps, asgn@, c as int, 0, v as nat);
        }
        let n: u64 = counts[c];
        counts.set(c, n + 1);
        let mut row: [u64; 16] = sums[c];
        let mut d: usize = 0;
        while d < 16
            invariant
                d <= 16,
                v < vectors@.len(),
                ps == points(vectors@),
                255 * vectors@.len() <= u64::MAX,
                c < k,
                sums0.len() == k,
                forall|j: int|
                    0 <= j < 16 ==> #[trigger] sums0[c as int]@[j] == sum_in(
                        ps,
                        asgn@,
                        c as int,
                        j,
                        v as nat,
                    ),
                forall|j: int|
                    0 <= j < d ==> #[trigger] row@[j] == sums0[c as int]@[j]
                        + vectors@[v as int]@[j],
                forall|j: int| d <= j < 16 ==> #[trigger] row@[j] == sums0[c as int]@[j],
            decreases 16 - d,
        {
            proof {
                lemma_tally_bounds(ps, asgn@, c as int, d as int, v as nat);
                assert(sums0[c as int]@[d as int] == sum_in(
                    ps,
                    asgn@,
                    c as int,
                    d as int,
                    v as nat,
                ));
            }
            row[d] = row[d] + vectors[v][d] as u64;
            d = d + 1;
        }
        sums.set(c, row);
        proof {
            assert forall|i: int, j: int| 0 <= i < k && 0 <= j < 16 implies #[trigger]
                sums@[i]@[j] == sum_in(ps, asgn@, i, j, (v + 1) as nat) by {
                assert(sums0[i]@[j] == sum_in(ps, asgn@, i, j, v as nat));
                assert(ps[v as int] == vectors@[v as int]@);
                if i == c {
                    assert(sums@[i]@[j] == row@[j]);
                }
            }
        }
        v = v + 1;
    }
    (sums, counts)
}

/// Moves the centroids to the means of their vectors.
fn recentre<M: Fn(u64, u64) -> u8>(
    vectors: &[BVec],
    centroids: &mut Vec<BVec>,
    asgn: &[u32],
    mean: &M,
)
    requires
        averages(*mean),
        asgn@.len() == vectors@.len(),
        255 * vectors@.len() <= u64::MAX,
        forall|v: int| 0 <= v < asgn@.len() ==> #[trigger] asgn@[v] < old(centroids)@.len(),
    ensures
        points(final(centroids)@) == recentred(
            points(vectors@),
            points(old(centroids)@),
            asgn@,
            mean_of(*mean),
        ),
{
    let k: usize = centroids.len();
    let ghost ps = points(vectors@);
    let ghost before = centroids@;
    let ghost n = vectors@.len();
    let ghost want = recentred(ps, points(before), asgn@, mean_of(*mean));
    let (sums, counts) = tally(vectors, asgn, k);
    let mut c: usize = 0;
    while c < k
        invariant
            c <= k,
            k == before.len(),
            centroids@.len() == k,
            averages(*mean),
            ps == points(vectors@),
            n == vectors@.len(),
            want == recentred(ps, points(before), asgn@, mean_of(*mean)),
            sums@.len() == k,
            counts@.len() == k,
            forall|i: int| 0 <= i < k ==> #[trigger] counts@[i] == count_in(asgn@, i, n),
            forall|i: int, d: int|
                0 <= i < k && 0 <= d < 16 ==> #[trigger] sums@[i]@[d] == sum_in(
                    ps,
                    asgn@,
                    i,
                    d,
                    n,
                ),
            forall|i: int| 0 <= i < c ==> (#[trigger] centroids@[i])@ == want[i],
            forall|i: int| c <= i < k ==> #[trigger] centroids@[i] == before[i],
        decreases k - c,
    {
        let count: u64 = counts[c];
        if count > 0 {
            let mut row: BVec = [0u8; 16];
            let mut d: usize = 0;
            while d < 16
                invariant
                    d <= 16,
                    c < k,
                    sums@.len() == k,
                    averages(*mean),
                    count > 0,
                    count == count_in(asgn@, c as int, n),
                    forall|j: int|
                        0 <= j < 16 ==> #[trigger] sums@[c as int]@[j] == sum_in(
                            ps,
                            asgn@,
                            c as int,
                            j,
                            n,
                        ),
                    forall|j: int|
                        0 <= j < d ==> #[trigger] row@[j] == mean_of(*mean)(
                            sum_in(ps, asgn@, c as int, j, n),
                            count as int,
                        ),
                decreases 16 - d,
            {
                let sum: u64 = sums[c][d];
                assert(sums@[c as int]@[d as int] == sum);
                let x: u8 = mean(sum, count);
                assert(mean.ensures((sum, count), x));
                row[d] = x;
                d = d + 1;
            }
            centroids.set(c, row);
            assert(row@ =~= want[c as int]);
        } else {
            assert(points(before)[c as int] == before[c as int]@);
            assert(centroids@[c as int]@ =~= want[c as int]);
        }
        c = c + 1;
    }
    assert(points(centroids@) =~= want);
}

/// Clusters the vectors around `k` centroids in at most `iters` rounds. `mean`
/// computes a mean from a sum and how many were summed.
pub fn kmeans<M: Fn(u64, u64) -> u8>(vectors: &[BVec], k: usize, iters: usize, mean: &M) -> (r: (
    Vec<BVec>,
    Vec<u32>,
))
    requires
        averages(*mean),
        vectors@.len() >= k,
        k > 0 || vectors@.len() == 0 || iters == 0,
        k <= u32::MAX,
        255 * vectors@.len() <= u64::MAX,
    ensures
        ({
            let (centroids, asgn) = clustered(
                points(vectors@),
                k as nat,
                iters as nat,
                mean_of(*mean),
            );
            points(r.0@) == centroids && r.1@ == asgn
        }),
{
    let n: usize = vectors.len();
    let ghost ps = points(vectors@);
    let ghost avg = mean_of(*mean);
    let ghost want = clustered(ps, k as nat, iters as nat, avg);
    let mut centroids = seed(vectors, k);
    let mut asgn: Vec<u32> = Vec::new();
    let mut i: usize = 0;
    while i < n
        invariant
            i <= n,
            asgn@.len() == i,
            forall|v: int| 0 <= v < i ==> #[trigger] asgn@[v] == 0,
        decreases n - i,
    {
        asgn.push(0);
        i = i + 1;
    }
    assert(asgn@ =~= Seq::new(ps.len(), |v: int| 0u32));
    let mut left: usize = iters;
    while left > 0
        invariant
            averages(*mean),
            ps == points(vectors@),
            avg == mean_of(*mean),
            n == vectors@.len(),
            asgn@.len() == n,
            centroids@.len() == k,
            k > 0 || n == 0 || left == 0,
            k <= u32::MAX,
            255 * vectors@.len() <= u64::MAX,
            want == clustered(ps, k as nat, iters as nat, avg),
            want == rounds(ps, points(centroids@), asgn@, left as nat, avg),
        decreases left,
    {
        let ghost before = points(centroids@);
        let changed = assign(vectors, centroids.as_slice(), &mut asgn);
        proof {
            assert forall|v: int| 0 <= v < asgn@.len() implies #[trigger] asgn@[v] < k by {
                lemma_closest(ps[v], before);
            }
        }
        recentre(vectors, &mut centroids, asgn.as_slice(), mean);
        assert(points(centroids@).len() == centroids@.len());
        if changed == 0 {
            return (centroids, asgn);
        }
        left = left - 1;
    }
    (centroids, asgn)
}

} // verus!
