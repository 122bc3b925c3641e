//! What a clustering is: every centroid the mean of its vectors, every vector
//! with its nearest centroid, round by round.
use vstd::prelude::*;

use crate::distance::sq_dist;
use crate::draws::next_draw;
use crate::ivf::kmeans::{
    assigned, clustered, count_in, draw, lemma_closest, recentred, rounds, seeds, sum_in, Mean,
    Point,
};

verus! {

/// The sum of numbers.
pub open spec fn summed(s: Seq<int>) -> int {
    s.fold_left(0int, |a: int, b: int| a + b)
}

/// The vectors that belong to a centroid, in order.
pub open spec fn members(vectors: Seq<Point>, asgn: Seq<u32>, c: int) -> Seq<Point> {
    Seq::new(vectors.len(), |v: int| v).filter(|v: int| asgn[v] == c).map_values(
        |v: int| vectors[v],
    )
}

/// One entry of several vectors.
pub open spec fn column(ps: Seq<Point>, d: int) -> Seq<int> {
    ps.map_values(|p: Point| p[d] as int)
}

/// The members among the first `n` vectors.
spec fn members_to(vectors: Seq<Point>, asgn: Seq<u32>, c: int, n: nat) -> Seq<Point> {
    Seq::new(n, |v: int| v).filter(|v: int| asgn[v] == c).map_values(|v: int| vectors[v])
}

proof fn lemma_one_more(vectors: Seq<Point>, asgn: Seq<u32>, c: int, n: nat)
    requires
        n > 0,
    ensures
        members_to(vectors, asgn, c, n) == if asgn[n - 1] == c {
            members_to(vectors, asgn, c, (n - 1) as nat).push(vectors[n - 1])
        } else {
            members_to(vectors, asgn, c, (n - 1) as nat)
        },
{
    let m = (n - 1) as nat;
    let a = Seq::new(n, |v: int| v);
    let b = Seq::new(m, |v: int| v);
    let f = |v: int| asgn[v] == c;
    let g = |v: int| vectors[v];
    assert(a.drop_last() =~= b);
    reveal(Seq::filter);
    assert(a.filter(f) == if f(a.last()) {
        b.filter(f).push(a.last())
    } else {
        b.filter(f)
    });
    if asgn[n - 1] == c {
        assert(b.filter(f).push(n - 1).map_values(g) =~= b.filter(f).map_values(g).push(
            vectors[n - 1],
        ));
    }
}

/// Sums and counts over the first `n` vectors.
proof fn lemma_tallies(vectors: Seq<Point>, asgn: Seq<u32>, c: int, d: int, n: nat)
    ensures
        count_in(asgn, c, n) == members_to(vectors, asgn, c, n).len(),
        sum_in(vectors, asgn, c, d, n) == summed(column(members_to(vectors, asgn, c, n), d)),
    decreases n,
{
    if n == 0 {
        reveal(Seq::filter);
        assert(Seq::new(0, |v: int| v).len() == 0);
        assert(members_to(vectors, asgn, c, 0) =~= Seq::empty());
        assert(column(members_to(vectors, asgn, c, 0), d) =~= Seq::empty());
    } else {
        let m = (n - 1) as nat;
        lemma_tallies(vectors, asgn, c, d, m);
        lemma_one_more(vectors, asgn, c, n);
        if asgn[n - 1] == c {
            let front = members_to(vectors, asgn, c, m);
            let all = front.push(vectors[n - 1]);
            assert(column(all, d).drop_last() =~= column(front, d));
            assert(column(all, d).last() == vectors[n - 1][d]);
        }
    }
}

/// A round moves each centroid with vectors to their mean: each of its entries
/// is the mean of that entry of its vectors. One without vectors stays.
pub proof fn centroids_move_to_the_mean(
    vectors: Seq<Point>,
    centroids: Seq<Point>,
    asgn: Seq<u32>,
    mean: Mean,
    c: int,
)
    requires
        0 <= c < centroids.len(),
    ensures
        recentred(vectors, centroids, asgn, mean).len() == centroids.len(),
        ({
            let moved = recentred(vectors, centroids, asgn, mean)[c];
            let ms = members(vectors, asgn, c);
            if ms.len() > 0 {
                moved.len() == 16 && forall|d: int|
                    0 <= d < 16 ==> #[trigger] moved[d] == mean(
                        summed(column(ms, d)),
                        ms.len() as int,
                    )
            } else {
                moved == centroids[c]
            }
        }),
{
    let moved = recentred(vectors, centroids, asgn, mean)[c];
    let n = vectors.len();
    let ms = members(vectors, asgn, c);
    assert(ms == members_to(vectors, asgn, c, n));
    lemma_tallies(vectors, asgn, c, 0, n);
    if ms.len() > 0 {
        assert forall|d: int| 0 <= d < 16 implies #[trigger] moved[d] == mean(
            summed(column(ms, d)),
            ms.len() as int,
        ) by {
            lemma_tallies(vectors, asgn, c, d, n);
        }
    }
}

proof fn lemma_sum_of_one(s: Seq<int>, x: int)
    requires
        forall|i: int| 0 <= i < s.len() ==> #[trigger] s[i] == x,
    ensures
        summed(s) == x * s.len(),
    decreases s.len(),
{
    if s.len() > 0 {
        lemma_sum_of_one(s.drop_last(), x);
        assert(x * s.len() == x * (s.len() - 1) + x) by (nonlinear_arith);
    } else {
        assert(x * s.len() == 0) by (nonlinear_arith)
            requires
                s.len() == 0,
        ;
    }
}

/// Whether the mean of a number and itself is that number.
pub open spec fn fair(mean: Mean) -> bool {
    forall|x: u8, n: int| n > 0 ==> #[trigger] mean(x * n, n) == x
}

/// Where the mean of a number and itself is that number, a centroid whose
/// vectors are all the same moves to that vector.
pub proof fn centroids_of_one_vector_move_there(
    vectors: Seq<Point>,
    centroids: Seq<Point>,
    asgn: Seq<u32>,
    mean: Mean,
    c: int,
    p: Point,
)
    requires
        0 <= c < centroids.len(),
        fair(mean),
        p.len() == 16,
        members(vectors, asgn, c).len() > 0,
        forall|i: int|
            0 <= i < members(vectors, asgn, c).len() ==> #[trigger] members(vectors, asgn, c)[i]
                == p,
    ensures
        recentred(vectors, centroids, asgn, mean)[c] == p,
{
    let ms = members(vectors, asgn, c);
    let moved = recentred(vectors, centroids, asgn, mean)[c];
    centroids_move_to_the_mean(vectors, centroids, asgn, mean, c);
    assert forall|d: int| 0 <= d < 16 implies #[trigger] moved[d] == p[d] by {
        let col = column(ms, d);
        assert forall|i: int| 0 <= i < col.len() implies #[trigger] col[i] == p[d] by {
            assert(ms[i] == p);
        }
        lemma_sum_of_one(col, p[d] as int);
        assert(mean(p[d] * (ms.len() as int), ms.len() as int) == p[d]);
    }
    assert(moved =~= p);
}

/// The centroids after so many rounds.
pub open spec fn stage(vectors: Seq<Point>, k: nat, mean: Mean, t: nat) -> Seq<Point>
    decreases t,
{
    if t == 0 {
        seeds(vectors, k)
    } else {
        let before = stage(vectors, k, mean, (t - 1) as nat);
        recentred(vectors, before, assigned(vectors, before), mean)
    }
}

/// The assignments of a round; before the first, all vectors are with the first
/// centroid.
pub open spec fn sorted_by(vectors: Seq<Point>, k: nat, mean: Mean, t: nat) -> Seq<u32> {
    if t == 0 {
        Seq::new(vectors.len(), |v: int| 0u32)
    } else {
        assigned(vectors, stage(vectors, k, mean, (t - 1) as nat))
    }
}

/// Whether a round assigns nothing anew.
pub open spec fn idle(vectors: Seq<Point>, k: nat, mean: Mean, t: nat) -> bool {
    t > 0 && sorted_by(vectors, k, mean, t) == sorted_by(vectors, k, mean, (t - 1) as nat)
}

proof fn lemma_rounds(vectors: Seq<Point>, k: nat, mean: Mean, t: nat, left: nat) -> (end: nat)
    ensures
        t <= end <= t + left,
        left > 0 ==> end > t,
        rounds(
            vectors,
            stage(vectors, k, mean, t),
            sorted_by(vectors, k, mean, t),
            left,
            mean,
        ) == (stage(vectors, k, mean, end), sorted_by(vectors, k, mean, end)),
        end < t + left ==> idle(vectors, k, mean, end),
        forall|s: nat| t < s < end ==> !#[trigger] idle(vectors, k, mean, s),
    decreases left,
{
    if left == 0 {
        t
    } else {
        let next = t + 1;
        assert(stage(vectors, k, mean, next) == recentred(
            vectors,
            stage(vectors, k, mean, t),
            sorted_by(vectors, k, mean, next),
            mean,
        ));
        if idle(vectors, k, mean, next) {
            next
        } else {
            let end = lemma_rounds(vectors, k, mean, next, (left - 1) as nat);
            assert forall|s: nat| t < s < end implies !#[trigger] idle(vectors, k, mean, s) by {
                if s > next {
                    assert(!idle(vectors, k, mean, s));
                }
            }
            end
        }
    }
}

/// A clustering goes round by round until a round assigns nothing anew, or all
/// rounds are done: its centroids and its assignments are those of its last
/// round.
pub proof fn clustering_stops_at_the_first_idle_round(
    vectors: Seq<Point>,
    k: nat,
    iters: nat,
    mean: Mean,
) -> (end: nat)
    ensures
        end <= iters,
        iters > 0 ==> end > 0,
        clustered(vectors, k, iters, mean) == (
            stage(vectors, k, mean, end),
            sorted_by(vectors, k, mean, end),
        ),
        end < iters ==> idle(vectors, k, mean, end),
        forall|s: nat| 0 < s < end ==> !#[trigger] idle(vectors, k, mean, s),
{
    lemma_rounds(vectors, k, mean, 0, iters)
}

/// After any round, each centroid with vectors is their mean, entry by entry.
pub proof fn centroids_are_means_of_their_vectors(
    vectors: Seq<Point>,
    k: nat,
    iters: nat,
    mean: Mean,
    c: int,
)
    requires
        iters > 0,
        0 <= c < k,
    ensures
        ({
            let (cs, asgn) = clustered(vectors, k, iters, mean);
            let ms = members(vectors, asgn, c);
            ms.len() > 0 ==> cs[c].len() == 16 && forall|d: int|
                0 <= d < 16 ==> #[trigger] cs[c][d] == mean(
                    summed(column(ms, d)),
                    ms.len() as int,
                )
        }),
{
    let end = clustering_stops_at_the_first_idle_round(vectors, k, iters, mean);
    let before = stage(vectors, k, mean, (end - 1) as nat);
    lemma_stage_len(vectors, k, mean, (end - 1) as nat);
    centroids_move_to_the_mean(vectors, before, assigned(vectors, before), mean, c);
}

proof fn lemma_stage_len(vectors: Seq<Point>, k: nat, mean: Mean, t: nat)
    ensures
        stage(vectors, k, mean, t).len() == k,
    decreases t,
{
    if t > 0 {
        lemma_stage_len(vectors, k, mean, (t - 1) as nat);
    }
}

/// A vector goes to the nearest centroid, the first of several: none is nearer,
/// and those before it are further away.
pub proof fn vectors_go_to_the_first_nearest(
    vectors: Seq<Point>,
    centroids: Seq<Point>,
    v: int,
    c: int,
)
    requires
        0 < centroids.len() <= u32::MAX,
        0 <= v < vectors.len(),
        0 <= c < centroids.len(),
    ensures
        assigned(vectors, centroids).len() == vectors.len(),
        ({
            let own = assigned(vectors, centroids)[v] as int;
            let near = sq_dist(vectors[v], centroids[own], 16);
            &&& 0 <= own < centroids.len()
            &&& near <= sq_dist(vectors[v], centroids[c], 16)
            &&& c < own ==> near < sq_dist(vectors[v], centroids[c], 16)
        }),
{
    lemma_closest(vectors[v], centroids);
}

/// The first centroids are vectors that are drawn one after the other: asking
/// for more of them leaves the first ones as they are.
pub proof fn seeds_are_drawn_one_by_one(vectors: Seq<Point>, k: nat, i: int)
    requires
        vectors.len() > 0,
        0 <= i < k,
    ensures
        seeds(vectors, k).len() == k,
        vectors.contains(seeds(vectors, k)[i]),
        seeds(vectors, k)[i] == seeds(vectors, k + 1)[i],
        draw(0) == 0x517c_c1b7_2722_0a95,
        draw((i + 1) as nat) == next_draw(draw(i as nat)),
        seeds(vectors, k)[i] == vectors[draw((i + 1) as nat) as int % vectors.len() as int],
{
    let at = draw((i + 1) as nat) as int % vectors.len() as int;
    assert(vectors[at] == seeds(vectors, k)[i]);
}

} // verus!
