//! What distances, boxes and spreads of quantised vectors are, and where records
//! go.
use vstd::prelude::*;

use crate::tree::grow::{plain, plain_all, spread, total, total_sq, Row};
use crate::tree::index::{routed, Point};
use crate::tree::kernel::{
    box_dist, box_dist_is_lower_bound, box_dist_to, gap, in_box, sq_dist, sq_dist_to, QVec, DIMS,
};
use crate::types::RawData;

verus! {

/// Each of the fourteen features adds the square of its difference: without it
/// the distance is smaller by so much.
pub proof fn sq_dist_adds_up(q: Seq<i16>, v: Seq<i16>, n: nat, i: int)
    requires
        0 <= i < n <= q.len(),
        n <= v.len(),
    ensures
        sq_dist_to(q, v, n) == sq_dist_to(q.update(i, v[i]), v, n) + (q[i] - v[i]) * (q[i] - v[i]),
    decreases n,
{
    let c = q.update(i, v[i]);
    let m = (n - 1) as nat;
    if i == m {
        lemma_dist_of_front(q, c, v, v, m);
        let z = c[i] - v[i];
        assert(z * z == 0) by (nonlinear_arith)
            requires
                z == 0,
        ;
    } else {
        sq_dist_adds_up(q, v, m, i);
    }
}

/// Distances go by the first `n` features alone.
pub proof fn lemma_dist_of_front(q: Seq<i16>, r: Seq<i16>, v: Seq<i16>, w: Seq<i16>, n: nat)
    requires
        forall|j: int| 0 <= j < n ==> #[trigger] q[j] == r[j],
        forall|j: int| 0 <= j < n ==> #[trigger] v[j] == w[j],
    ensures
        sq_dist_to(q, v, n) == sq_dist_to(r, w, n),
    decreases n,
{
    if n > 0 {
        lemma_dist_of_front(q, r, v, w, (n - 1) as nat);
    }
}

proof fn lemma_square_of(d: int)
    by (nonlinear_arith)
    ensures
        d * d >= 0,
        d * d == 0 <==> d == 0,
{
}

proof fn lemma_zero_when_equal(q: Seq<i16>, v: Seq<i16>, n: nat)
    ensures
        sq_dist_to(q, v, n) >= 0,
        sq_dist_to(q, v, n) == 0 <==> forall|j: int| 0 <= j < n ==> #[trigger] q[j] == v[j],
    decreases n,
{
    if n > 0 {
        let m = (n - 1) as nat;
        lemma_zero_when_equal(q, v, m);
        lemma_square_of(q[n - 1] - v[n - 1]);
        if sq_dist_to(q, v, n) == 0 {
            assert forall|j: int| 0 <= j < n implies #[trigger] q[j] == v[j] by {
                if j == m {
                    assert(q[n - 1] - v[n - 1] == 0);
                }
            }
        }
        if forall|j: int| 0 <= j < n ==> #[trigger] q[j] == v[j] {
            assert(q[n - 1] == v[n - 1]);
        }
    }
}

/// Fourteen features count, and the padding does not: vectors that agree in them
/// are equally far from any other, and only those are at distance zero.
pub proof fn distances_leave_padding_out(q: QVec, r: QVec, v: QVec)
    ensures
        (forall|j: int| 0 <= j < 14 ==> #[trigger] q@[j] == r@[j]) ==> sq_dist(q@, v@) == sq_dist(
            r@,
            v@,
        ),
        sq_dist(q@, r@) == 0 <==> forall|j: int| 0 <= j < 14 ==> #[trigger] q@[j] == r@[j],
{
    lemma_zero_when_equal(q@, r@, 14);
    if forall|j: int| 0 <= j < 14 ==> #[trigger] q@[j] == r@[j] {
        lemma_dist_of_front(q@, r@, v@, v@, 14);
    }
}

/// The vector of a box that is nearest to another.
pub open spec fn clamped(q: Seq<i16>, min: Seq<i16>, max: Seq<i16>) -> Seq<i16> {
    Seq::new(
        14,
        |d: int|
            if q[d] < min[d] {
                min[d]
            } else if q[d] > max[d] {
                max[d]
            } else {
                q[d]
            },
    )
}

proof fn lemma_clamped(q: Seq<i16>, min: Seq<i16>, max: Seq<i16>, n: nat)
    requires
        n <= 14,
    ensures
        sq_dist_to(q, clamped(q, min, max), n) == box_dist_to(q, min, max, n),
    decreases n,
{
    if n > 0 {
        lemma_clamped(q, min, max, (n - 1) as nat);
        let d = q[n - 1] - clamped(q, min, max)[n - 1];
        let g = gap(q[n - 1] as int, min[n - 1] as int, max[n - 1] as int);
        assert(d == g || d == -g);
        assert(d * d == g * g) by (nonlinear_arith)
            requires
                d == g || d == -g,
        ;
    }
}

/// The distance to a box is that to the nearest vector in it: none is nearer,
/// and one is as near.
pub proof fn boxes_are_as_near_as_their_nearest_vector(q: Seq<i16>, min: Seq<i16>, max: Seq<i16>)
    requires
        forall|d: int| 0 <= d < 14 ==> #[trigger] min[d] <= max[d],
    ensures
        exists|v: Seq<i16>|
            #![trigger in_box(v, min, max)]
            in_box(v, min, max) && v.len() == 14 && sq_dist(q, v) == box_dist(q, min, max),
        forall|v: Seq<i16>| #[trigger]
            in_box(v, min, max) ==> box_dist(q, min, max) <= sq_dist(q, v),
{
    let v = clamped(q, min, max);
    lemma_clamped(q, min, max, 14);
    assert(in_box(v, min, max)) by {
        assert forall|d: int| 0 <= d < DIMS implies min[d] <= #[trigger] v[d] <= max[d] by {
            assert(min[d] <= max[d]);
        }
    }
    assert forall|w: Seq<i16>| #[trigger] in_box(w, min, max) implies box_dist(q, min, max)
        <= sq_dist(q, w) by {
        box_dist_is_lower_bound(q, w, min, max);
    }
}

/// The squared differences of a value from feature `d` of records, summed up.
pub open spec fn apart(rows: Seq<Row>, d: int, x: int) -> int {
    rows.map_values(|r: Row| (r.0[d] - x) * (r.0[d] - x)).fold_left(0int, |a: int, b: int| a + b)
}

proof fn lemma_apart(rows: Seq<Row>, n: nat, d: int, x: int)
    requires
        n <= rows.len(),
    ensures
        apart(rows.take(n as int), d, x) == total_sq(rows, n, d) - 2 * x * total(rows, n, d) + n * (
        x * x),
    decreases n,
{
    let front = rows.take(n as int);
    let f = |r: Row| (r.0[d] - x) * (r.0[d] - x);
    if n == 0 {
        assert(front.map_values(f) =~= Seq::empty());
        assert(2 * x * 0 == 0) by (nonlinear_arith);
        assert(0 * (x * x) == 0) by (nonlinear_arith);
    } else {
        let m = (n - 1) as nat;
        lemma_apart(rows, m, d, x);
        let init = rows.take(m as int);
        assert(front.map_values(f).drop_last() =~= init.map_values(f));
        let y = rows[m as int].0[d] as int;
        assert(front.map_values(f).last() == (y - x) * (y - x));
        let s = total(rows, m, d);
        assert((y - x) * (y - x) == y * y - 2 * x * y + x * x) by (nonlinear_arith);
        assert(2 * x * (s + y) == 2 * x * s + 2 * x * y) by (nonlinear_arith);
        assert(n * (x * x) == m * (x * x) + x * x) by (nonlinear_arith)
            requires
                n == m + 1,
        ;
    }
}

/// One record more adds to the spread how far its value is from each of the
/// others, squared: the spread sums up how far apart the values are, and without
/// records there is none.
pub proof fn spreads_sum_up_how_far_values_are_apart(rows: Seq<Row>, row: Row, d: int)
    ensures
        spread(rows.push(row), d) == spread(rows, d) + apart(rows, d, row.0[d] as int),
        spread(Seq::empty(), d) == 0,
{
    let n = rows.len();
    let more = rows.push(row);
    let x = row.0[d] as int;
    lemma_apart(rows, n, d, x);
    assert(rows.take(n as int) =~= rows);
    lemma_totals_of_front(rows, more, n, d);
    let s = total(rows, n, d);
    let t = total_sq(rows, n, d);
    assert(more.len() == n + 1);
    assert(total(more, n + 1, d) == s + x);
    assert(total_sq(more, n + 1, d) == t + x * x);
    assert((n + 1) * (t + x * x) - (s + x) * (s + x) == n * t - s * s + (t - 2 * x * s + n * (x
        * x))) by (nonlinear_arith);
    assert(0 * total_sq(Seq::empty(), 0, d) == 0) by (nonlinear_arith);
}

proof fn lemma_totals_of_front(a: Seq<Row>, b: Seq<Row>, n: nat, d: int)
    requires
        forall|i: int| 0 <= i < n ==> a[i] == #[trigger] b[i],
    ensures
        total(a, n, d) == total(b, n, d),
        total_sq(a, n, d) == total_sq(b, n, d),
    decreases n,
{
    if n > 0 {
        lemma_totals_of_front(a, b, (n - 1) as nat, d);
        assert(a[n - 1] == b[n - 1]);
    }
}

/// Whether a record goes to the partition with that number: a card that is
/// present counts one, a terminal that is online two, and a last transaction
/// four.
pub open spec fn goes_to(p: Point, part: int) -> bool {
    &&& 0 <= part < 8
    &&& p.card_present <==> part % 2 == 1
    &&& p.is_online <==> part / 2 % 2 == 1
    &&& p.has_last_tx <==> part / 4 == 1
}

/// A partition gets exactly the records that go to it, in their order, each with
/// its vector, and flagged where it is labelled as fraud.
pub proof fn partitions_get_their_records(data: Seq<RawData<Point>>, n: nat, p: int)
    requires
        n <= data.len(),
        0 <= p < 8,
    ensures
        routed(data, n, p) == data.take(n as int).filter(
            |r: RawData<Point>| goes_to(r.vector, p),
        ).map_values(
            |r: RawData<Point>|
                (
                    r.vector.q,
                    if r.label@ == "fraud"@ {
                        1u8
                    } else {
                        0u8
                    },
                ),
        ),
    decreases n,
{
    let f = |r: RawData<Point>| goes_to(r.vector, p);
    let g = |r: RawData<Point>|
        (
            r.vector.q,
            if r.label@ == "fraud"@ {
                1u8
            } else {
                0u8
            },
        );
    reveal(Seq::filter);
    let front = data.take(n as int);
    if n == 0 {
        assert(front.filter(f) =~= Seq::empty());
        assert(front.filter(f).map_values(g) =~= Seq::empty());
    } else {
        partitions_get_their_records(data, (n - 1) as nat, p);
        let init = data.take(n - 1);
        assert(front.drop_last() =~= init);
        assert(front.last() == data[n - 1]);
        assert(front.filter(f) == if f(data[n - 1]) {
            init.filter(f).push(data[n - 1])
        } else {
            init.filter(f)
        });
        if f(data[n - 1]) {
            assert(init.filter(f).push(data[n - 1]).map_values(g) =~= init.filter(f).map_values(
                g,
            ).push(g(data[n - 1])));
        }
    }
}

/// A record is an entry by its fourteen features and its label.
pub proof fn entries_are_features_and_label(rows: Seq<Row>, i: int)
    requires
        0 <= i < rows.len(),
    ensures
        plain_all(rows).len() == rows.len(),
        plain_all(rows)[i].0.len() == 14,
        forall|d: int| 0 <= d < 14 ==> #[trigger] plain_all(rows)[i].0[d] == rows[i].0@[d],
        plain_all(rows)[i].1 == rows[i].1,
{
    assert(plain_all(rows)[i] == plain(rows[i]));
}

} // verus!
