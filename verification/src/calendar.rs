//! Timestamps are ordered as they are written.
use vstd::prelude::*;

use crate::input::json::{decimal, NINE, ZERO};
use crate::input::payload::Request;
use crate::input::written::COLON;
use crate::normalizer::{
    day_number, day_of, days_are_counted_one_by_one, days_in, digits_between,
    earlier_transactions_are_longer_ago, features_of, figures_between, has_times, hour_of,
    lemma_four_digits, lemma_two_digits, minute_of, minutes_of, month_of, year_of,
};

verus! {

/// `-`
pub const DASH: u8 = 0x2d;

/// `T`
pub const DAY_END: u8 = 0x54;

/// Whether a timestamp tells a minute that there is: `YYYY-MM-DDThh:mm`, and
/// anything behind that.
pub open spec fn is_moment(s: Seq<u8>) -> bool {
    &&& s.len() >= 16
    &&& digits_between(s, 0, 4)
    &&& s[4] == DASH
    &&& digits_between(s, 5, 7)
    &&& s[7] == DASH
    &&& digits_between(s, 8, 10)
    &&& s[10] == DAY_END
    &&& digits_between(s, 11, 13)
    &&& s[13] == COLON
    &&& digits_between(s, 14, 16)
    &&& 1 <= month_of(s) <= 12
    &&& 1 <= day_of(s) <= days_in(year_of(s), month_of(s))
    &&& hour_of(s) <= 23
    &&& minute_of(s) <= 59
}

/// Whether the first `n` bytes of `a` come before those of `b`: they are the
/// same up to one that is smaller.
pub open spec fn written_before(a: Seq<u8>, b: Seq<u8>, n: int) -> bool {
    exists|k: int|
        0 <= k < n && #[trigger] a[k] < b[k] && a.take(k) == b.take(k)
}

/// Whether a date comes before another.
spec fn earlier(y: int, m: int, d: int, y2: int, m2: int, d2: int) -> bool {
    y < y2 || (y == y2 && (m < m2 || (m == m2 && d < d2)))
}

proof fn lemma_days_of_a_month(y: int, m: int, d: int, e: int)
    ensures
        day_number(y, m, e) - day_number(y, m, d) == e - d,
{
}

/// The months of a year follow each other.
proof fn lemma_months(y: int, m: int, m2: int)
    requires
        0 <= y,
        1 <= m < m2 <= 12,
    ensures
        day_number(y, m, days_in(y, m)) < day_number(y, m2, 1),
    decreases m2 - m,
{
    days_are_counted_one_by_one(y, m, 1);
    if m + 1 < m2 {
        lemma_months(y, m + 1, m2);
        lemma_days_of_a_month(y, m + 1, 1, days_in(y, m + 1));
    }
}

/// The years follow each other.
proof fn lemma_years(y: int, y2: int)
    requires
        0 <= y < y2,
    ensures
        day_number(y, 12, 31) < day_number(y2, 1, 1),
    decreases y2 - y,
{
    days_are_counted_one_by_one(y, 12, 1);
    if y + 1 < y2 {
        lemma_years(y + 1, y2);
        lemma_days_of_a_year(y + 1, 1, 1);
    }
}

/// No day of a year is before its first or behind its last.
proof fn lemma_days_of_a_year(y: int, m: int, d: int)
    requires
        0 <= y,
        1 <= m <= 12,
        1 <= d <= days_in(y, m),
    ensures
        day_number(y, 1, 1) <= day_number(y, m, d) <= day_number(y, 12, 31),
{
    if m > 1 {
        lemma_months(y, 1, m);
        lemma_days_of_a_month(y, 1, 1, days_in(y, 1));
    }
    if m < 12 {
        lemma_months(y, m, 12);
        lemma_days_of_a_month(y, 12, 1, 31);
    }
    lemma_days_of_a_month(y, m, 1, d);
    lemma_days_of_a_month(y, m, d, days_in(y, m));
}

proof fn lemma_dates(y: int, m: int, d: int, y2: int, m2: int, d2: int)
    requires
        0 <= y,
        0 <= y2,
        1 <= m <= 12,
        1 <= d <= days_in(y, m),
        1 <= m2 <= 12,
        1 <= d2 <= days_in(y2, m2),
        earlier(y, m, d, y2, m2, d2),
    ensures
        day_number(y, m, d) < day_number(y2, m2, d2),
{
    if y < y2 {
        lemma_days_of_a_year(y, m, d);
        lemma_years(y, y2);
        lemma_days_of_a_year(y2, m2, d2);
    } else if m < m2 {
        lemma_days_of_a_month(y, m, d, days_in(y, m));
        lemma_months(y, m, m2);
        lemma_days_of_a_month(y2, m2, 1, d2);
    } else {
        lemma_days_of_a_month(y, m, d, d2);
    }
}

/// Numbers of two digits are ordered as they are written.
proof fn lemma_two_written(a: Seq<u8>, b: Seq<u8>, at: int)
    requires
        0 <= at,
        digits_between(a, at, at + 2),
        digits_between(b, at, at + 2),
    ensures
        0 <= decimal(a.subrange(at, at + 2)) <= 99,
        a[at] == b[at] && a[at + 1] == b[at + 1] ==> decimal(a.subrange(at, at + 2)) == decimal(
            b.subrange(at, at + 2),
        ),
        a[at] < b[at] || (a[at] == b[at] && a[at + 1] < b[at + 1]) ==> decimal(
            a.subrange(at, at + 2),
        ) < decimal(b.subrange(at, at + 2)),
{
    let x = a.subrange(at, at + 2);
    let y = b.subrange(at, at + 2);
    assert(x[0] == a[at] && x[1] == a[at + 1] && y[0] == b[at] && y[1] == b[at + 1]);
    lemma_two_digits(x);
    lemma_two_digits(y);
}

/// Numbers of four digits are ordered as they are written.
proof fn lemma_four_written(a: Seq<u8>, b: Seq<u8>)
    requires
        digits_between(a, 0, 4),
        digits_between(b, 0, 4),
    ensures
        0 <= year_of(a),
        a[0] == b[0] && a[1] == b[1] && a[2] == b[2] && a[3] == b[3] ==> year_of(a) == year_of(b),
        a[0] < b[0] || (a[0] == b[0] && (a[1] < b[1] || (a[1] == b[1] && (a[2] < b[2] || (a[2]
            == b[2] && a[3] < b[3]))))) ==> year_of(a) < year_of(b),
{
    let x = a.subrange(0, 4);
    let y = b.subrange(0, 4);
    assert(x[0] == a[0] && x[1] == a[1] && x[2] == a[2] && x[3] == a[3]);
    assert(y[0] == b[0] && y[1] == b[1] && y[2] == b[2] && y[3] == b[3]);
    lemma_four_digits(x);
    lemma_four_digits(y);
    assert(a[0] <= NINE && a[1] <= NINE && a[2] <= NINE && a[3] <= NINE);
    assert(b[0] >= ZERO && b[1] >= ZERO && b[2] >= ZERO && b[3] >= ZERO);
}

/// A moment that is written before another has a smaller count of minutes.
proof fn lemma_written_before(a: Seq<u8>, b: Seq<u8>)
    requires
        is_moment(a),
        is_moment(b),
        written_before(a, b, 16),
    ensures
        minutes_of(a) < minutes_of(b),
{
    let k = choose|k: int| 0 <= k < 16 && #[trigger] a[k] < b[k] && a.take(k) == b.take(k);
    assert forall|j: int| 0 <= j < k implies a[j] == b[j] by {
        assert(a.take(k)[j] == b.take(k)[j]);
    }
    lemma_four_written(a, b);
    lemma_four_written(b, a);
    lemma_two_written(a, b, 5);
    lemma_two_written(a, b, 8);
    lemma_two_written(a, b, 11);
    lemma_two_written(a, b, 14);
    lemma_two_written(b, a, 11);
    lemma_two_written(b, a, 14);
    assert(k != 4 && k != 7 && k != 10 && k != 13);
    let (y, m, d) = (year_of(a), month_of(a), day_of(a));
    let (y2, m2, d2) = (year_of(b), month_of(b), day_of(b));
    if k < 10 {
        assert(earlier(y, m, d, y2, m2, d2));
        lemma_dates(y, m, d, y2, m2, d2);
    } else {
        assert(y == y2 && m == m2 && d == d2);
    }
}

/// Of two timestamps one is written before the other, or they are the same.
proof fn lemma_one_is_first(a: Seq<u8>, b: Seq<u8>, n: int)
    requires
        0 <= n <= a.len(),
        n <= b.len(),
    ensures
        a.take(n) == b.take(n) || written_before(a, b, n) || written_before(b, a, n),
    decreases n,
{
    if n == 0 {
        assert(a.take(0) =~= b.take(0));
    } else {
        lemma_one_is_first(a, b, n - 1);
        if a.take(n - 1) == b.take(n - 1) {
            if a[n - 1] == b[n - 1] {
                assert(a.take(n) =~= a.take(n - 1).push(a[n - 1]));
                assert(b.take(n) =~= b.take(n - 1).push(b[n - 1]));
            }
        } else if written_before(a, b, n - 1) {
            let k = choose|k: int|
                0 <= k < n - 1 && #[trigger] a[k] < b[k] && a.take(k) == b.take(k);
            assert(a[k] < b[k]);
        } else {
            let k = choose|k: int|
                0 <= k < n - 1 && #[trigger] b[k] < a[k] && b.take(k) == a.take(k);
            assert(b[k] < a[k]);
        }
    }
}

proof fn lemma_same_minute(a: Seq<u8>, b: Seq<u8>)
    requires
        a.len() >= 16,
        b.len() >= 16,
        a.take(16) == b.take(16),
    ensures
        minutes_of(a) == minutes_of(b),
{
    let p = a.take(16);
    assert(a.subrange(0, 4) =~= p.subrange(0, 4) && b.subrange(0, 4) =~= p.subrange(0, 4));
    assert(a.subrange(5, 7) =~= p.subrange(5, 7) && b.subrange(5, 7) =~= p.subrange(5, 7));
    assert(a.subrange(8, 10) =~= p.subrange(8, 10) && b.subrange(8, 10) =~= p.subrange(8, 10));
    assert(a.subrange(11, 13) =~= p.subrange(11, 13) && b.subrange(11, 13) =~= p.subrange(11, 13));
    assert(a.subrange(14, 16) =~= p.subrange(14, 16) && b.subrange(14, 16) =~= p.subrange(14, 16));
}

/// Minutes count up as timestamps are written: of two that tell a minute that
/// there is, the one that is written first is the earlier, and those that are
/// written alike up to the minute are the same.
pub proof fn minutes_are_ordered_as_written(a: Seq<u8>, b: Seq<u8>)
    requires
        is_moment(a),
        is_moment(b),
    ensures
        minutes_of(a) < minutes_of(b) <==> written_before(a, b, 16),
        minutes_of(a) == minutes_of(b) <==> a.take(16) == b.take(16),
{
    lemma_one_is_first(a, b, 16);
    if written_before(a, b, 16) {
        lemma_written_before(a, b);
    }
    if written_before(b, a, 16) {
        lemma_written_before(b, a);
    }
    if a.take(16) == b.take(16) {
        lemma_same_minute(a, b);
    }
}

/// A request whose timestamps tell minutes that there are can be worked with.
pub proof fn requests_at_real_moments_are_accepted(r: Request)
    requires
        is_moment(r.requested_at),
        year_of(r.requested_at) > 0,
        r.last_timestamp matches Some(t) ==> is_moment(t),
    ensures
        has_times(r),
{
    assert(figures_between(r.requested_at, 0, 4) && figures_between(r.requested_at, 5, 7)
        && figures_between(r.requested_at, 8, 10) && figures_between(r.requested_at, 11, 13)
        && figures_between(r.requested_at, 14, 16));
    if r.last_timestamp is Some {
        let t = r.last_timestamp.unwrap();
        assert(figures_between(t, 0, 4) && figures_between(t, 5, 7) && figures_between(t, 8, 10)
            && figures_between(t, 11, 13) && figures_between(t, 14, 16));
    }
}

/// For one request, a last transaction that is written before another is longer
/// ago.
pub proof fn transactions_written_earlier_are_longer_ago(a: Request, b: Request)
    requires
        has_times(a),
        has_times(b),
        a.requested_at == b.requested_at,
        a.last_km is Some,
        b.last_km is Some,
        a.last_timestamp matches Some(t) && is_moment(t),
        b.last_timestamp matches Some(t) && is_moment(t),
    ensures
        features_of(a).minutes_since_last matches Some(m) && features_of(
            b,
        ).minutes_since_last matches Some(n) && (m > n <==> written_before(
            a.last_timestamp.unwrap(),
            b.last_timestamp.unwrap(),
            16,
        )),
{
    earlier_transactions_are_longer_ago(a, b);
    minutes_are_ordered_as_written(a.last_timestamp.unwrap(), b.last_timestamp.unwrap());
}

} // verus!
