//! From a request to the features that are scored.
use vstd::prelude::*;
use vstd::slice::slice_subrange;

use crate::input::json::{decimal, NINE, QUOTE, ZERO};
use crate::input::payload::{Payload, Request};

verus! {

/// Turns requests into features.
pub struct DataNormalizer;

/// The features of a request, before they are scaled. Numbers with a fraction
/// are kept as the bits of their single-precision values.
#[derive(Clone, Copy, PartialEq, Eq, Structural, Debug)]
pub struct Features {
    /// The amount.
    pub amount: u32,
    /// The number of installments.
    pub installments: u32,
    /// The customer's average amount.
    pub customer_avg_amount: u32,
    /// The hour of the day.
    pub hour: u32,
    /// The day of the week, Monday being zero.
    pub weekday: u32,
    /// The minutes since the last transaction, where there was one.
    pub minutes_since_last: Option<i64>,
    /// The distance from the last transaction, where there was one.
    pub last_km: Option<u32>,
    /// The distance from home.
    pub km_from_home: u32,
    /// The customer's transactions of a day.
    pub tx_count_24h: u32,
    /// Whether the terminal is online.
    pub is_online: bool,
    /// Whether the card is present.
    pub card_present: bool,
    /// Whether the customer does not know the merchant.
    pub unknown_merchant: bool,
    /// The risk of the merchant's category, in percent.
    pub mcc_risk: u32,
    /// The merchant's average amount.
    pub merchant_avg_amount: u32,
}

/// Whether there are digits from `a` to `b`.
pub open spec fn digits_between(s: Seq<u8>, a: int, b: int) -> bool {
    b <= s.len() && forall|i: int| a <= i < b ==> ZERO <= #[trigger] s[i] <= NINE
}

/// Whether the bytes from `a` to `b` can be taken as digits. Bytes above the
/// digit nine count on from there.
pub open spec fn figures_between(s: Seq<u8>, a: int, b: int) -> bool {
    b <= s.len() && forall|i: int| a <= i < b ==> ZERO <= #[trigger] s[i]
}

/// The number that the digits from `a` to `b` write.
pub open spec fn number_between(s: Seq<u8>, a: int, b: int) -> int {
    decimal(s.subrange(a, b))
}

/// The year of a timestamp.
pub open spec fn year_of(s: Seq<u8>) -> int {
    number_between(s, 0, 4)
}

/// The month of a timestamp.
pub open spec fn month_of(s: Seq<u8>) -> int {
    number_between(s, 5, 7)
}

/// The day of a timestamp.
pub open spec fn day_of(s: Seq<u8>) -> int {
    number_between(s, 8, 10)
}

/// The hour of a timestamp.
pub open spec fn hour_of(s: Seq<u8>) -> int {
    number_between(s, 11, 13)
}

/// The minute of a timestamp.
pub open spec fn minute_of(s: Seq<u8>) -> int {
    number_between(s, 14, 16)
}

/// Whether there is a date at the start of a sequence.
pub open spec fn has_date(s: Seq<u8>) -> bool {
    figures_between(s, 0, 4) && figures_between(s, 5, 7) && figures_between(s, 8, 10)
}

/// Whether the minutes of a timestamp can be counted: its parts are numbers,
/// and the month is one that the count of days is made for.
pub open spec fn countable(s: Seq<u8>) -> bool {
    has_date(s) && figures_between(s, 11, 13) && figures_between(s, 14, 16) && month_of(s) <= 14
}

/// Whether the day of the week of a timestamp can be told: the month is one of
/// twelve, and no year before the first is reached back to.
pub open spec fn has_weekday(s: Seq<u8>) -> bool {
    has_date(s) && 1 <= month_of(s) <= 12 && (month_of(s) < 3 ==> year_of(s) > 0)
}

/// The number of a day, counted from noon universal time on the first of
/// January, 4713 B.C. The year starts in March here, so that the leap day is
/// its last.
pub open spec fn day_number(y: int, m: int, d: int) -> int {
    let a = (14 - m) / 12;
    let yr = y + 4800 - a;
    let mo = m + 12 * a - 3;
    d + (153 * mo + 2) / 5 + 365 * yr + yr / 4 - yr / 100 + yr / 400 - 32045
}

/// The minutes from the start of the count of days to a timestamp.
pub open spec fn minutes_of(s: Seq<u8>) -> int {
    day_number(year_of(s), month_of(s), day_of(s)) * 1440 + hour_of(s) * 60 + minute_of(s)
}

/// What the months add to the day of the week.
pub const MONTH_SHIFT: [u32; 12] = [0, 3, 2, 5, 0, 3, 5, 1, 4, 6, 2, 4];

/// The day of the week, Monday being zero.
pub open spec fn weekday(y: int, m: int, d: int) -> int {
    let yr = if m < 3 {
        y - 1
    } else {
        y
    };
    ((yr + yr / 4 - yr / 100 + yr / 400 + MONTH_SHIFT[m - 1] + d) % 7 + 6) % 7
}

/// Whether a year has a leap day.
pub open spec fn is_leap(y: int) -> bool {
    y % 4 == 0 && (y % 100 != 0 || y % 400 == 0)
}

/// The days of a month.
pub open spec fn days_in(y: int, m: int) -> int {
    if m == 2 {
        if is_leap(y) {
            29
        } else {
            28
        }
    } else if m == 4 || m == 6 || m == 9 || m == 11 {
        30
    } else {
        31
    }
}

/// A day that follows another has the next number: within a month, from a month
/// to the next, and from a year to the next.
pub proof fn days_are_counted_one_by_one(y: int, m: int, d: int)
    requires
        0 <= y,
        1 <= m <= 12,
    ensures
        day_number(y, m, d + 1) == day_number(y, m, d) + 1,
        m < 12 ==> day_number(y, m + 1, 1) == day_number(y, m, days_in(y, m)) + 1,
        m == 12 ==> day_number(y + 1, 1, 1) == day_number(y, m, days_in(y, m)) + 1,
{
    if m == 2 {
        let yr = y + 4800;
        assert(yr / 4 - (yr - 1) / 4 == if y % 4 == 0 {
            1int
        } else {
            0
        });
        assert(yr / 100 - (yr - 1) / 100 == if y % 100 == 0 {
            1int
        } else {
            0
        });
        assert(yr / 400 - (yr - 1) / 400 == if y % 400 == 0 {
            1int
        } else {
            0
        });
    }
}

/// The day of the week goes by the number of the day: Mondays are those whose
/// number is a multiple of seven.
pub proof fn weekday_goes_by_the_day_number(y: int, m: int, d: int)
    requires
        1 <= m <= 12,
        m < 3 ==> y > 0,
        y >= 0,
        d >= 0,
    ensures
        weekday(y, m, d) == day_number(y, m, d) % 7,
{
    let yr = if m < 3 {
        y - 1
    } else {
        y
    };
    let mo = if m < 3 {
        m + 9
    } else {
        m - 3
    };
    let c = yr / 4 - yr / 100 + yr / 400;
    let shift = MONTH_SHIFT[m - 1] as int;
    let extra = (153 * mo + 2) / 5 + 365 * 4800 + 1164 - 32045;
    let a = yr + c + shift + d;
    assert((yr + 4800) / 4 == yr / 4 + 1200);
    assert((yr + 4800) / 100 == yr / 100 + 48);
    assert((yr + 4800) / 400 == yr / 400 + 12);
    assert(day_number(y, m, d) == d + extra + 365 * yr + c);
    lemma_month_shift(m, mo);
    let q = (extra - shift - 6) / 7;
    assert(extra == shift + 6 + 7 * q);
    assert(day_number(y, m, d) == a + 6 + 7 * (52 * yr + q));
    lemma_week_shift(a, 52 * yr + q);
}

proof fn lemma_month_shift(m: int, mo: int)
    requires
        1 <= m <= 12,
        mo == if m < 3 {
            m + 9
        } else {
            m - 3
        },
    ensures
        ((153 * mo + 2) / 5 + 365 * 4800 + 1164 - 32045 - MONTH_SHIFT[m - 1] - 6) % 7 == 0,
{
    let t = MONTH_SHIFT;
    assert(t[0] == 0 && t[1] == 3 && t[2] == 2 && t[3] == 5 && t[4] == 0 && t[5] == 3 && t[6] == 5
        && t[7] == 1 && t[8] == 4 && t[9] == 6 && t[10] == 2 && t[11] == 4);
}

proof fn lemma_week_shift(a: int, q: int)
    ensures
        (a % 7 + 6) % 7 == (a + 6 + 7 * q) % 7,
{
}

/// The risk of a merchant category, in percent.
pub open spec fn category_risk(code: int) -> u32 {
    if code == 5411 {
        15
    } else if code == 5812 {
        30
    } else if code == 5912 {
        20
    } else if code == 5944 {
        45
    } else if code == 7801 {
        80
    } else if code == 7802 {
        75
    } else if code == 7995 {
        85
    } else if code == 4511 {
        35
    } else if code == 5311 {
        25
    } else {
        50
    }
}

/// The risk of a merchant category code. What is not four digits is of a
/// category that is not known.
pub open spec fn mcc_risk(mcc: Seq<u8>) -> u32 {
    if mcc.len() == 4 && digits_between(mcc, 0, 4) {
        category_risk(number_between(mcc, 0, 4))
    } else {
        50
    }
}

/// Whether an id stands at `i` in a list, between quotes.
pub open spec fn quoted_at(list: Seq<u8>, id: Seq<u8>, i: int) -> bool {
    &&& 0 <= i
    &&& i + id.len() + 2 <= list.len()
    &&& list[i] == QUOTE
    &&& list.subrange(i + 1, i + 1 + id.len()) == id
    &&& list[i + 1 + id.len()] == QUOTE
}

/// Whether an id stands in a list, between quotes.
pub open spec fn is_listed(list: Seq<u8>, id: Seq<u8>) -> bool {
    exists|i: int| #[trigger] quoted_at(list, id, i)
}

/// Whether a request has timestamps that can be worked with.
pub open spec fn has_times(r: Request) -> bool {
    &&& has_weekday(r.requested_at)
    &&& figures_between(r.requested_at, 11, 13)
    &&& r.last_timestamp matches Some(t) ==> (r.last_km is Some ==> countable(r.requested_at)
        && countable(t))
}

/// The features of a request.
pub open spec fn features_of(r: Request) -> Features {
    let (minutes, km) = match (r.last_timestamp, r.last_km) {
        (Some(t), Some(km)) => (
            Some((minutes_of(r.requested_at) - minutes_of(t)) as i64),
            Some(km),
        ),
        _ => (None, None),
    };
    Features {
        amount: r.amount,
        installments: r.installments,
        customer_avg_amount: r.customer_avg_amount,
        hour: hour_of(r.requested_at) as u32,
        weekday: weekday(
            year_of(r.requested_at),
            month_of(r.requested_at),
            day_of(r.requested_at),
        ) as u32,
        minutes_since_last: minutes,
        last_km: km,
        km_from_home: r.km_from_home,
        tx_count_24h: r.tx_count_24h,
        is_online: r.is_online,
        card_present: r.card_present,
        unknown_merchant: !is_listed(r.known_merchants, r.merchant_id),
        mcc_risk: mcc_risk(r.merchant_mcc),
        merchant_avg_amount: r.merchant_avg_amount,
    }
}

pub proof fn lemma_two_digits(s: Seq<u8>)
    requires
        s.len() == 2,
        figures_between(s, 0, 2),
    ensures
        decimal(s) == 10 * (s[0] - ZERO) + (s[1] - ZERO),
        0 <= decimal(s) <= 2277,
{
    reveal_with_fuel(decimal, 3);
    assert(s.drop_last().last() == s[0]);
    assert(ZERO <= s[0] && ZERO <= s[1]);
}

pub proof fn lemma_four_digits(s: Seq<u8>)
    requires
        s.len() == 4,
        figures_between(s, 0, 4),
    ensures
        decimal(s) == 1000 * (s[0] - ZERO) + 100 * (s[1] - ZERO) + 10 * (s[2] - ZERO) + (s[3]
            - ZERO),
        0 <= decimal(s) <= 229_977,
{
    reveal_with_fuel(decimal, 5);
    let t = s.drop_last();
    let u = t.drop_last();
    assert(t.last() == s[2] && u.last() == s[1] && u.drop_last().last() == s[0]);
    assert(ZERO <= s[0] && ZERO <= s[1] && ZERO <= s[2] && ZERO <= s[3]);
}

/// The number that two digits write.
pub fn b2(b: &[u8]) -> (n: u32)
    requires
        figures_between(b@, 0, 2),
    ensures
        n == number_between(b@, 0, 2),
        n <= 2277,
{
    proof {
        let s = b@.subrange(0, 2);
        assert(forall|i: int| 0 <= i < 2 ==> #[trigger] s[i] == b@[i]);
        lemma_two_digits(s);
    }
    (b[0] - ZERO) as u32 * 10 + (b[1] - ZERO) as u32
}

/// The number that four digits write.
pub fn b4(b: &[u8]) -> (n: u32)
    requires
        figures_between(b@, 0, 4),
    ensures
        n == number_between(b@, 0, 4),
        n <= 229_977,
{
    proof {
        let s = b@.subrange(0, 4);
        assert(forall|i: int| 0 <= i < 4 ==> #[trigger] s[i] == b@[i]);
        lemma_four_digits(s);
    }
    (b[0] - ZERO) as u32 * 1000 + (b[1] - ZERO) as u32 * 100 + (b[2] - ZERO) as u32 * 10 + (b[3]
        - ZERO) as u32
}

/// The number that two digits at `at` write.
fn two_at(b: &[u8], at: usize) -> (n: u32)
    requires
        figures_between(b@, at as int, at + 2),
    ensures
        n == number_between(b@, at as int, at + 2),
        n <= 2277,
{
    assert(at + 2 <= b.len());
    let part = slice_subrange(b, at, at + 2);
    assert(forall|i: int| 0 <= i < 2 ==> #[trigger] part@[i] == b@[at + i]);
    assert(part@.subrange(0, 2) =~= b@.subrange(at as int, at + 2));
    b2(part)
}

/// The number of a day.
pub fn ymd_to_days(y: u32, m: u32, d: u32) -> (n: i64)
    requires
        m <= 14,
        y <= 0xffff_ed3f,
    ensures
        n == day_number(y as int, m as int, d as int),
{
    let a: u32 = (14 - m) / 12;
    let yr: i64 = (y + 4800 - a) as i64;
    let mo: i64 = (m + 12 * a - 3) as i64;
    d as i64 + (153 * mo + 2) / 5 + 365 * yr + yr / 4 - yr / 100 + yr / 400 - 32045
}

/// The minutes from the start of the count of days to a timestamp.
pub fn ts_to_minutes(b: &[u8]) -> (n: i64)
    requires
        countable(b@),
    ensures
        n == minutes_of(b@),
        -50_000_000 <= n <= 200_000_000_000,
{
    let days: i64 = ymd_to_days(b4(b), two_at(b, 5), two_at(b, 8));
    days * 1440 + two_at(b, 11) as i64 * 60 + two_at(b, 14) as i64
}

/// The hour of a timestamp.
pub fn ts_hour(b: &[u8]) -> (n: u32)
    requires
        figures_between(b@, 11, 13),
    ensures
        n == hour_of(b@),
{
    two_at(b, 11)
}

/// The day of the week of a timestamp, Monday being zero.
pub fn ts_weekday(b: &[u8]) -> (n: u32)
    requires
        has_weekday(b@),
    ensures
        n == weekday(year_of(b@), month_of(b@), day_of(b@)),
        n < 7,
{
    let y: u32 = b4(b);
    let m: u32 = two_at(b, 5);
    let d: u32 = two_at(b, 8);
    let yr: u32 = if m < 3 {
        y - 1
    } else {
        y
    };
    let shift: u32 = MONTH_SHIFT[(m - 1) as usize];
    assert(shift <= 6);
    let dow: u32 = (yr + yr / 4 - yr / 100 + yr / 400 + shift + d) % 7;
    (dow + 6) % 7
}

/// The risk of a merchant category code, in percent.
pub fn comp_mcc(mcc: &[u8]) -> (r: u32)
    ensures
        r == mcc_risk(mcc@),
{
    if mcc.len() != 4 || !are_digits(mcc, 0, 4) {
        return 50;
    }
    let code: u32 = b4(mcc);
    if code == 5411 {
        15
    } else if code == 5812 {
        30
    } else if code == 5912 {
        20
    } else if code == 5944 {
        45
    } else if code == 7801 {
        80
    } else if code == 7802 {
        75
    } else if code == 7995 {
        85
    } else if code == 4511 {
        35
    } else if code == 5311 {
        25
    } else {
        50
    }
}

/// Whether there are digits from `a` to `z`.
fn are_digits(b: &[u8], a: usize, z: usize) -> (yes: bool)
    requires
        a <= z,
    ensures
        yes == digits_between(b@, a as int, z as int),
{
    if z > b.len() {
        return false;
    }
    let mut i: usize = a;
    while i < z
        invariant
            a <= i <= z <= b@.len(),
            forall|j: int| a <= j < i ==> ZERO <= #[trigger] b@[j] <= NINE,
        decreases z - i,
    {
        if b[i] < ZERO || b[i] > NINE {
            assert(!(ZERO <= b@[i as int] <= NINE));
            return false;
        }
        i = i + 1;
    }
    true
}

/// Whether the bytes from `a` to `z` can be taken as digits.
fn are_figures(b: &[u8], a: usize, z: usize) -> (yes: bool)
    requires
        a <= z,
    ensures
        yes == figures_between(b@, a as int, z as int),
{
    if z > b.len() {
        return false;
    }
    let mut i: usize = a;
    while i < z
        invariant
            a <= i <= z <= b@.len(),
            forall|j: int| a <= j < i ==> ZERO <= #[trigger] b@[j],
        decreases z - i,
    {
        if b[i] < ZERO {
            assert(!(ZERO <= b@[i as int]));
            return false;
        }
        i = i + 1;
    }
    true
}

/// Whether there is a date at the start.
fn check_date(b: &[u8]) -> (yes: bool)
    ensures
        yes == has_date(b@),
{
    are_figures(b, 0, 4) && are_figures(b, 5, 7) && are_figures(b, 8, 10)
}

/// Whether the minutes of a timestamp can be counted.
pub fn is_countable(b: &[u8]) -> (yes: bool)
    ensures
        yes == countable(b@),
{
    check_date(b) && are_figures(b, 11, 13) && are_figures(b, 14, 16) && two_at(b, 5) <= 14
}

/// Whether the day of the week of a timestamp can be told.
pub fn is_dated(b: &[u8]) -> (yes: bool)
    ensures
        yes == has_weekday(b@),
{
    if !check_date(b) {
        return false;
    }
    let m: u32 = two_at(b, 5);
    1 <= m && m <= 12 && (m >= 3 || b4(b) > 0)
}

/// Whether an id stands in a list, between quotes.
fn lists_id(list: &[u8], id: &[u8]) -> (yes: bool)
    ensures
        yes == is_listed(list@, id@),
{
    let n: usize = id.len();
    let len: usize = list.len();
    if len < 2 || len - 2 < n {
        return false;
    }
    let last: usize = len - 2 - n;
    let mut i: usize = 0;
    while i <= last
        invariant
            len == list@.len(),
            n == id@.len(),
            last + n + 2 == len,
            i <= last + 1,
            forall|j: int| 0 <= j < i ==> !#[trigger] quoted_at(list@, id@, j),
        decreases last + 1 - i,
    {
        if list[i] == QUOTE && list[i + 1 + n] == QUOTE {
            let mut k: usize = 0;
            while k < n && list[i + 1 + k] == id[k]
                invariant
                    len == list@.len(),
                    n == id@.len(),
                    i + n + 2 <= len,
                    k <= n,
                    forall|j: int| 0 <= j < k ==> list@[i + 1 + j] == #[trigger] id@[j],
                decreases n - k,
            {
                k = k + 1;
            }
            let ghost part = list@.subrange(i + 1, i + 1 + n);
            if k == n {
                assert(part =~= id@);
                assert(quoted_at(list@, id@, i as int));
                return true;
            }
            assert(part[k as int] != id@[k as int]);
        }
        i = i + 1;
    }
    assert forall|j: int| !#[trigger] quoted_at(list@, id@, j) by {
        if quoted_at(list@, id@, j) {
            assert(j < i);
        }
    }
    false
}

impl DataNormalizer {
    /// Whether the timestamps of a request can be worked with.
    pub fn accepts(&self, data: &Payload<'_>) -> (yes: bool)
        ensures
            yes == has_times(data@),
    {
        if !is_dated(data.requested_at) || !are_figures(data.requested_at, 11, 13) {
            return false;
        }
        match (data.last_timestamp, data.last_km) {
            (Some(t), Some(_)) => is_countable(data.requested_at) && is_countable(t),
            _ => true,
        }
    }

    /// The features of a request.
    pub fn normalize(&self, data: &Payload<'_>) -> (f: Features)
        requires
            has_times(data@),
        ensures
            f == features_of(data@),
    {
        let (minutes_since_last, last_km) = match (data.last_timestamp, data.last_km) {
            (Some(t), Some(km)) => {
                let minutes: i64 = ts_to_minutes(data.requested_at) - ts_to_minutes(t);
                (Some(minutes), Some(km))
            },
            _ => (None, None),
        };
        Features {
            amount: data.amount,
            installments: data.installments,
            customer_avg_amount: data.customer_avg_amount,
            hour: ts_hour(data.requested_at),
            weekday: ts_weekday(data.requested_at),
            minutes_since_last,
            last_km,
            km_from_home: data.km_from_home,
            tx_count_24h: data.tx_count_24h,
            is_online: data.is_online,
            card_present: data.card_present,
            unknown_merchant: !lists_id(data.known_merchants, data.merchant_id),
            mcc_risk: comp_mcc(data.merchant_mcc),
            merchant_avg_amount: data.merchant_avg_amount,
        }
    }
}

/// The count of days is that of the Julian calendar of astronomers: it starts
/// over neither at a month nor at a year, four hundred years are always as many
/// days, and the first day of 1970 has the number that it is known by.
pub proof fn day_numbers_are_julian(y: int, m: int, d: int)
    requires
        0 <= y,
        1 <= m <= 12,
    ensures
        day_number(y + 400, m, d) == day_number(y, m, d) + 146_097,
        day_number(1970, 1, 1) == 2_440_588,
{
    let a = (14 - m) / 12;
    let yr = y + 4800 - a;
    assert((yr + 400) / 4 == yr / 4 + 100);
    assert((yr + 400) / 100 == yr / 100 + 4);
    assert((yr + 400) / 400 == yr / 400 + 1);
    let z = 1970 + 4800 - 1;
    assert(z / 4 == 1692 && z / 100 == 67 && z / 400 == 16);
    assert((153 * 10 + 2) / 5 == 306);
}

/// Bytes from `0` on as the number of a digit.
pub open spec fn figure(s: Seq<u8>, i: int) -> int {
    s[i] - 0x30
}

proof fn lemma_figures(s: Seq<u8>, at: int)
    requires
        0 <= at,
        figures_between(s, at, at + 2),
    ensures
        number_between(s, at, at + 2) == 10 * figure(s, at) + figure(s, at + 1),
        0 <= number_between(s, at, at + 2) <= 2277,
{
    lemma_two_digits(s.subrange(at, at + 2));
}

/// What the parts of a timestamp are: the numbers that its figures write.
pub proof fn timestamps_are_read_figure_by_figure(s: Seq<u8>)
    requires
        countable(s),
    ensures
        year_of(s) == 1000 * figure(s, 0) + 100 * figure(s, 1) + 10 * figure(s, 2) + figure(s, 3),
        month_of(s) == 10 * figure(s, 5) + figure(s, 6),
        day_of(s) == 10 * figure(s, 8) + figure(s, 9),
        hour_of(s) == 10 * figure(s, 11) + figure(s, 12),
        minute_of(s) == 10 * figure(s, 14) + figure(s, 15),
{
    lemma_four_digits(s.subrange(0, 4));
    lemma_figures(s, 5);
    lemma_figures(s, 8);
    lemma_figures(s, 11);
    lemma_figures(s, 14);
}

/// Two timestamps lie as many minutes apart as their days, hours and minutes
/// do.
pub proof fn minutes_are_counted_one_by_one(s: Seq<u8>, t: Seq<u8>)
    requires
        countable(s),
        countable(t),
    ensures
        ({
            let days = day_number(year_of(t), month_of(t), day_of(t)) - day_number(
                year_of(s),
                month_of(s),
                day_of(s),
            );
            let hours = 10 * figure(t, 11) + figure(t, 12) - 10 * figure(s, 11) - figure(s, 12);
            let minutes = 10 * figure(t, 14) + figure(t, 15) - 10 * figure(s, 14) - figure(s, 15);
            minutes_of(t) - minutes_of(s) == 1440 * days + 60 * hours + minutes
        }),
{
    timestamps_are_read_figure_by_figure(s);
    timestamps_are_read_figure_by_figure(t);
}

proof fn lemma_minutes_fit(s: Seq<u8>)
    requires
        countable(s),
    ensures
        -50_000_000 <= minutes_of(s) <= 200_000_000_000,
{
    lemma_four_digits(s.subrange(0, 4));
    lemma_figures(s, 5);
    lemma_figures(s, 8);
    lemma_figures(s, 11);
    lemma_figures(s, 14);
}

/// The minutes since the last transaction, counted on from it, give the minutes
/// of the request; there are none exactly where there is no last transaction.
pub proof fn minutes_since_the_last_lead_to_the_request(r: Request)
    requires
        has_times(r),
    ensures
        match (r.last_timestamp, r.last_km) {
            (Some(t), Some(km)) => {
                &&& features_of(r).minutes_since_last matches Some(m)
                &&& minutes_of(t) + m == minutes_of(r.requested_at)
                &&& features_of(r).last_km == Some(km)
            },
            _ => features_of(r).minutes_since_last is None && features_of(r).last_km is None,
        },
{
    if r.last_timestamp is Some && r.last_km is Some {
        lemma_minutes_fit(r.requested_at);
        lemma_minutes_fit(r.last_timestamp.unwrap());
    }
}

/// Of two last transactions of one request the earlier has more minutes since
/// it, by as many as lie between the two.
pub proof fn earlier_transactions_are_longer_ago(a: Request, b: Request)
    requires
        has_times(a),
        has_times(b),
        a.requested_at == b.requested_at,
        a.last_timestamp is Some && a.last_km is Some,
        b.last_timestamp is Some && b.last_km is Some,
    ensures
        features_of(a).minutes_since_last matches Some(m) && features_of(
            b,
        ).minutes_since_last matches Some(n) && m - n == minutes_of(b.last_timestamp.unwrap())
            - minutes_of(a.last_timestamp.unwrap()),
{
    minutes_since_the_last_lead_to_the_request(a);
    minutes_since_the_last_lead_to_the_request(b);
}

/// What a request says of itself is said unchanged by its features: its amounts,
/// counts, distances and flags. Its hour is the one that is written.
pub proof fn features_keep_what_a_request_says(r: Request)
    requires
        has_times(r),
    ensures
        ({
            let f = features_of(r);
            &&& f.amount == r.amount
            &&& f.installments == r.installments
            &&& f.customer_avg_amount == r.customer_avg_amount
            &&& f.merchant_avg_amount == r.merchant_avg_amount
            &&& f.km_from_home == r.km_from_home
            &&& f.tx_count_24h == r.tx_count_24h
            &&& f.is_online == r.is_online
            &&& f.card_present == r.card_present
            &&& f.hour == 10 * figure(r.requested_at, 11) + figure(r.requested_at, 12)
        }),
{
    lemma_figures(r.requested_at, 11);
}

/// The weekday of a request goes by the number of its day: seven days on it is
/// the same, and the day with a number that is a multiple of seven is a Monday.
pub proof fn weekday_of_a_request(r: Request)
    requires
        has_times(r),
    ensures
        features_of(r).weekday == day_number(
            year_of(r.requested_at),
            month_of(r.requested_at),
            day_of(r.requested_at),
        ) % 7,
{
    lemma_four_digits(r.requested_at.subrange(0, 4));
    lemma_figures(r.requested_at, 8);
    weekday_goes_by_the_day_number(
        year_of(r.requested_at),
        month_of(r.requested_at),
        day_of(r.requested_at),
    );
}

/// A merchant is known to the customer exactly where its id is written between
/// quotes somewhere in the list.
pub proof fn known_merchants_stand_in_the_list(r: Request, before: Seq<u8>, after: Seq<u8>)
    ensures
        r.known_merchants == before + (seq![QUOTE] + (r.merchant_id + (seq![QUOTE] + after)))
            ==> !features_of(r).unknown_merchant,
        !features_of(r).unknown_merchant ==> exists|a: Seq<u8>, b: Seq<u8>|
            r.known_merchants == #[trigger] (a + (seq![QUOTE] + (r.merchant_id + (seq![QUOTE]
                + b)))),
{
    let list = r.known_merchants;
    let id = r.merchant_id;
    if list == before + (seq![QUOTE] + (id + (seq![QUOTE] + after))) {
        let i = before.len() as int;
        assert(list.subrange(i + 1, i + 1 + id.len()) =~= id);
        assert(quoted_at(list, id, i));
    }
    if !features_of(r).unknown_merchant {
        let i = choose|i: int| #[trigger] quoted_at(list, id, i);
        let a = list.take(i);
        let b = list.skip(i + 2 + id.len());
        assert forall|j: int| i + 1 <= j < i + 1 + id.len() implies list[j] == #[trigger] id[j - i
            - 1] by {
            assert(list.subrange(i + 1, i + 1 + id.len())[j - i - 1] == id[j - i - 1]);
        }
        assert(list =~= a + (seq![QUOTE] + (id + (seq![QUOTE] + b))));
    }
}

/// The categories that have a risk of their own, by the four digits of their
/// codes; every other one has that of one half.
pub proof fn risks_of_categories(mcc: Seq<u8>)
    ensures
        mcc == seq![0x35u8, 0x34, 0x31, 0x31] ==> mcc_risk(mcc) == 15,
        mcc == seq![0x35u8, 0x38, 0x31, 0x32] ==> mcc_risk(mcc) == 30,
        mcc == seq![0x35u8, 0x39, 0x31, 0x32] ==> mcc_risk(mcc) == 20,
        mcc == seq![0x35u8, 0x39, 0x34, 0x34] ==> mcc_risk(mcc) == 45,
        mcc == seq![0x37u8, 0x38, 0x30, 0x31] ==> mcc_risk(mcc) == 80,
        mcc == seq![0x37u8, 0x38, 0x30, 0x32] ==> mcc_risk(mcc) == 75,
        mcc == seq![0x37u8, 0x39, 0x39, 0x35] ==> mcc_risk(mcc) == 85,
        mcc == seq![0x34u8, 0x35, 0x31, 0x31] ==> mcc_risk(mcc) == 35,
        mcc == seq![0x35u8, 0x33, 0x31, 0x31] ==> mcc_risk(mcc) == 25,
        mcc_risk(mcc) == 50 || mcc == seq![0x35u8, 0x34, 0x31, 0x31] || mcc == seq![
            0x35u8,
            0x38,
            0x31,
            0x32,
        ] || mcc == seq![0x35u8, 0x39, 0x31, 0x32] || mcc == seq![0x35u8, 0x39, 0x34, 0x34] || mcc
            == seq![0x37u8, 0x38, 0x30, 0x31] || mcc == seq![0x37u8, 0x38, 0x30, 0x32] || mcc
            == seq![0x37u8, 0x39, 0x39, 0x35] || mcc == seq![0x34u8, 0x35, 0x31, 0x31] || mcc
            == seq![0x35u8, 0x33, 0x31, 0x31],
        forall|r: Request| r.merchant_mcc == mcc ==> #[trigger] features_of(r).mcc_risk == mcc_risk(
            mcc,
        ),
{
    if mcc.len() == 4 && digits_between(mcc, 0, 4) {
        lemma_four_digits(mcc.subrange(0, 4));
        let code = 1000 * figure(mcc, 0) + 100 * figure(mcc, 1) + 10 * figure(mcc, 2) + figure(
            mcc,
            3,
        );
        assert(number_between(mcc, 0, 4) == code);
        assert(0 <= figure(mcc, 0) <= 9 && 0 <= figure(mcc, 1) <= 9 && 0 <= figure(mcc, 2) <= 9
            && 0 <= figure(mcc, 3) <= 9);
        lemma_code_is_written(mcc, code);
    }
}

proof fn lemma_digits_of(a: int, b: int, c: int, d: int)
    requires
        0 <= a <= 9,
        0 <= b <= 9,
        0 <= c <= 9,
        0 <= d <= 9,
    ensures
        (1000 * a + 100 * b + 10 * c + d) / 1000 == a,
        (1000 * a + 100 * b + 10 * c + d) / 100 % 10 == b,
        (1000 * a + 100 * b + 10 * c + d) / 10 % 10 == c,
        (1000 * a + 100 * b + 10 * c + d) % 10 == d,
{
    let n = 1000 * a + 100 * b + 10 * c + d;
    assert(n / 100 == 10 * a + b);
    assert(n / 10 == 100 * a + 10 * b + c);
}

/// Four digits are those of the number that they write.
proof fn lemma_code_is_written(mcc: Seq<u8>, code: int)
    requires
        mcc.len() == 4,
        digits_between(mcc, 0, 4),
        code == 1000 * figure(mcc, 0) + 100 * figure(mcc, 1) + 10 * figure(mcc, 2) + figure(mcc, 3),
    ensures
        mcc =~= seq![
            (0x30 + code / 1000) as u8,
            (0x30 + code / 100 % 10) as u8,
            (0x30 + code / 10 % 10) as u8,
            (0x30 + code % 10) as u8,
        ],
{
    lemma_digits_of(figure(mcc, 0), figure(mcc, 1), figure(mcc, 2), figure(mcc, 3));
}

} // verus!
