//! The sections of a request, each an object with two or three fields that
//! count and others that are passed over.
//!
//! | section          | first          | second         | third             |
//! |------------------|----------------|----------------|-------------------|
//! | transaction      | `amount`       | `installments` | `requested_at`    |
//! | customer         | `avg_amount`   | `tx_count_24h` | `known_merchants` |
//! | merchant         | `id`           | `mcc`          | `avg_amount`      |
//! | terminal         | `is_online`    | `card_present` | `km_from_home`    |
//! | last transaction | `timestamp`    | `km_from_current` |                |
//!
//! A key is told by its length and its first eight bytes. Where a field comes
//! twice, the later one counts.
use vstd::prelude::*;

use crate::input::json::{
    count_at, flag_at, is_key, is_named, list_at, member_at, members, parse_bool, parse_u32,
    scan_member, scan_str, skip_value, skip_ws, slice_array, text_at, value_end, ws_end, Member,
    CLOSE_OBJECT, COMMA,
};

verus! {

/// "id"
pub const K_ID: [u8; 2] = [0x69, 0x64];

/// "mcc"
pub const K_MCC: [u8; 3] = [0x6d, 0x63, 0x63];

/// "amount"
pub const K_AMOUNT: [u8; 6] = [0x61, 0x6d, 0x6f, 0x75, 0x6e, 0x74];

/// "installm"
pub const K_INSTALLM: [u8; 8] = [0x69, 0x6e, 0x73, 0x74, 0x61, 0x6c, 0x6c, 0x6d];

/// "requeste"
pub const K_REQUESTED: [u8; 8] = [0x72, 0x65, 0x71, 0x75, 0x65, 0x73, 0x74, 0x65];

/// "avg_amou"
pub const K_AVG_AMOUNT: [u8; 8] = [0x61, 0x76, 0x67, 0x5f, 0x61, 0x6d, 0x6f, 0x75];

/// "tx_count"
pub const K_TX_COUNT: [u8; 8] = [0x74, 0x78, 0x5f, 0x63, 0x6f, 0x75, 0x6e, 0x74];

/// "known_me"
pub const K_KNOWN_MERCH: [u8; 8] = [0x6b, 0x6e, 0x6f, 0x77, 0x6e, 0x5f, 0x6d, 0x65];

/// "is_onlin"
pub const K_IS_ONLINE: [u8; 8] = [0x69, 0x73, 0x5f, 0x6f, 0x6e, 0x6c, 0x69, 0x6e];

/// "card_pre"
pub const K_CARD_PRES: [u8; 8] = [0x63, 0x61, 0x72, 0x64, 0x5f, 0x70, 0x72, 0x65];

/// "km_from_"
pub const K_KM_FROM: [u8; 8] = [0x6b, 0x6d, 0x5f, 0x66, 0x72, 0x6f, 0x6d, 0x5f];

/// "timestam"
pub const K_TIMESTAMP: [u8; 8] = [0x74, 0x69, 0x6d, 0x65, 0x73, 0x74, 0x61, 0x6d];

/// A section of a request.
#[derive(Clone, Copy, PartialEq, Eq, Structural, Debug)]
pub enum Section {
    Transaction,
    Customer,
    Merchant,
    Terminal,
    LastTx,
}

/// What stands in a field.
#[derive(Clone, Copy, PartialEq, Eq, Structural, Debug)]
pub enum Shape {
    /// A number with a fraction.
    Number,
    /// A whole number.
    Count,
    /// A text.
    Text,
    /// An array, kept as it is written.
    List,
    /// `true` or `false`.
    Flag,
}

/// Which field of its section a key names, counted from zero.
#[verifier::opaque]
pub open spec fn known_as(section: Section, key: Seq<u8>) -> Option<int> {
    match section {
        Section::Transaction => if is_named(key, K_AMOUNT@, 6) {
            Some(0)
        } else if is_named(key, K_INSTALLM@, 12) {
            Some(1)
        } else if is_named(key, K_REQUESTED@, 12) {
            Some(2)
        } else {
            None
        },
        Section::Customer => if is_named(key, K_AVG_AMOUNT@, 10) {
            Some(0)
        } else if is_named(key, K_TX_COUNT@, 12) {
            Some(1)
        } else if is_named(key, K_KNOWN_MERCH@, 15) {
            Some(2)
        } else {
            None
        },
        Section::Merchant => if is_named(key, K_ID@, 2) {
            Some(0)
        } else if is_named(key, K_MCC@, 3) {
            Some(1)
        } else if is_named(key, K_AVG_AMOUNT@, 10) {
            Some(2)
        } else {
            None
        },
        Section::Terminal => if is_named(key, K_IS_ONLINE@, 9) {
            Some(0)
        } else if is_named(key, K_CARD_PRES@, 12) {
            Some(1)
        } else if is_named(key, K_KM_FROM@, 12) {
            Some(2)
        } else {
            None
        },
        Section::LastTx => if is_named(key, K_TIMESTAMP@, 9) {
            Some(0)
        } else if is_named(key, K_KM_FROM@, 15) {
            Some(1)
        } else {
            None
        },
    }
}

/// What stands in a field of a section.
pub open spec fn shape_of(section: Section, field: int) -> Shape {
    match section {
        Section::Transaction => if field == 0 {
            Shape::Number
        } else if field == 1 {
            Shape::Count
        } else {
            Shape::Text
        },
        Section::Customer => if field == 0 {
            Shape::Number
        } else if field == 1 {
            Shape::Count
        } else {
            Shape::List
        },
        Section::Merchant => if field == 2 {
            Shape::Number
        } else {
            Shape::Text
        },
        Section::Terminal => if field == 2 {
            Shape::Number
        } else {
            Shape::Flag
        },
        Section::LastTx => if field == 0 {
            Shape::Text
        } else {
            Shape::Number
        },
    }
}

/// The value of a field. A number with a fraction is kept as the bits of its
/// single-precision value.
pub enum Value<'a> {
    Number(u32),
    Count(u32),
    Text(&'a [u8]),
    List(&'a [u8]),
    Flag(bool),
}

/// The value of a field, without the place where it is kept.
pub enum Reading {
    Number(u32),
    Count(u32),
    Text(Seq<u8>),
    List(Seq<u8>),
    Flag(bool),
}

impl<'a> View for Value<'a> {
    type V = Reading;

    open spec fn view(&self) -> Reading {
        match self {
            Value::Number(x) => Reading::Number(*x),
            Value::Count(x) => Reading::Count(*x),
            Value::Text(x) => Reading::Text(x@),
            Value::List(x) => Reading::List(x@),
            Value::Flag(x) => Reading::Flag(*x),
        }
    }
}

/// What a reader of numbers finds at each position: the bits of the number
/// and its length, or nothing where no number starts.
pub type Numbers = spec_fn(int) -> Option<(u32, nat)>;

/// The numbers that `number_at` finds.
pub open spec fn numbers_of<N: Fn(usize) -> Option<(u32, usize)>>(number_at: N) -> Numbers {
    |p: int|
        match choose|r: Option<(u32, usize)>| #[trigger] number_at.ensures((p as usize,), r) {
            Some((bits, len)) => Some((bits, len as nat)),
            None => None,
        }
}

/// Whether `number_at` can be asked at every position of a text of length
/// `len`, and always gives the same answer there.
pub open spec fn reads_numbers<N: Fn(usize) -> Option<(u32, usize)>>(
    number_at: N,
    len: nat,
) -> bool {
    &&& forall|p: usize| p <= len ==> #[trigger] number_at.requires((p,))
    &&& forall|p: usize, a: Option<(u32, usize)>, b: Option<(u32, usize)>|
        #[trigger] number_at.ensures((p,), a) && #[trigger] number_at.ensures((p,), b) ==> a == b
}

/// The number at `p`, and where it ends. Where no number starts the value is
/// zero and nothing is passed over.
pub open spec fn float_at(s: Seq<u8>, p: int, nums: Numbers) -> Option<(u32, int)> {
    match nums(p) {
        Some((bits, len)) => if p + len <= s.len() {
            Some((bits, p + len))
        } else {
            None
        },
        None => Some((0, p)),
    }
}

/// The value of that shape at `p`, and where it ends.
pub open spec fn read_at(s: Seq<u8>, p: int, shape: Shape, nums: Numbers) -> Option<
    (Reading, int),
> {
    match shape {
        Shape::Number => match float_at(s, p, nums) {
            Some((x, e)) => Some((Reading::Number(x), e)),
            None => None,
        },
        Shape::Count => match count_at(s, p) {
            Some((x, e)) => Some((Reading::Count(x), e)),
            None => None,
        },
        Shape::Text => match text_at(s, p) {
            Some((x, e)) => Some((Reading::Text(x), e)),
            None => None,
        },
        Shape::List => match list_at(s, p) {
            Some((x, e)) => Some((Reading::List(x), e)),
            None => None,
        },
        Shape::Flag => match flag_at(s, p) {
            Some((x, e)) => Some((Reading::Flag(x), e)),
            None => None,
        },
    }
}

/// Where the value of a member of a section ends.
pub open spec fn field_end(s: Seq<u8>, section: Section, m: Member, nums: Numbers) -> Option<int> {
    match known_as(section, m.key) {
        Some(i) => match read_at(s, m.at, shape_of(section, i), nums) {
            Some((_, e)) => Some(e),
            None => None,
        },
        None => value_end(s, m.at),
    }
}

/// The members of the section that opens at `p`, and where it ends.
pub open spec fn fields(s: Seq<u8>, p: int, section: Section, nums: Numbers) -> Option<
    (Seq<Member>, int),
> {
    members(s, p + 1, |m: Member| field_end(s, section, m, nums))
}

/// The value of the last member that names the field.
pub open spec fn field_value(
    s: Seq<u8>,
    section: Section,
    ms: Seq<Member>,
    field: int,
    nums: Numbers,
) -> Option<Reading>
    decreases ms.len(),
{
    if ms.len() == 0 {
        None
    } else if known_as(section, ms.last().key) == Some(field) {
        match read_at(s, ms.last().at, shape_of(section, field), nums) {
            Some((v, _)) => Some(v),
            None => None,
        }
    } else {
        field_value(s, section, ms.drop_last(), field, nums)
    }
}

/// The values of the first, second and third field of the section that opens
/// at `p`, and where it ends.
pub open spec fn section_at(s: Seq<u8>, p: int, section: Section, nums: Numbers) -> Option<
    (Option<Reading>, Option<Reading>, Option<Reading>, int),
> {
    match fields(s, p, section, nums) {
        Some((ms, e)) => Some(
            (
                field_value(s, section, ms, 0, nums),
                field_value(s, section, ms, 1, nums),
                field_value(s, section, ms, 2, nums),
                e,
            ),
        ),
        None => None,
    }
}

/// The view of a value that may be missing.
pub open spec fn seen(v: Option<Value>) -> Option<Reading> {
    match v {
        Some(x) => Some(x@),
        None => None,
    }
}

/// Which field of its section a key names.
fn field_of(section: Section, key: &[u8]) -> (r: Option<usize>)
    ensures
        r matches Some(i) ==> known_as(section, key@) == Some(i as int) && i < 3,
        r is None ==> known_as(section, key@) is None,
{
    proof {
        reveal(known_as);
    }
    match section {
        Section::Transaction => if is_key(key, K_AMOUNT.as_slice(), 6) {
            Some(0)
        } else if is_key(key, K_INSTALLM.as_slice(), 12) {
            Some(1)
        } else if is_key(key, K_REQUESTED.as_slice(), 12) {
            Some(2)
        } else {
            None
        },
        Section::Customer => if is_key(key, K_AVG_AMOUNT.as_slice(), 10) {
            Some(0)
        } else if is_key(key, K_TX_COUNT.as_slice(), 12) {
            Some(1)
        } else if is_key(key, K_KNOWN_MERCH.as_slice(), 15) {
            Some(2)
        } else {
            None
        },
        Section::Merchant => if is_key(key, K_ID.as_slice(), 2) {
            Some(0)
        } else if is_key(key, K_MCC.as_slice(), 3) {
            Some(1)
        } else if is_key(key, K_AVG_AMOUNT.as_slice(), 10) {
            Some(2)
        } else {
            None
        },
        Section::Terminal => if is_key(key, K_IS_ONLINE.as_slice(), 9) {
            Some(0)
        } else if is_key(key, K_CARD_PRES.as_slice(), 12) {
            Some(1)
        } else if is_key(key, K_KM_FROM.as_slice(), 12) {
            Some(2)
        } else {
            None
        },
        Section::LastTx => if is_key(key, K_TIMESTAMP.as_slice(), 9) {
            Some(0)
        } else if is_key(key, K_KM_FROM.as_slice(), 15) {
            Some(1)
        } else {
            None
        },
    }
}

/// What stands in a field of a section.
fn field_shape(section: Section, field: usize) -> (r: Shape)
    ensures
        r == shape_of(section, field as int),
{
    match section {
        Section::Transaction => if field == 0 {
            Shape::Number
        } else if field == 1 {
            Shape::Count
        } else {
            Shape::Text
        },
        Section::Customer => if field == 0 {
            Shape::Number
        } else if field == 1 {
            Shape::Count
        } else {
            Shape::List
        },
        Section::Merchant => if field == 2 {
            Shape::Number
        } else {
            Shape::Text
        },
        Section::Terminal => if field == 2 {
            Shape::Number
        } else {
            Shape::Flag
        },
        Section::LastTx => if field == 0 {
            Shape::Text
        } else {
            Shape::Number
        },
    }
}

/// The number at `p`, and where it ends.
pub fn parse_f32<N: Fn(usize) -> Option<(u32, usize)>>(
    s: &[u8],
    p: usize,
    number_at: &N,
) -> (r: Option<(u32, usize)>)
    requires
        p <= s@.len(),
        reads_numbers(*number_at, s@.len()),
    ensures
        r matches Some((x, e)) ==> float_at(s@, p as int, numbers_of(*number_at)) == Some(
            (x, e as int),
        ) && p <= e <= s@.len(),
        r is None ==> float_at(s@, p as int, numbers_of(*number_at)) is None,
{
    let found = number_at(p);
    match found {
        Some((bits, len)) => {
            if len <= s.len() - p {
                Some((bits, p + len))
            } else {
                None
            }
        },
        None => Some((0, p)),
    }
}

/// The value of that shape at `p`, and where it ends.
fn parse_value<'a, N: Fn(usize) -> Option<(u32, usize)>>(
    s: &'a [u8],
    p: usize,
    shape: Shape,
    number_at: &N,
) -> (r: Option<(Value<'a>, usize)>)
    requires
        p <= s@.len(),
        reads_numbers(*number_at, s@.len()),
    ensures
        r matches Some((v, e)) ==> read_at(s@, p as int, shape, numbers_of(*number_at)) == Some(
            (v@, e as int),
        ) && p <= e <= s@.len(),
        r is None ==> read_at(s@, p as int, shape, numbers_of(*number_at)) is None,
{
    match shape {
        Shape::Number => match parse_f32(s, p, number_at) {
            Some((x, e)) => Some((Value::Number(x), e)),
            None => None,
        },
        Shape::Count => match parse_u32(s, p) {
            Some((x, e)) => Some((Value::Count(x), e)),
            None => None,
        },
        Shape::Text => if p < s.len() {
            match scan_str(s, p) {
                Some((x, e)) => Some((Value::Text(x), e)),
                None => None,
            }
        } else {
            None
        },
        Shape::List => match slice_array(s, p) {
            Some((x, e)) => Some((Value::List(x), e)),
            None => None,
        },
        Shape::Flag => if p < s.len() {
            match parse_bool(s, p) {
                Some((x, e)) => Some((Value::Flag(x), e)),
                None => None,
            }
        } else {
            None
        },
    }
}

/// What is known of `members` from `p` on carries over to where they started.
pub open spec fn continues(
    s: Seq<u8>,
    start: int,
    p: int,
    before: Seq<Member>,
    end_of: spec_fn(Member) -> Option<int>,
) -> bool {
    members(s, start, end_of) == match members(s, p, end_of) {
        Some((rest, e)) => Some((before + rest, e)),
        None => None,
    }
}

/// One more member has been passed.
pub proof fn lemma_continues(
    s: Seq<u8>,
    start: int,
    p: int,
    k: int,
    before: Seq<Member>,
    m: Member,
    e: int,
    end_of: spec_fn(Member) -> Option<int>,
)
    requires
        continues(s, start, p, before, end_of),
        k == ws_end(s, p),
        0 <= k < s.len(),
        s[k] != CLOSE_OBJECT,
        s[k] != COMMA,
        member_at(s, k) == Some(m),
        end_of(m) == Some(e),
        k < e,
    ensures
        continues(s, start, e, before.push(m), end_of),
{
    match members(s, e, end_of) {
        Some((rest, close)) => {
            assert(before + (seq![m] + rest) =~= before.push(m) + rest);
        },
        None => {},
    }
}

/// Reads the section that opens at `p`: the values of its three fields, and
/// where it ends.
fn scan_section<'a, N: Fn(usize) -> Option<(u32, usize)>>(
    s: &'a [u8],
    p: usize,
    section: Section,
    number_at: &N,
) -> (r: Option<(Option<Value<'a>>, Option<Value<'a>>, Option<Value<'a>>, usize)>)
    requires
        p <= s@.len(),
        reads_numbers(*number_at, s@.len()),
    ensures
        r matches Some((a, b, c, e)) ==> section_at(
            s@,
            p as int,
            section,
            numbers_of(*number_at),
        ) == Some((seen(a), seen(b), seen(c), e as int)) && p < e <= s@.len(),
        r is None ==> section_at(s@, p as int, section, numbers_of(*number_at)) is None,
{
    let len: usize = s.len();
    if p == len {
        return None;
    }
    let ghost nums = numbers_of(*number_at);
    let ghost end_of = |m: Member| field_end(s@, section, m, nums);
    let ghost mut before: Seq<Member> = Seq::empty();
    let mut i: usize = p + 1;
    let mut first: Option<Value<'a>> = None;
    let mut second: Option<Value<'a>> = None;
    let mut third: Option<Value<'a>> = None;
    proof {
        match members(s@, p + 1, end_of) {
            Some((rest, e)) => {
                assert(before + rest =~= rest);
            },
            None => {},
        }
    }
    loop
        invariant
            len == s@.len(),
            p < i <= len,
            reads_numbers(*number_at, s@.len()),
            nums == numbers_of(*number_at),
            end_of == (|m: Member| field_end(s@, section, m, nums)),
            continues(s@, p + 1, i as int, before, end_of),
            seen(first) == field_value(s@, section, before, 0, nums),
            seen(second) == field_value(s@, section, before, 1, nums),
            seen(third) == field_value(s@, section, before, 2, nums),
        decreases len - i,
    {
        let k: usize = skip_ws(s, i);
        if k >= len {
            return None;
        }
        if s[k] == CLOSE_OBJECT {
            proof {
                assert(before + Seq::<Member>::empty() =~= before);
            }
            return Some((first, second, third, k + 1));
        }
        if s[k] == COMMA {
            i = k + 1;
            continue ;
        }
        match scan_member(s, k) {
            Some((key, v)) => {
                let ghost m = Member { key: key@, at: v as int };
                proof {
                    assert(before.push(m).drop_last() =~= before);
                }
                match field_of(section, key) {
                    Some(f) => match parse_value(s, v, field_shape(section, f), number_at) {
                        Some((x, e)) => {
                            proof {
                                lemma_continues(
                                    s@,
                                    p + 1,
                                    i as int,
                                    k as int,
                                    before,
                                    m,
                                    e as int,
                                    end_of,
                                );
                                before = before.push(m);
                            }
                            i = e;
                            if f == 0 {
                                first = Some(x);
                            } else if f == 1 {
                                second = Some(x);
                            } else {
                                third = Some(x);
                            }
                        },
                        None => {
                            return None;
                        },
                    },
                    None => match skip_value(s, v) {
                        Some(e) => {
                            proof {
                                lemma_continues(
                                    s@,
                                    p + 1,
                                    i as int,
                                    k as int,
                                    before,
                                    m,
                                    e as int,
                                    end_of,
                                );
                                before = before.push(m);
                            }
                            i = e;
                        },
                        None => {
                            return None;
                        },
                    },
                }
            },
            None => {
                return None;
            },
        }
    }
}

/// The transaction that opens at `p`: amount, installments, when it was
/// requested, and where it ends.
pub open spec fn transaction_at(s: Seq<u8>, p: int, nums: Numbers) -> Option<
    (u32, u32, Seq<u8>, int),
> {
    match section_at(s, p, Section::Transaction, nums) {
        Some(
            (
                Some(Reading::Number(amount)),
                Some(Reading::Count(installments)),
                Some(Reading::Text(requested)),
                e,
            ),
        ) => Some((amount, installments, requested, e)),
        _ => None,
    }
}

/// The customer that opens at `p`: average amount, transactions of a day,
/// known merchants, and where it ends.
pub open spec fn customer_at(s: Seq<u8>, p: int, nums: Numbers) -> Option<
    (u32, u32, Seq<u8>, int),
> {
    match section_at(s, p, Section::Customer, nums) {
        Some(
            (
                Some(Reading::Number(avg)),
                Some(Reading::Count(count)),
                Some(Reading::List(known)),
                e,
            ),
        ) => Some((avg, count, known, e)),
        _ => None,
    }
}

/// The merchant that opens at `p`: id, category code, average amount, and
/// where it ends.
pub open spec fn merchant_at(s: Seq<u8>, p: int, nums: Numbers) -> Option<
    (Seq<u8>, Seq<u8>, u32, int),
> {
    match section_at(s, p, Section::Merchant, nums) {
        Some(
            (Some(Reading::Text(id)), Some(Reading::Text(mcc)), Some(Reading::Number(avg)), e),
        ) => Some((id, mcc, avg, e)),
        _ => None,
    }
}

/// The terminal that opens at `p`: whether it is online, whether the card is
/// present, the distance from home, and where it ends.
pub open spec fn terminal_at(s: Seq<u8>, p: int, nums: Numbers) -> Option<(bool, bool, u32, int)> {
    match section_at(s, p, Section::Terminal, nums) {
        Some(
            (
                Some(Reading::Flag(online)),
                Some(Reading::Flag(present)),
                Some(Reading::Number(km)),
                e,
            ),
        ) => Some((online, present, km, e)),
        _ => None,
    }
}

/// The last transaction that opens at `p`: when it was, how far away, and
/// where it ends.
pub open spec fn last_tx_at(s: Seq<u8>, p: int, nums: Numbers) -> Option<(Seq<u8>, u32, int)> {
    match section_at(s, p, Section::LastTx, nums) {
        Some((Some(Reading::Text(when)), Some(Reading::Number(km)), _, e)) => Some((when, km, e)),
        _ => None,
    }
}

/// Reads the transaction that opens at `p`.
pub fn parse_transaction<'a, N: Fn(usize) -> Option<(u32, usize)>>(
    s: &'a [u8],
    p: usize,
    number_at: &N,
) -> (r: Option<(u32, u32, &'a [u8], usize)>)
    requires
        p <= s@.len(),
        reads_numbers(*number_at, s@.len()),
    ensures
        r matches Some((a, i, t, e)) ==> transaction_at(s@, p as int, numbers_of(*number_at))
            == Some((a, i, t@, e as int)) && p < e <= s@.len(),
        r is None ==> transaction_at(s@, p as int, numbers_of(*number_at)) is None,
{
    match scan_section(s, p, Section::Transaction, number_at) {
        Some((Some(Value::Number(a)), Some(Value::Count(i)), Some(Value::Text(t)), e)) => Some(
            (a, i, t, e),
        ),
        _ => None,
    }
}

/// Reads the customer that opens at `p`.
pub fn parse_customer<'a, N: Fn(usize) -> Option<(u32, usize)>>(
    s: &'a [u8],
    p: usize,
    number_at: &N,
) -> (r: Option<(u32, u32, &'a [u8], usize)>)
    requires
        p <= s@.len(),
        reads_numbers(*number_at, s@.len()),
    ensures
        r matches Some((a, c, l, e)) ==> customer_at(s@, p as int, numbers_of(*number_at))
            == Some((a, c, l@, e as int)) && p < e <= s@.len(),
        r is None ==> customer_at(s@, p as int, numbers_of(*number_at)) is None,
{
    match scan_section(s, p, Section::Customer, number_at) {
        Some((Some(Value::Number(a)), Some(Value::Count(c)), Some(Value::List(l)), e)) => Some(
            (a, c, l, e),
        ),
        _ => None,
    }
}

/// Reads the merchant that opens at `p`.
pub fn parse_merchant<'a, N: Fn(usize) -> Option<(u32, usize)>>(
    s: &'a [u8],
    p: usize,
    number_at: &N,
) -> (r: Option<(&'a [u8], &'a [u8], u32, usize)>)
    requires
        p <= s@.len(),
        reads_numbers(*number_at, s@.len()),
    ensures
        r matches Some((i, m, a, e)) ==> merchant_at(s@, p as int, numbers_of(*number_at))
            == Some((i@, m@, a, e as int)) && p < e <= s@.len(),
        r is None ==> merchant_at(s@, p as int, numbers_of(*number_at)) is None,
{
    match scan_section(s, p, Section::Merchant, number_at) {
        Some((Some(Value::Text(i)), Some(Value::Text(m)), Some(Value::Number(a)), e)) => Some(
            (i, m, a, e),
        ),
        _ => None,
    }
}

/// Reads the terminal that opens at `p`.
pub fn parse_terminal<N: Fn(usize) -> Option<(u32, usize)>>(
    s: &[u8],
    p: usize,
    number_at: &N,
) -> (r: Option<(bool, bool, u32, usize)>)
    requires
        p <= s@.len(),
        reads_numbers(*number_at, s@.len()),
    ensures
        r matches Some((o, c, k, e)) ==> terminal_at(s@, p as int, numbers_of(*number_at))
            == Some((o, c, k, e as int)) && p < e <= s@.len(),
        r is None ==> terminal_at(s@, p as int, numbers_of(*number_at)) is None,
{
    match scan_section(s, p, Section::Terminal, number_at) {
        Some((Some(Value::Flag(o)), Some(Value::Flag(c)), Some(Value::Number(k)), e)) => Some(
            (o, c, k, e),
        ),
        _ => None,
    }
}

/// Reads the last transaction that opens at `p`.
pub fn parse_last_tx<'a, N: Fn(usize) -> Option<(u32, usize)>>(
    s: &'a [u8],
    p: usize,
    number_at: &N,
) -> (r: Option<(&'a [u8], u32, usize)>)
    requires
        p <= s@.len(),
        reads_numbers(*number_at, s@.len()),
    ensures
        r matches Some((t, k, e)) ==> last_tx_at(s@, p as int, numbers_of(*number_at)) == Some(
            (t@, k, e as int),
        ) && p < e <= s@.len(),
        r is None ==> last_tx_at(s@, p as int, numbers_of(*number_at)) is None,
{
    match scan_section(s, p, Section::LastTx, number_at) {
        Some((Some(Value::Text(t)), Some(Value::Number(k)), _, e)) => Some((t, k, e)),
        _ => None,
    }
}

} // verus!
