//! How requests are written, and that what is written is read.
//!
//! The parts of a request, and the fields of a section, may stand in any order,
//! with white space and members of other names in between.
use vstd::prelude::*;

use crate::input::json::{
    decimal, digits_end, ends_plain, nest_end, plain_end, text_close, value_end, ws_end, Member,
    CLOSE_ARRAY, CLOSE_OBJECT, ESCAPE, LETTER_F, LETTER_N, LETTER_T, NINE, OPEN_ARRAY, OPEN_OBJECT,
    QUOTE, ZERO,
};
use crate::input::payload::{
    assembled, found_customer, found_last_tx, found_merchant, found_terminal, found_transaction,
    last_part, part_end, part_of, parts, request_in, Part, Request,
};
use crate::input::section::{
    customer_at, field_end, field_value, fields, known_as, last_tx_at, merchant_at, read_at,
    section_at, shape_of, terminal_at, transaction_at, Numbers, Reading, Section, Shape,
};
use crate::input::written::{
    blank, comma, lemma_blank_stands, lemma_members_of_rest, lemma_stands_at, lemma_stands_parts,
    members_of, stands, written, written_objects_are_read, Entry,
};

verus! {

/// The inside of a text: no quote but behind an escape, and no escape without a
/// byte behind it.
pub open spec fn escaped(t: Seq<u8>) -> bool
    decreases t.len(),
{
    if t.len() == 0 {
        true
    } else if t[0] == ESCAPE {
        t.len() >= 2 && escaped(t.skip(2))
    } else {
        t[0] != QUOTE && escaped(t.skip(1))
    }
}

/// A text in its quotes.
pub open spec fn quoted(t: Seq<u8>) -> Seq<u8> {
    seq![QUOTE] + (t + seq![QUOTE])
}

/// A piece of an object or an array behind its opening bracket: a text, a
/// bracket of its own kind, or any other byte.
pub enum Piece {
    Text(Seq<u8>),
    Open,
    Close,
    Byte(u8),
}

impl Piece {
    /// Whether it is such a piece.
    pub open spec fn fits(self, open: u8, close: u8) -> bool {
        match self {
            Piece::Text(t) => escaped(t),
            Piece::Byte(b) => b != QUOTE && b != open && b != close,
            _ => true,
        }
    }

    /// The piece as it is written.
    pub open spec fn text(self, open: u8, close: u8) -> Seq<u8> {
        match self {
            Piece::Text(t) => quoted(t),
            Piece::Open => seq![open],
            Piece::Close => seq![close],
            Piece::Byte(b) => seq![b],
        }
    }
}

/// Pieces as they are written.
pub open spec fn run(ps: Seq<Piece>, open: u8, close: u8) -> Seq<u8>
    decreases ps.len(),
{
    if ps.len() == 0 {
        seq![]
    } else {
        ps[0].text(open, close) + run(ps.skip(1), open, close)
    }
}

/// Whether the last of the pieces, and none before it, closes the last of the
/// `depth` brackets that are open.
pub open spec fn balanced(ps: Seq<Piece>, depth: int, open: u8, close: u8) -> bool
    decreases ps.len(),
{
    if ps.len() == 0 {
        depth == 0
    } else {
        &&& depth > 0
        &&& ps[0].fits(open, close)
        &&& balanced(
            ps.skip(1),
            match ps[0] {
                Piece::Open => depth + 1,
                Piece::Close => depth - 1,
                _ => depth,
            },
            open,
            close,
        )
    }
}

/// Whether pieces make up an object or an array.
pub open spec fn nests(ps: Seq<Piece>, w: Seq<u8>, open: u8, close: u8) -> bool {
    w == seq![open] + run(ps, open, close) && balanced(ps, 1, open, close)
}

/// Whether `w` is a value: a text, an object, an array, a word, or a run of
/// bytes that nothing in it ends.
pub open spec fn is_value(w: Seq<u8>) -> bool {
    ||| exists|t: Seq<u8>| w == #[trigger] quoted(t) && escaped(t)
    ||| exists|ps: Seq<Piece>| #[trigger] nests(ps, w, OPEN_OBJECT, CLOSE_OBJECT)
    ||| exists|ps: Seq<Piece>| #[trigger] nests(ps, w, OPEN_ARRAY, CLOSE_ARRAY)
    ||| w.len() == 4 && (w[0] == LETTER_T || w[0] == LETTER_N)
    ||| w.len() == 5 && w[0] == LETTER_F
    ||| {
        &&& w.len() > 0
        &&& w[0] != QUOTE && w[0] != OPEN_OBJECT && w[0] != OPEN_ARRAY
        &&& w[0] != LETTER_T && w[0] != LETTER_N && w[0] != LETTER_F
        &&& forall|i: int| 0 <= i < w.len() ==> !ends_plain(#[trigger] w[i])
    }
}

/// Whether `w` at position `at` is how a value is written.
pub open spec fn spells(w: Seq<u8>, at: int, v: Reading, nums: Numbers) -> bool {
    match v {
        Reading::Number(x) => nums(at) == Some((x, w.len())),
        Reading::Count(n) => decimal(w) % 0x1_0000_0000 == n && forall|i: int|
            0 <= i < w.len() ==> ZERO <= #[trigger] w[i] <= NINE,
        Reading::Text(t) => w == quoted(t) && escaped(t),
        Reading::List(l) => w == l && exists|ps: Seq<Piece>| #[trigger]
            nests(ps, l, OPEN_ARRAY, CLOSE_ARRAY),
        Reading::Flag(b) => if b {
            w.len() == 4 && w[0] == LETTER_T
        } else {
            w.len() == 5 && w[0] == LETTER_F
        },
    }
}

/// The shape of a value.
pub open spec fn shape(v: Reading) -> Shape {
    match v {
        Reading::Number(_) => Shape::Number,
        Reading::Count(_) => Shape::Count,
        Reading::Text(_) => Shape::Text,
        Reading::List(_) => Shape::List,
        Reading::Flag(_) => Shape::Flag,
    }
}

/// Whether an entry at `at` writes a field that a section has, or has another
/// name.
pub open spec fn fills_in(
    e: Entry,
    at: int,
    section: Section,
    vs: Seq<Option<Reading>>,
    nums: Numbers,
) -> bool {
    &&& e.tidy()
    &&& match known_as(section, e.key) {
        Some(f) => {
            &&& 0 <= f < vs.len()
            &&& vs[f] matches Some(v)
            &&& shape_of(section, f) == shape(v)
            &&& spells(e.value, at, v, nums)
        },
        None => is_value(e.value),
    }
}

/// Whether some of the first `n` entries writes a field.
pub open spec fn named_in(fs: Seq<Entry>, n: int, section: Section, f: int) -> bool {
    exists|i: int| 0 <= i < n && known_as(section, (#[trigger] fs[i]).key) == Some(f)
}

/// Whether entries write the fields that a section has, in any order, with
/// those values. Their text starts at `p`.
pub open spec fn fills(
    fs: Seq<Entry>,
    p: int,
    section: Section,
    vs: Seq<Option<Reading>>,
    nums: Numbers,
) -> bool {
    &&& forall|i: int|
        0 <= i < fs.len() ==> fills_in(
            #[trigger] fs[i],
            members_of(fs, p)[i].at,
            section,
            vs,
            nums,
        )
    &&& forall|f: int|
        0 <= f < vs.len() && vs[f] is Some ==> #[trigger] named_in(
            fs,
            fs.len() as int,
            section,
            f,
        )
}

/// A section as it is written.
pub open spec fn object(fs: Seq<Entry>) -> Seq<u8> {
    seq![OPEN_OBJECT] + written(fs)
}

/// The section that is a part of a request.
pub open spec fn section_of(part: Part) -> Section {
    match part {
        Part::Customer => Section::Customer,
        Part::Merchant => Section::Merchant,
        Part::Terminal => Section::Terminal,
        Part::LastTx => Section::LastTx,
        _ => Section::Transaction,
    }
}

/// What a text may say of a request. A section may be missing, and so may a
/// field of a section.
pub struct Draft {
    /// The amount, the number of installments, and when it was requested.
    pub transaction: Option<(Option<u32>, Option<u32>, Option<Seq<u8>>)>,
    /// The average amount, the transactions of a day, and the known merchants.
    pub customer: Option<(Option<u32>, Option<u32>, Option<Seq<u8>>)>,
    /// The id, the category code, and the average amount.
    pub merchant: Option<(Option<Seq<u8>>, Option<Seq<u8>>, Option<u32>)>,
    /// Whether it is online, whether the card is present, and the distance from
    /// home.
    pub terminal: Option<(Option<bool>, Option<bool>, Option<u32>)>,
    /// When it was, and how far away.
    pub last_tx: Option<(Option<Seq<u8>>, Option<u32>)>,
}

/// A number with a fraction, where there is one.
pub open spec fn number(x: Option<u32>) -> Option<Reading> {
    match x {
        Some(v) => Some(Reading::Number(v)),
        None => None,
    }
}

/// A whole number, where there is one.
pub open spec fn count(x: Option<u32>) -> Option<Reading> {
    match x {
        Some(v) => Some(Reading::Count(v)),
        None => None,
    }
}

/// A text, where there is one.
pub open spec fn text(x: Option<Seq<u8>>) -> Option<Reading> {
    match x {
        Some(v) => Some(Reading::Text(v)),
        None => None,
    }
}

/// An array, where there is one.
pub open spec fn list(x: Option<Seq<u8>>) -> Option<Reading> {
    match x {
        Some(v) => Some(Reading::List(v)),
        None => None,
    }
}

/// A flag, where there is one.
pub open spec fn flag(x: Option<bool>) -> Option<Reading> {
    match x {
        Some(v) => Some(Reading::Flag(v)),
        None => None,
    }
}

impl Draft {
    /// The values of the fields of a section, where there is that section.
    pub open spec fn readings(self, part: Part) -> Option<Seq<Option<Reading>>> {
        match part {
            Part::Id => None,
            Part::Transaction => match self.transaction {
                Some((a, i, r)) => Some(seq![number(a), count(i), text(r)]),
                None => None,
            },
            Part::Customer => match self.customer {
                Some((a, c, k)) => Some(seq![number(a), count(c), list(k)]),
                None => None,
            },
            Part::Merchant => match self.merchant {
                Some((i, m, a)) => Some(seq![text(i), text(m), number(a)]),
                None => None,
            },
            Part::Terminal => match self.terminal {
                Some((o, c, k)) => Some(seq![flag(o), flag(c), number(k)]),
                None => None,
            },
            Part::LastTx => match self.last_tx {
                Some((t, k)) => Some(seq![text(t), number(k)]),
                None => None,
            },
        }
    }

    /// Whether a section is there with a field missing.
    pub open spec fn lacks_a_field(self, part: Part) -> bool {
        self.readings(part) matches Some(vs) && exists|f: int|
            0 <= f < vs.len() && #[trigger] vs[f] is None
    }

    /// Whether a section is missing that a request must have.
    pub open spec fn lacks_a_section(self) -> bool {
        ||| self.transaction is None
        ||| self.customer is None
        ||| self.merchant is None
        ||| self.terminal is None
    }

    /// The request, where nothing is missing. There may be no last transaction,
    /// but one that is there is whole.
    pub open spec fn completed(self) -> Option<Request> {
        match (self.transaction, self.customer, self.merchant, self.terminal) {
            (
                Some((Some(amount), Some(installments), Some(requested_at))),
                Some((Some(customer_avg_amount), Some(tx_count_24h), Some(known_merchants))),
                Some((Some(merchant_id), Some(merchant_mcc), Some(merchant_avg_amount))),
                Some((Some(is_online), Some(card_present), Some(km_from_home))),
            ) => {
                let r = Request {
                    amount,
                    installments,
                    requested_at,
                    customer_avg_amount,
                    tx_count_24h,
                    known_merchants,
                    merchant_id,
                    merchant_mcc,
                    merchant_avg_amount,
                    is_online,
                    card_present,
                    km_from_home,
                    last_timestamp: None,
                    last_km: None,
                };
                match self.last_tx {
                    None => Some(r),
                    Some((Some(when), Some(km))) => Some(
                        Request { last_timestamp: Some(when), last_km: Some(km), ..r },
                    ),
                    Some(_) => None,
                }
            },
            _ => None,
        }
    }
}

/// What a text says that says all of a request.
pub open spec fn draft_of(r: Request) -> Draft {
    Draft {
        transaction: Some((Some(r.amount), Some(r.installments), Some(r.requested_at))),
        customer: Some(
            (Some(r.customer_avg_amount), Some(r.tx_count_24h), Some(r.known_merchants)),
        ),
        merchant: Some((Some(r.merchant_id), Some(r.merchant_mcc), Some(r.merchant_avg_amount))),
        terminal: Some((Some(r.is_online), Some(r.card_present), Some(r.km_from_home))),
        last_tx: if r.last_timestamp is Some {
            Some((r.last_timestamp, r.last_km))
        } else {
            None
        },
    }
}

/// A request as it is written: white space, its parts, and the fields of each
/// part that is a section.
pub struct Sheet {
    pub lead: Seq<u8>,
    pub parts: Seq<Entry>,
    pub fields: Seq<Seq<Entry>>,
}

impl Sheet {
    /// What is written.
    pub open spec fn text(self) -> Seq<u8> {
        self.lead + object(self.parts)
    }

    /// The parts as they are read.
    pub open spec fn members(self) -> Seq<Member> {
        members_of(self.parts, self.lead.len() as int + 1)
    }

    /// Whether part `i` is a section with those values.
    pub open spec fn has_section(
        self,
        i: int,
        part: Part,
        vs: Seq<Option<Reading>>,
        nums: Numbers,
    ) -> bool {
        &&& self.parts[i].value == object(self.fields[i])
        &&& fills(self.fields[i], self.members()[i].at + 1, section_of(part), vs, nums)
    }

    /// Whether part `i` is one that the draft has, or has another name.
    pub open spec fn has_part(self, i: int, d: Draft, nums: Numbers) -> bool {
        &&& self.parts[i].tidy()
        &&& match part_of(self.parts[i].key) {
            None => is_value(self.parts[i].value),
            Some(Part::Id) => exists|id: Seq<u8>|
                self.parts[i].value == #[trigger] quoted(id) && escaped(id),
            Some(part) => if self.is_null(i) {
                self.parts[i].value.len() == 4
            } else {
                d.readings(part) matches Some(vs) && self.has_section(i, part, vs, nums)
            },
        }
    }

    /// Whether part `i` says that there is no last transaction.
    pub open spec fn is_null(self, i: int) -> bool {
        part_of(self.parts[i].key) == Some(Part::LastTx) && self.parts[i].value[0] == LETTER_N
    }

    /// Whether some part is that section.
    pub open spec fn names(self, part: Part) -> bool {
        exists|i: int|
            0 <= i < self.parts.len() && part_of((#[trigger] self.parts[i]).key) == Some(part)
                && !self.is_null(i)
    }

    /// Whether this writes the draft: the sections that it has, with the fields
    /// that they have. A last transaction that is `null` says nothing.
    pub open spec fn writes(self, d: Draft, nums: Numbers) -> bool {
        &&& blank(self.lead)
        &&& forall|i: int| 0 <= i < self.parts.len() ==> #[trigger] self.has_part(i, d, nums)
        &&& forall|part: Part| d.readings(part) is Some ==> #[trigger] self.names(part)
    }
}

/// Each value stands where its member says, and something follows that ends it.
proof fn lemma_values_stand(s: Seq<u8>, p: int, es: Seq<Entry>, i: int)
    requires
        stands(s, p, written(es)),
        forall|j: int| 0 <= j < es.len() ==> (#[trigger] es[j]).tidy(),
        0 <= i < es.len(),
    ensures
        stands(s, members_of(es, p)[i].at, es[i].value),
        ({
            let e = members_of(es, p)[i].at + es[i].value.len();
            e < s.len() && ends_plain(s[e])
        }),
    decreases es.len(),
{
    let e = es[0];
    let rest = es.skip(1);
    lemma_stands_parts(s, p, e.text(), comma(es.len()) + written(rest));
    let z = p + e.text().len();
    lemma_stands_parts(s, z, comma(es.len()), written(rest));
    lemma_members_of_rest(es, p);
    if i == 0 {
        lemma_stands_parts(s, p, e.head(), e.value + e.after);
        let at = p + e.head().len();
        lemma_stands_parts(s, at, e.value, e.after);
        if e.after.len() > 0 {
            lemma_stands_at(s, at + e.value.len(), e.after, 0);
        } else if es.len() > 1 {
            lemma_stands_at(s, z, comma(es.len()), 0);
        } else {
            lemma_stands_at(s, z, written(rest), 0);
        }
    } else {
        assert forall|j: int| 0 <= j < rest.len() implies (#[trigger] rest[j]).tidy() by {
            assert(rest[j] == es[j + 1]);
        }
        let n = z + comma(es.len()).len();
        lemma_values_stand(s, n, rest, i - 1);
        assert(members_of(es, p)[i] == members_of(rest, n)[i - 1]);
    }
}

/// The inside of a text is closed by the quote behind it.
proof fn lemma_close_is_found(s: Seq<u8>, p: int, t: Seq<u8>)
    requires
        stands(s, p, t + seq![QUOTE]),
        escaped(t),
    ensures
        text_close(s, p) == Some(p + t.len()),
    decreases t.len(),
{
    let w = t + seq![QUOTE];
    lemma_stands_at(s, p, w, 0);
    if t.len() > 0 {
        let n = if t[0] == ESCAPE {
            2int
        } else {
            1
        };
        let rest = t.skip(n);
        assert(w =~= t.take(n) + (rest + seq![QUOTE]));
        lemma_stands_parts(s, p, t.take(n), rest + seq![QUOTE]);
        lemma_close_is_found(s, p + n, rest);
    }
}

/// Behind balanced pieces everything is closed.
proof fn lemma_run_is_passed(s: Seq<u8>, p: int, ps: Seq<Piece>, depth: int, open: u8, close: u8)
    requires
        stands(s, p, run(ps, open, close)),
        balanced(ps, depth, open, close),
        depth > 0,
        open != close,
        open != QUOTE,
        close != QUOTE,
    ensures
        nest_end(s, p, open, close, depth) == Some(p + run(ps, open, close).len()),
    decreases ps.len(),
{
    let rest = ps.skip(1);
    let first = ps[0].text(open, close);
    lemma_stands_parts(s, p, first, run(rest, open, close));
    match ps[0] {
        Piece::Text(t) => {
            lemma_stands_parts(s, p, seq![QUOTE], t + seq![QUOTE]);
            lemma_stands_at(s, p, seq![QUOTE], 0);
            lemma_close_is_found(s, p + 1, t);
            lemma_run_is_passed(s, p + first.len(), rest, depth, open, close);
        },
        Piece::Open => {
            lemma_stands_at(s, p, seq![open], 0);
            lemma_run_is_passed(s, p + 1, rest, depth + 1, open, close);
        },
        Piece::Close => {
            lemma_stands_at(s, p, seq![close], 0);
            if depth == 1 {
                assert(balanced(rest, 0, open, close));
                assert(rest.len() == 0);
            } else {
                lemma_run_is_passed(s, p + 1, rest, depth - 1, open, close);
            }
        },
        Piece::Byte(b) => {
            lemma_stands_at(s, p, seq![b], 0);
            lemma_run_is_passed(s, p + 1, rest, depth, open, close);
        },
    }
}

/// An object or an array ends where it was written to end.
proof fn lemma_nest_is_passed(s: Seq<u8>, at: int, w: Seq<u8>, ps: Seq<Piece>, open: u8, close: u8)
    requires
        stands(s, at, w),
        nests(ps, w, open, close),
        open != close,
        open != QUOTE,
        close != QUOTE,
    ensures
        nest_end(s, at, open, close, 0) == Some(at + w.len()),
        s[at] == open,
        at < s.len(),
{
    lemma_stands_parts(s, at, seq![open], run(ps, open, close));
    lemma_stands_at(s, at, seq![open], 0);
    lemma_run_is_passed(s, at + 1, ps, 1, open, close);
}

proof fn lemma_digits_are_passed(s: Seq<u8>, p: int, e: int)
    requires
        0 <= p <= e < s.len(),
        forall|i: int| p <= i < e ==> ZERO <= #[trigger] s[i] <= NINE,
        ends_plain(s[e]),
    ensures
        digits_end(s, p) == e,
    decreases e - p,
{
    if p < e {
        lemma_digits_are_passed(s, p + 1, e);
    }
}

proof fn lemma_plain_is_passed(s: Seq<u8>, p: int, e: int)
    requires
        0 <= p <= e < s.len(),
        forall|i: int| p <= i < e ==> !ends_plain(#[trigger] s[i]),
        ends_plain(s[e]),
    ensures
        plain_end(s, p) == e,
    decreases e - p,
{
    if p < e {
        lemma_plain_is_passed(s, p + 1, e);
    }
}

/// A value of whatever kind is passed over whole.
proof fn lemma_value_is_passed(s: Seq<u8>, at: int, w: Seq<u8>)
    requires
        stands(s, at, w),
        is_value(w),
        at + w.len() < s.len(),
        ends_plain(s[at + w.len()]),
    ensures
        value_end(s, at) == Some(at + w.len()),
{
    if exists|t: Seq<u8>| w == #[trigger] quoted(t) && escaped(t) {
        let t = choose|t: Seq<u8>| w == #[trigger] quoted(t) && escaped(t);
        lemma_stands_parts(s, at, seq![QUOTE], t + seq![QUOTE]);
        lemma_stands_at(s, at, seq![QUOTE], 0);
        lemma_close_is_found(s, at + 1, t);
    } else if exists|ps: Seq<Piece>| #[trigger] nests(ps, w, OPEN_OBJECT, CLOSE_OBJECT) {
        let ps = choose|ps: Seq<Piece>| #[trigger] nests(ps, w, OPEN_OBJECT, CLOSE_OBJECT);
        lemma_nest_is_passed(s, at, w, ps, OPEN_OBJECT, CLOSE_OBJECT);
    } else if exists|ps: Seq<Piece>| #[trigger] nests(ps, w, OPEN_ARRAY, CLOSE_ARRAY) {
        let ps = choose|ps: Seq<Piece>| #[trigger] nests(ps, w, OPEN_ARRAY, CLOSE_ARRAY);
        lemma_nest_is_passed(s, at, w, ps, OPEN_ARRAY, CLOSE_ARRAY);
    } else {
        lemma_stands_at(s, at, w, 0);
        if w[0] != LETTER_T && w[0] != LETTER_N && w[0] != LETTER_F {
            assert forall|i: int| at <= i < at + w.len() implies !ends_plain(#[trigger] s[i]) by {
                lemma_stands_at(s, at, w, i - at);
                assert(!ends_plain(w[i - at]));
            }
            lemma_plain_is_passed(s, at, at + w.len());
        }
    }
}

/// A value is read as it is written.
proof fn lemma_spelled_is_read(s: Seq<u8>, at: int, w: Seq<u8>, v: Reading, nums: Numbers)
    requires
        stands(s, at, w),
        w.len() > 0,
        at + w.len() < s.len(),
        ends_plain(s[at + w.len()]),
        spells(w, at, v, nums),
    ensures
        read_at(s, at, shape(v), nums) == Some((v, at + w.len())),
{
    match v {
        Reading::Number(_) => {},
        Reading::Count(n) => {
            assert forall|i: int| at <= i < at + w.len() implies ZERO <= #[trigger] s[i]
                <= NINE by {
                lemma_stands_at(s, at, w, i - at);
                assert(ZERO <= w[i - at] <= NINE);
            }
            lemma_digits_are_passed(s, at, at + w.len());
        },
        Reading::Text(t) => {
            lemma_stands_parts(s, at, seq![QUOTE], t + seq![QUOTE]);
            lemma_close_is_found(s, at + 1, t);
            lemma_stands_parts(s, at + 1, t, seq![QUOTE]);
        },
        Reading::List(l) => {
            let ps = choose|ps: Seq<Piece>| #[trigger] nests(ps, l, OPEN_ARRAY, CLOSE_ARRAY);
            lemma_nest_is_passed(s, at, w, ps, OPEN_ARRAY, CLOSE_ARRAY);
        },
        Reading::Flag(_) => {
            lemma_stands_at(s, at, w, 0);
        },
    }
}

proof fn lemma_entries_are_tidy(
    fs: Seq<Entry>,
    p: int,
    section: Section,
    vs: Seq<Option<Reading>>,
    nums: Numbers,
)
    requires
        fills(fs, p, section, vs, nums),
    ensures
        forall|i: int| 0 <= i < fs.len() ==> (#[trigger] fs[i]).tidy(),
{
    assert forall|i: int| 0 <= i < fs.len() implies (#[trigger] fs[i]).tidy() by {
        assert(fills_in(fs[i], members_of(fs, p)[i].at, section, vs, nums));
    }
}

/// The value of a field among the first `n` of the section's entries.
proof fn lemma_field_is_read(
    s: Seq<u8>,
    p: int,
    section: Section,
    fs: Seq<Entry>,
    vs: Seq<Option<Reading>>,
    nums: Numbers,
    n: int,
    field: int,
)
    requires
        stands(s, p, written(fs)),
        fills(fs, p, section, vs, nums),
        0 <= n <= fs.len(),
    ensures
        field_value(s, section, members_of(fs, p).take(n), field, nums) == if named_in(
            fs,
            n,
            section,
            field,
        ) {
            vs[field]
        } else {
            None
        },
    decreases n,
{
    let ms = members_of(fs, p).take(n);
    if n > 0 {
        let e = fs[n - 1];
        assert(ms.last() == members_of(fs, p)[n - 1]);
        assert(fills_in(e, ms.last().at, section, vs, nums));
        assert(ms.drop_last() =~= members_of(fs, p).take(n - 1));
        lemma_field_is_read(s, p, section, fs, vs, nums, n - 1, field);
        if known_as(section, e.key) == Some(field) {
            lemma_entries_are_tidy(fs, p, section, vs, nums);
            lemma_values_stand(s, p, fs, n - 1);
            lemma_spelled_is_read(s, ms.last().at, e.value, vs[field].unwrap(), nums);
            assert(named_in(fs, n, section, field));
        } else if named_in(fs, n - 1, section, field) {
            let i = choose|i: int|
                0 <= i < n - 1 && known_as(section, (#[trigger] fs[i]).key) == Some(field);
            assert(known_as(section, fs[i].key) == Some(field));
        }
    }
}

/// A section is read as it is written.
proof fn lemma_section_is_read(
    s: Seq<u8>,
    p: int,
    section: Section,
    fs: Seq<Entry>,
    vs: Seq<Option<Reading>>,
    nums: Numbers,
)
    requires
        stands(s, p, object(fs)),
        fills(fs, p + 1, section, vs, nums),
        vs.len() >= 2,
    ensures
        section_at(s, p, section, nums) matches Some((a, b, c, e)) && a == vs[0] && b == vs[1] && (
        vs.len() > 2 ==> c == vs[2]) && e == p + object(fs).len(),
{
    let end_of = |m: Member| field_end(s, section, m, nums);
    let ms = members_of(fs, p + 1);
    lemma_stands_parts(s, p, seq![OPEN_OBJECT], written(fs));
    lemma_entries_are_tidy(fs, p + 1, section, vs, nums);
    assert forall|i: int| 0 <= i < fs.len() implies end_of(
        #[trigger] members_of(fs, p + 1)[i],
    ) == Some(members_of(fs, p + 1)[i].at + fs[i].value.len()) by {
        assert(fills_in(fs[i], ms[i].at, section, vs, nums));
        lemma_values_stand(s, p + 1, fs, i);
        match known_as(section, fs[i].key) {
            Some(f) => {
                lemma_spelled_is_read(s, ms[i].at, fs[i].value, vs[f].unwrap(), nums);
            },
            None => {
                lemma_value_is_passed(s, ms[i].at, fs[i].value);
            },
        }
    }
    written_objects_are_read(s, p + 1, fs, end_of);
    let n = fs.len() as int;
    assert(fields(s, p, section, nums) == Some((ms, p + object(fs).len())));
    assert(ms.take(n) =~= ms);
    assert(vs[0] is Some ==> named_in(fs, n, section, 0));
    assert(vs[1] is Some ==> named_in(fs, n, section, 1));
    lemma_field_is_read(s, p + 1, section, fs, vs, nums, n, 0);
    lemma_field_is_read(s, p + 1, section, fs, vs, nums, n, 1);
    if vs.len() > 2 {
        assert(vs[2] is Some ==> named_in(fs, n, section, 2));
        lemma_field_is_read(s, p + 1, section, fs, vs, nums, n, 2);
    }
}

/// Where the parts of a written draft stand.
proof fn lemma_parts_stand(s: Seq<u8>, sheet: Sheet, d: Draft, nums: Numbers)
    requires
        stands(s, 0, sheet.text()),
        sheet.writes(d, nums),
    ensures
        stands(s, sheet.lead.len() as int + 1, written(sheet.parts)),
        ws_end(s, 0) == sheet.lead.len(),
        sheet.lead.len() as int + 1 < s.len(),
        s[sheet.lead.len() as int] == OPEN_OBJECT,
        forall|i: int| 0 <= i < sheet.parts.len() ==> (#[trigger] sheet.parts[i]).tidy(),
{
    let es = sheet.parts;
    let p = sheet.lead.len() as int;
    assert forall|i: int| 0 <= i < es.len() implies (#[trigger] es[i]).tidy() by {
        assert(sheet.has_part(i, d, nums));
    }
    lemma_stands_parts(s, 0, sheet.lead, object(es));
    lemma_stands_parts(s, p, seq![OPEN_OBJECT], written(es));
    lemma_stands_at(s, p, seq![OPEN_OBJECT], 0);
    lemma_blank_stands(s, 0, sheet.lead);
    if es.len() == 0 {
        lemma_stands_at(s, p + 1, written(es), 0);
    } else {
        lemma_values_stand(s, p + 1, es, 0);
    }
}

/// Whether a section is read as the draft has it: in full, or not at all where
/// it lacks a field.
spec fn reads_part(s: Seq<u8>, at: int, e: int, part: Part, d: Draft, nums: Numbers) -> bool {
    match part {
        Part::Id => true,
        Part::Transaction => transaction_at(s, at, nums) == match d.transaction {
            Some((Some(a), Some(i), Some(r))) => Some((a, i, r, e)),
            _ => None,
        },
        Part::Customer => customer_at(s, at, nums) == match d.customer {
            Some((Some(a), Some(c), Some(k))) => Some((a, c, k, e)),
            _ => None,
        },
        Part::Merchant => merchant_at(s, at, nums) == match d.merchant {
            Some((Some(i), Some(m), Some(a))) => Some((i, m, a, e)),
            _ => None,
        },
        Part::Terminal => terminal_at(s, at, nums) == match d.terminal {
            Some((Some(o), Some(c), Some(k))) => Some((o, c, k, e)),
            _ => None,
        },
        Part::LastTx => s[at] != LETTER_N ==> last_tx_at(s, at, nums) == match d.last_tx {
            Some((Some(t), Some(k))) => Some((t, k, e)),
            _ => None,
        },
    }
}

/// A part that is a section is read as the draft has it.
proof fn lemma_section_part(
    s: Seq<u8>,
    sheet: Sheet,
    i: int,
    part: Part,
    d: Draft,
    nums: Numbers,
)
    requires
        0 <= i < sheet.parts.len(),
        stands(s, sheet.members()[i].at, sheet.parts[i].value),
        d.readings(part) is Some,
        sheet.has_section(i, part, d.readings(part).unwrap(), nums),
    ensures
        ({
            let at = sheet.members()[i].at;
            let e = at + sheet.parts[i].value.len();
            &&& reads_part(s, at, e, part, d, nums)
            &&& part_of(sheet.parts[i].key) == Some(part) ==> part_end(s, sheet.members()[i], nums)
                == if d.lacks_a_field(part) {
                None
            } else {
                Some(e)
            }
        }),
{
    let at = sheet.members()[i].at;
    let vs = d.readings(part).unwrap();
    let fs = sheet.fields[i];
    assert(vs.len() == 3 || (part == Part::LastTx && vs.len() == 2));
    lemma_stands_parts(s, at, seq![OPEN_OBJECT], written(fs));
    lemma_stands_at(s, at, seq![OPEN_OBJECT], 0);
    lemma_section_is_read(s, at, section_of(part), fs, vs, nums);
    lemma_lacks(d, part);
}

/// Which of its fields a section may lack.
proof fn lemma_lacks(d: Draft, part: Part)
    requires
        d.readings(part) is Some,
    ensures
        ({
            let vs = d.readings(part).unwrap();
            d.lacks_a_field(part) <==> vs[0] is None || vs[1] is None || (vs.len() > 2
                && vs[2] is None)
        }),
{
    let vs = d.readings(part).unwrap();
    assert(vs.len() == 3 || vs.len() == 2);
    if vs[0] is None || vs[1] is None || (vs.len() > 2 && vs[2] is None) {
        let f: int = if vs[0] is None {
            0
        } else if vs[1] is None {
            1
        } else {
            2
        };
        assert(vs[f] is None);
    }
}

/// Each part is read as the draft has it, and ends where it was written to end,
/// or nowhere where it lacks a field.
proof fn lemma_part_is_read(s: Seq<u8>, sheet: Sheet, i: int, d: Draft, nums: Numbers)
    requires
        stands(s, 0, sheet.text()),
        sheet.writes(d, nums),
        0 <= i < sheet.parts.len(),
    ensures
        ({
            let m = sheet.members()[i];
            let e = m.at + sheet.parts[i].value.len();
            &&& m.key == sheet.parts[i].key
            &&& 0 <= m.at < s.len()
            &&& s[m.at] == sheet.parts[i].value[0]
            &&& part_of(m.key) matches Some(part) ==> reads_part(s, m.at, e, part, d, nums)
            &&& part_end(s, m, nums) == match part_of(m.key) {
                Some(part) => if d.lacks_a_field(part) && !sheet.is_null(i) {
                    None
                } else {
                    Some(e)
                },
                None => Some(e),
            }
        }),
{
    let m = sheet.members()[i];
    let w = sheet.parts[i].value;
    lemma_parts_stand(s, sheet, d, nums);
    lemma_values_stand(s, sheet.lead.len() as int + 1, sheet.parts, i);
    assert(sheet.has_part(i, d, nums));
    lemma_stands_at(s, m.at, w, 0);
    match part_of(m.key) {
        None => {
            lemma_value_is_passed(s, m.at, w);
        },
        Some(Part::Id) => {
            let id = choose|id: Seq<u8>| w == #[trigger] quoted(id) && escaped(id);
            lemma_stands_parts(s, m.at, seq![QUOTE], id + seq![QUOTE]);
            lemma_close_is_found(s, m.at + 1, id);
        },
        Some(part) => {
            if !sheet.is_null(i) {
                lemma_section_part(s, sheet, i, part, d, nums);
            }
        },
    }
}

/// The parts of a written draft are read as its members, where no section lacks
/// a field.
proof fn lemma_parts_are_read(s: Seq<u8>, sheet: Sheet, d: Draft, nums: Numbers)
    requires
        stands(s, 0, sheet.text()),
        sheet.writes(d, nums),
    ensures
        ({
            let p = sheet.lead.len() as int + 1;
            &&& (forall|part: Part| !#[trigger] d.lacks_a_field(part)) ==> (parts(
                s,
                p,
                nums,
            ) matches Some((ms, _)) && ms == sheet.members())
            &&& (exists|part: Part| #[trigger] d.lacks_a_field(part)) ==> parts(s, p, nums) is None
        }),
{
    let es = sheet.parts;
    let p = sheet.lead.len() as int + 1;
    let end_of = |m: Member| part_end(s, m, nums);
    lemma_parts_stand(s, sheet, d, nums);
    assert forall|i: int| 0 <= i < es.len() implies (end_of(
        #[trigger] members_of(es, p)[i],
    ) matches Some(e) ==> e == members_of(es, p)[i].at + es[i].value.len()) by {
        lemma_part_is_read(s, sheet, i, d, nums);
    }
    written_objects_are_read(s, p, es, end_of);
    if exists|part: Part| #[trigger] d.lacks_a_field(part) {
        let part = choose|part: Part| #[trigger] d.lacks_a_field(part);
        assert(sheet.names(part));
        let i = choose|i: int|
            0 <= i < es.len() && part_of((#[trigger] es[i]).key) == Some(part) && !sheet.is_null(i);
        lemma_part_is_read(s, sheet, i, d, nums);
        assert(end_of(members_of(es, p)[i]) is None);
    } else {
        assert forall|i: int| 0 <= i < es.len() implies end_of(
            #[trigger] members_of(es, p)[i],
        ) is Some by {
            lemma_part_is_read(s, sheet, i, d, nums);
        }
    }
}

/// Whether a member brings a part.
spec fn brings(s: Seq<u8>, m: Member, part: Part) -> bool {
    part_of(m.key) == Some(part) && !(part == Part::LastTx && s[m.at] == LETTER_N)
}

/// The last value of a part is that of one of its members, where there are any.
proof fn lemma_last_part_of(s: Seq<u8>, ms: Seq<Member>, part: Part) -> (i: int)
    ensures
        match last_part(s, ms, part) {
            Some(at) => 0 <= i < ms.len() && ms[i].at == at && brings(s, ms[i], part),
            None => forall|j: int| 0 <= j < ms.len() ==> !brings(s, #[trigger] ms[j], part),
        },
    decreases ms.len(),
{
    if ms.len() == 0 {
        0
    } else if brings(s, ms.last(), part) {
        ms.len() - 1
    } else {
        let i = lemma_last_part_of(s, ms.drop_last(), part);
        assert(last_part(s, ms, part) == last_part(s, ms.drop_last(), part));
        if last_part(s, ms, part) is None {
            assert forall|j: int| 0 <= j < ms.len() implies !brings(s, #[trigger] ms[j], part) by {
                if j < ms.len() - 1 {
                    assert(ms.drop_last()[j] == ms[j]);
                }
            }
        }
        i
    }
}

/// The last value of a section that the draft has is read as the draft has it,
/// and one that it has not is not found.
proof fn lemma_part_is_found(s: Seq<u8>, sheet: Sheet, part: Part, d: Draft, nums: Numbers)
    requires
        stands(s, 0, sheet.text()),
        sheet.writes(d, nums),
        part != Part::Id,
    ensures
        match last_part(s, sheet.members(), part) {
            Some(at) => d.readings(part) is Some && !(part == Part::LastTx && s[at] == LETTER_N)
                && exists|e: int| reads_part(s, at, e, part, d, nums),
            None => d.readings(part) is None,
        },
{
    let ms = sheet.members();
    let j = lemma_last_part_of(s, ms, part);
    if last_part(s, ms, part) is Some {
        lemma_part_is_read(s, sheet, j, d, nums);
        assert(sheet.has_part(j, d, nums));
        assert(reads_part(s, ms[j].at, ms[j].at + sheet.parts[j].value.len(), part, d, nums));
    } else if d.readings(part) is Some {
        assert(sheet.names(part));
        let i = choose|i: int|
            0 <= i < sheet.parts.len() && part_of((#[trigger] sheet.parts[i]).key) == Some(part)
                && !sheet.is_null(i);
        lemma_part_is_read(s, sheet, i, d, nums);
        assert(brings(s, ms[i], part));
    }
}

/// The members of a written draft make up its request.
proof fn lemma_draft_is_assembled(s: Seq<u8>, sheet: Sheet, d: Draft, nums: Numbers)
    requires
        stands(s, 0, sheet.text()),
        sheet.writes(d, nums),
        forall|part: Part| !#[trigger] d.lacks_a_field(part),
    ensures
        assembled(s, sheet.members(), nums) == d.completed(),
{
    let ms = sheet.members();
    assert(d.transaction is Some ==> d.transaction.unwrap().0 is Some
        && d.transaction.unwrap().1 is Some && d.transaction.unwrap().2 is Some) by {
        lemma_whole(d, Part::Transaction);
    }
    assert(d.customer is Some ==> d.customer.unwrap().0 is Some && d.customer.unwrap().1 is Some
        && d.customer.unwrap().2 is Some) by {
        lemma_whole(d, Part::Customer);
    }
    assert(d.merchant is Some ==> d.merchant.unwrap().0 is Some && d.merchant.unwrap().1 is Some
        && d.merchant.unwrap().2 is Some) by {
        lemma_whole(d, Part::Merchant);
    }
    assert(d.terminal is Some ==> d.terminal.unwrap().0 is Some && d.terminal.unwrap().1 is Some
        && d.terminal.unwrap().2 is Some) by {
        lemma_whole(d, Part::Terminal);
    }
    assert(d.last_tx is Some ==> d.last_tx.unwrap().0 is Some && d.last_tx.unwrap().1 is Some) by {
        lemma_whole(d, Part::LastTx);
    }
    assert(found_transaction(s, ms, nums) == match d.transaction {
        Some((Some(a), Some(i), Some(r))) => Some((a, i, r)),
        _ => None,
    }) by {
        lemma_part_is_found(s, sheet, Part::Transaction, d, nums);
    }
    assert(found_customer(s, ms, nums) == match d.customer {
        Some((Some(a), Some(c), Some(k))) => Some((a, c, k)),
        _ => None,
    }) by {
        lemma_part_is_found(s, sheet, Part::Customer, d, nums);
    }
    assert(found_merchant(s, ms, nums) == match d.merchant {
        Some((Some(i), Some(m), Some(a))) => Some((i, m, a)),
        _ => None,
    }) by {
        lemma_part_is_found(s, sheet, Part::Merchant, d, nums);
    }
    assert(found_terminal(s, ms, nums) == match d.terminal {
        Some((Some(o), Some(c), Some(k))) => Some((o, c, k)),
        _ => None,
    }) by {
        lemma_part_is_found(s, sheet, Part::Terminal, d, nums);
    }
    assert(found_last_tx(s, ms, nums) == match d.last_tx {
        Some((Some(t), Some(k))) => Some((t, k)),
        _ => None,
    }) by {
        lemma_part_is_found(s, sheet, Part::LastTx, d, nums);
    }
}

/// A section that lacks no field has all of them.
proof fn lemma_whole(d: Draft, part: Part)
    requires
        !d.lacks_a_field(part),
    ensures
        d.readings(part) matches Some(vs) ==> vs[0] is Some && vs[1] is Some && (vs.len() > 2
            ==> vs[2] is Some),
{
    if d.readings(part) is Some {
        lemma_lacks(d, part);
    }
}

/// What is written of a request is read: in whatever order its parts and fields
/// stand, whatever white space and members of other names stand in between, and
/// whatever follows. Where a section or a field is missing that a request must
/// have, there is no request.
pub proof fn written_drafts_are_read(s: Seq<u8>, sheet: Sheet, d: Draft, nums: Numbers)
    requires
        stands(s, 0, sheet.text()),
        sheet.writes(d, nums),
    ensures
        request_in(s, nums) == d.completed(),
{
    lemma_parts_stand(s, sheet, d, nums);
    lemma_parts_are_read(s, sheet, d, nums);
    if exists|part: Part| #[trigger] d.lacks_a_field(part) {
        incomplete_drafts_are_no_requests(d);
    } else {
        lemma_draft_is_assembled(s, sheet, d, nums);
    }
}

/// A draft that lacks a section that a request must have, or a field of a
/// section, is completed to no request; every other draft is.
pub proof fn incomplete_drafts_are_no_requests(d: Draft)
    ensures
        d.completed() is None <==> d.lacks_a_section() || exists|part: Part| #[trigger]
            d.lacks_a_field(part),
{
    if exists|part: Part| #[trigger] d.lacks_a_field(part) {
        let part = choose|part: Part| #[trigger] d.lacks_a_field(part);
        lemma_lacks(d, part);
    } else {
        lemma_whole(d, Part::Transaction);
        lemma_whole(d, Part::Customer);
        lemma_whole(d, Part::Merchant);
        lemma_whole(d, Part::Terminal);
        lemma_whole(d, Part::LastTx);
    }
}

/// A text that lacks a section that a request must have, or a field of a
/// section, is read as no request, however the rest of it is written.
pub proof fn incomplete_requests_are_refused(s: Seq<u8>, sheet: Sheet, d: Draft, nums: Numbers)
    requires
        stands(s, 0, sheet.text()),
        sheet.writes(d, nums),
        d.lacks_a_section() || exists|part: Part| #[trigger] d.lacks_a_field(part),
    ensures
        request_in(s, nums) is None,
{
    written_drafts_are_read(s, sheet, d, nums);
    incomplete_drafts_are_no_requests(d);
}

/// A request that is written in full is read.
pub proof fn written_requests_are_read(s: Seq<u8>, sheet: Sheet, r: Request, nums: Numbers)
    requires
        stands(s, 0, sheet.text()),
        sheet.writes(draft_of(r), nums),
        r.last_timestamp is Some <==> r.last_km is Some,
    ensures
        request_in(s, nums) == Some(r),
{
    written_drafts_are_read(s, sheet, draft_of(r), nums);
}

/// Two texts that write the same are read the same, whether there is a request
/// in them or not: the order of parts and fields, white space and members of
/// other names do not matter. A number is told by its value, wherever it stands.
pub proof fn rewritten_requests_are_read_the_same(
    a: Seq<u8>,
    sheet_a: Sheet,
    nums_a: Numbers,
    b: Seq<u8>,
    sheet_b: Sheet,
    nums_b: Numbers,
    d: Draft,
)
    requires
        stands(a, 0, sheet_a.text()),
        sheet_a.writes(d, nums_a),
        stands(b, 0, sheet_b.text()),
        sheet_b.writes(d, nums_b),
    ensures
        request_in(a, nums_a) == request_in(b, nums_b),
{
    written_drafts_are_read(a, sheet_a, d, nums_a);
    written_drafts_are_read(b, sheet_b, d, nums_b);
}

} // verus!
