//! How objects are written, and that what is written is read.
use vstd::prelude::*;

use crate::input::json::{
    key_at, member_at, members, quote_at, ws_end, Member, BLANK, CLOSE_OBJECT, COMMA, QUOTE,
};

verus! {

/// `:`
pub const COLON: u8 = 0x3a;

/// White space.
pub open spec fn blank(w: Seq<u8>) -> bool {
    forall|i: int| 0 <= i < w.len() ==> #[trigger] w[i] <= BLANK
}

/// A text without quotes.
pub open spec fn unquoted(w: Seq<u8>) -> bool {
    forall|i: int| 0 <= i < w.len() ==> #[trigger] w[i] != QUOTE
}

/// Whether `w` stands in `s` at `p`.
pub open spec fn stands(s: Seq<u8>, p: int, w: Seq<u8>) -> bool {
    0 <= p && p + w.len() <= s.len() && s.subrange(p, p + w.len()) == w
}

/// A member of an object as it is written. White space may stand before its
/// key, on both sides of the colon, and behind its value.
pub struct Entry {
    pub before: Seq<u8>,
    pub key: Seq<u8>,
    pub gap: Seq<u8>,
    pub space: Seq<u8>,
    pub value: Seq<u8>,
    pub after: Seq<u8>,
}

impl Entry {
    /// Whether there is white space and no more where white space may stand,
    /// the key holds no quote, and there is a value.
    pub open spec fn tidy(self) -> bool {
        &&& blank(self.before)
        &&& unquoted(self.key)
        &&& blank(self.gap)
        &&& blank(self.space)
        &&& self.value.len() > 0
        &&& self.value[0] > BLANK
        &&& blank(self.after)
    }

    /// What is written before the value.
    pub open spec fn head(self) -> Seq<u8> {
        self.before + (seq![QUOTE] + (self.key + (seq![QUOTE] + (self.gap + (seq![COLON]
            + self.space)))))
    }

    /// The whole entry.
    pub open spec fn text(self) -> Seq<u8> {
        self.head() + (self.value + self.after)
    }
}

/// What an object holds behind its opening brace: the entries with commas in
/// between, and the closing brace.
pub open spec fn written(es: Seq<Entry>) -> Seq<u8>
    decreases es.len(),
{
    if es.len() == 0 {
        seq![CLOSE_OBJECT]
    } else {
        es[0].text() + (comma(es.len()) + written(es.skip(1)))
    }
}

/// The comma behind an entry that is not the last.
pub open spec fn comma(len: nat) -> Seq<u8> {
    if len > 1 {
        seq![COMMA]
    } else {
        seq![]
    }
}

/// Where the value of entry `i` starts in what `written` gives.
pub open spec fn offset(es: Seq<Entry>, i: int) -> int
    decreases es.len(),
{
    if i <= 0 || es.len() == 0 {
        es[0].head().len() as int
    } else {
        es[0].text().len() + comma(es.len()).len() + offset(es.skip(1), i - 1)
    }
}

/// The members that entries written at `p` are read as.
pub open spec fn members_of(es: Seq<Entry>, p: int) -> Seq<Member> {
    Seq::new(es.len(), |i: int| Member { key: es[i].key, at: p + offset(es, i) })
}

pub proof fn lemma_stands_parts(s: Seq<u8>, p: int, a: Seq<u8>, b: Seq<u8>)
    requires
        stands(s, p, a + b),
    ensures
        stands(s, p, a),
        stands(s, p + a.len(), b),
{
    let w = a + b;
    assert(s.subrange(p, p + a.len()) =~= a) by {
        assert forall|i: int| 0 <= i < a.len() implies s.subrange(p, p + a.len())[i] == a[i] by {
            assert(s.subrange(p, p + w.len())[i] == w[i]);
        }
    }
    assert(s.subrange(p + a.len(), p + a.len() + b.len()) =~= b) by {
        assert forall|i: int| 0 <= i < b.len() implies s.subrange(
            p + a.len(),
            p + a.len() + b.len(),
        )[i] == b[i] by {
            assert(s.subrange(p, p + w.len())[a.len() + i] == w[a.len() + i]);
        }
    }
}

pub proof fn lemma_stands_at(s: Seq<u8>, p: int, w: Seq<u8>, i: int)
    requires
        stands(s, p, w),
        0 <= i < w.len(),
    ensures
        s[p + i] == w[i],
{
    assert(s.subrange(p, p + w.len())[i] == w[i]);
}

/// White space is passed over up to the first other byte.
proof fn lemma_blank_is_passed(s: Seq<u8>, p: int, e: int)
    requires
        0 <= p <= e < s.len(),
        forall|i: int| p <= i < e ==> #[trigger] s[i] <= BLANK,
        s[e] > BLANK,
    ensures
        ws_end(s, p) == e,
    decreases e - p,
{
    if p < e {
        lemma_blank_is_passed(s, p + 1, e);
    }
}

pub proof fn lemma_blank_stands(s: Seq<u8>, p: int, w: Seq<u8>)
    requires
        stands(s, p, w),
        blank(w),
        p + w.len() < s.len(),
        s[p + w.len()] > BLANK,
    ensures
        ws_end(s, p) == p + w.len(),
{
    assert forall|i: int| p <= i < p + w.len() implies #[trigger] s[i] <= BLANK by {
        lemma_stands_at(s, p, w, i - p);
        assert(w[i - p] <= BLANK);
    }
    lemma_blank_is_passed(s, p, p + w.len());
}

/// A quote is found behind a text without quotes.
proof fn lemma_quote_is_found(s: Seq<u8>, p: int, e: int)
    requires
        0 <= p <= e < s.len(),
        forall|i: int| p <= i < e ==> #[trigger] s[i] != QUOTE,
        s[e] == QUOTE,
    ensures
        quote_at(s, p) == Some(e),
    decreases e - p,
{
    if p < e {
        lemma_quote_is_found(s, p + 1, e);
    }
}

/// The head of an entry is read as its key and where its value starts.
proof fn lemma_head_is_read(s: Seq<u8>, p: int, e: Entry)
    requires
        e.tidy(),
        stands(s, p, e.head() + e.value),
    ensures
        ({
            let k = ws_end(s, p);
            &&& p <= k < p + e.head().len() <= s.len()
            &&& s[k] == QUOTE
            &&& member_at(s, k) == Some(Member { key: e.key, at: p + e.head().len() })
        }),
{
    let h5 = seq![COLON] + e.space;
    let h4 = e.gap + h5;
    let h3 = seq![QUOTE] + h4;
    let h2 = e.key + h3;
    let h1 = seq![QUOTE] + h2;
    lemma_stands_parts(s, p, e.head(), e.value);
    lemma_stands_parts(s, p, e.before, h1);
    let k = p + e.before.len();
    lemma_stands_parts(s, k, seq![QUOTE], h2);
    lemma_stands_at(s, k, seq![QUOTE], 0);
    lemma_stands_parts(s, k + 1, e.key, h3);
    let q = k + 1 + e.key.len();
    lemma_stands_parts(s, q, seq![QUOTE], h4);
    lemma_stands_at(s, q, seq![QUOTE], 0);
    lemma_stands_parts(s, q + 1, e.gap, h5);
    let c = q + 1 + e.gap.len();
    lemma_stands_parts(s, c, seq![COLON], e.space);
    lemma_stands_at(s, c, seq![COLON], 0);
    let at = c + 1 + e.space.len();
    assert(at == p + e.head().len());
    lemma_stands_at(s, at, e.value, 0);
    lemma_blank_stands(s, p, e.before);
    assert forall|i: int| k + 1 <= i < q implies #[trigger] s[i] != QUOTE by {
        lemma_stands_at(s, k + 1, e.key, i - (k + 1));
        assert(e.key[i - (k + 1)] != QUOTE);
    }
    lemma_quote_is_found(s, k + 1, q);
    assert(key_at(s, k) == Some((e.key, q + 1)));
    lemma_blank_stands(s, q + 1, e.gap);
    lemma_blank_stands(s, c + 1, e.space);
}

/// Where each value starts, one entry further on.
pub proof fn lemma_members_of_rest(es: Seq<Entry>, p: int)
    requires
        es.len() > 0,
    ensures
        members_of(es, p) == seq![Member { key: es[0].key, at: p + es[0].head().len() }]
            + members_of(es.skip(1), p + es[0].text().len() + comma(es.len()).len()),
{
    let here = members_of(es, p);
    let there = members_of(es.skip(1), p + es[0].text().len() + comma(es.len()).len());
    assert forall|i: int| 0 < i < es.len() implies here[i] == there[i - 1] by {
        assert(es.skip(1)[i - 1] == es[i]);
    }
    assert(here =~= seq![Member { key: es[0].key, at: p + es[0].head().len() }] + there);
}

/// Whether every value of entries written at `p` ends somewhere.
pub open spec fn all_end(
    es: Seq<Entry>,
    p: int,
    end_of: spec_fn(Member) -> Option<int>,
) -> bool {
    forall|i: int| 0 <= i < es.len() ==> end_of(#[trigger] members_of(es, p)[i]) is Some
}

/// An object that is written is read as its members, whatever white space
/// stands in between, where each value ends where it was written to end. Where
/// one ends nowhere, nothing is read.
pub proof fn written_objects_are_read(
    s: Seq<u8>,
    p: int,
    es: Seq<Entry>,
    end_of: spec_fn(Member) -> Option<int>,
)
    requires
        stands(s, p, written(es)),
        forall|i: int| 0 <= i < es.len() ==> (#[trigger] es[i]).tidy(),
        forall|i: int|
            0 <= i < es.len() ==> (end_of(#[trigger] members_of(es, p)[i]) matches Some(e) ==> e
                == members_of(es, p)[i].at + es[i].value.len()),
    ensures
        members(s, p, end_of) == if all_end(es, p, end_of) {
            Some((members_of(es, p), p + written(es).len()))
        } else {
            None
        },
    decreases es.len(),
{
    if es.len() == 0 {
        lemma_stands_at(s, p, written(es), 0);
        assert(members_of(es, p) =~= Seq::empty());
    } else {
        let e = es[0];
        let rest = es.skip(1);
        let tail = comma(es.len()) + written(rest);
        lemma_stands_parts(s, p, e.text(), tail);
        assert(e.text() =~= (e.head() + e.value) + e.after);
        lemma_stands_parts(s, p, e.head() + e.value, e.after);
        lemma_head_is_read(s, p, e);
        let m = Member { key: e.key, at: p + e.head().len() };
        assert(members_of(es, p)[0] == m);
        let v = m.at + e.value.len();
        let z = v + e.after.len();
        lemma_stands_parts(s, z, comma(es.len()), written(rest));
        let n = z + comma(es.len()).len();
        lemma_rest_ends(es, p, end_of);
        written_objects_are_read(s, n, rest, end_of);
        if es.len() > 1 {
            lemma_stands_at(s, z, comma(es.len()), 0);
            lemma_blank_stands(s, v, e.after);
            assert(members(s, v, end_of) == members(s, n, end_of));
        } else {
            assert(rest.len() == 0);
            lemma_stands_at(s, z, written(rest), 0);
            lemma_blank_stands(s, v, e.after);
            assert(members_of(rest, n) =~= Seq::empty());
            assert(members(s, v, end_of) == Some((members_of(rest, n), z + 1)));
        }
        lemma_members_of_rest(es, p);
        if end_of(m) is Some {
            assert(members(s, p, end_of) == match members(s, v, end_of) {
                Some((ms, close)) => Some((seq![m] + ms, close)),
                None => None,
            });
        } else {
            assert(members(s, p, end_of) is None);
        }
    }
}

/// What holds of the values of entries holds of those behind the first.
proof fn lemma_rest_ends(es: Seq<Entry>, p: int, end_of: spec_fn(Member) -> Option<int>)
    requires
        es.len() > 0,
        forall|i: int| 0 <= i < es.len() ==> (#[trigger] es[i]).tidy(),
        forall|i: int|
            0 <= i < es.len() ==> (end_of(#[trigger] members_of(es, p)[i]) matches Some(e) ==> e
                == members_of(es, p)[i].at + es[i].value.len()),
    ensures
        ({
            let rest = es.skip(1);
            let n = p + es[0].text().len() + comma(es.len()).len();
            &&& forall|i: int| 0 <= i < rest.len() ==> (#[trigger] rest[i]).tidy()
            &&& forall|i: int|
                0 <= i < rest.len() ==> (end_of(#[trigger] members_of(rest, n)[i]) matches Some(e)
                    ==> e == members_of(rest, n)[i].at + rest[i].value.len())
            &&& all_end(es, p, end_of) <==> end_of(members_of(es, p)[0]) is Some && all_end(
                rest,
                n,
                end_of,
            )
        }),
{
    let rest = es.skip(1);
    let n = p + es[0].text().len() + comma(es.len()).len();
    lemma_members_of_rest(es, p);
    assert forall|i: int| 0 <= i < rest.len() implies (#[trigger] rest[i]).tidy() by {
        assert(rest[i] == es[i + 1]);
    }
    assert forall|i: int| 0 <= i < rest.len() implies (end_of(
        #[trigger] members_of(rest, n)[i],
    ) matches Some(e) ==> e == members_of(rest, n)[i].at + rest[i].value.len()) by {
        assert(members_of(es, p)[i + 1] == members_of(rest, n)[i]);
        assert(rest[i] == es[i + 1]);
    }
    if all_end(es, p, end_of) {
        assert forall|i: int| 0 <= i < rest.len() implies end_of(
            #[trigger] members_of(rest, n)[i],
        ) is Some by {
            assert(members_of(es, p)[i + 1] == members_of(rest, n)[i]);
        }
    }
    if end_of(members_of(es, p)[0]) is Some && all_end(rest, n, end_of) {
        assert forall|i: int| 0 <= i < es.len() implies end_of(
            #[trigger] members_of(es, p)[i],
        ) is Some by {
            if i > 0 {
                assert(members_of(es, p)[i] == members_of(rest, n)[i - 1]);
            }
        }
    }
}

} // verus!
