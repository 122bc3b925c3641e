//! Bytes behind a request change nothing of it.
use vstd::prelude::*;

use crate::input::json::{
    digits_end, ends_plain, left, lemma_ws_end, member_at, members, nest_end, plain_end, quote_at,
    text_close, value_end, ws_end, Member, BLANK, CLOSE_ARRAY, CLOSE_OBJECT, COMMA, ESCAPE,
    LETTER_N, NINE, OPEN_ARRAY, OPEN_OBJECT, QUOTE, ZERO,
};
use crate::input::payload::{
    assembled, found_customer, found_last_tx, found_merchant, found_terminal, found_transaction,
    last_part, part_end, part_of, parts, request_in, Part,
};
use crate::input::section::{
    field_end, field_value, fields, known_as, read_at, section_at, shape_of, Numbers, Section,
    Shape,
};

verus! {

proof fn lemma_ws_tail(s: Seq<u8>, t: Seq<u8>, p: int)
    requires
        0 <= p,
        ws_end(s, p) < s.len(),
    ensures
        ws_end(s + t, p) == ws_end(s, p),
    decreases left(s, p),
{
    lemma_ws_end(s, p);
    if s[p] <= BLANK {
        lemma_ws_tail(s, t, p + 1);
    }
}

proof fn lemma_quote_tail(s: Seq<u8>, t: Seq<u8>, p: int)
    requires
        0 <= p,
    ensures
        quote_at(s, p) matches Some(q) ==> quote_at(s + t, p) == Some(q) && p <= q < s.len(),
    decreases left(s, p),
{
    if p < s.len() && s[p] != QUOTE {
        lemma_quote_tail(s, t, p + 1);
    }
}

proof fn lemma_close_tail(s: Seq<u8>, t: Seq<u8>, p: int)
    requires
        0 <= p,
    ensures
        text_close(s, p) matches Some(q) ==> text_close(s + t, p) == Some(q) && p <= q < s.len(),
    decreases left(s, p),
{
    if p < s.len() && s[p] != QUOTE {
        if s[p] == ESCAPE {
            lemma_close_tail(s, t, p + 2);
        } else {
            lemma_close_tail(s, t, p + 1);
        }
    }
}

proof fn lemma_nest_tail(s: Seq<u8>, t: Seq<u8>, p: int, open: u8, close: u8, depth: int)
    requires
        0 <= p,
    ensures
        nest_end(s, p, open, close, depth) matches Some(e) ==> p <= e && (e < s.len() ==> nest_end(
            s + t,
            p,
            open,
            close,
            depth,
        ) == Some(e)),
    decreases left(s, p),
{
    if p < s.len() {
        if s[p] == open {
            lemma_nest_tail(s, t, p + 1, open, close, depth + 1);
        } else if s[p] == close {
            if depth != 1 {
                lemma_nest_tail(s, t, p + 1, open, close, depth - 1);
            }
        } else if s[p] == QUOTE {
            lemma_close_tail(s, t, p + 1);
            match text_close(s, p + 1) {
                Some(q) => {
                    lemma_nest_tail(s, t, q + 1, open, close, depth);
                },
                None => {},
            }
        } else {
            lemma_nest_tail(s, t, p + 1, open, close, depth);
        }
    }
}

proof fn lemma_plain_tail(s: Seq<u8>, t: Seq<u8>, p: int)
    requires
        0 <= p,
    ensures
        p <= plain_end(s, p),
        plain_end(s, p) < s.len() ==> plain_end(s + t, p) == plain_end(s, p),
    decreases left(s, p),
{
    if p < s.len() && !ends_plain(s[p]) {
        lemma_plain_tail(s, t, p + 1);
    }
}

proof fn lemma_digits_tail(s: Seq<u8>, t: Seq<u8>, p: int)
    requires
        0 <= p,
    ensures
        p <= digits_end(s, p),
        digits_end(s, p) < s.len() ==> digits_end(s + t, p) == digits_end(s, p),
    decreases left(s, p),
{
    if p < s.len() && ZERO <= s[p] <= NINE {
        lemma_digits_tail(s, t, p + 1);
    }
}

/// A value that ends before the text does ends there however the text goes on.
proof fn lemma_value_tail(s: Seq<u8>, t: Seq<u8>, p: int)
    requires
        0 <= p,
    ensures
        value_end(s, p) matches Some(e) ==> p <= e && (e < s.len() ==> value_end(s + t, p) == Some(
            e,
        )),
{
    if p < s.len() {
        lemma_close_tail(s, t, p + 1);
        lemma_nest_tail(s, t, p, OPEN_OBJECT, CLOSE_OBJECT, 0);
        lemma_nest_tail(s, t, p, OPEN_ARRAY, CLOSE_ARRAY, 0);
        lemma_plain_tail(s, t, p);
    }
}

/// A field that ends before the text does reads the same however the text goes
/// on.
proof fn lemma_read_tail(s: Seq<u8>, t: Seq<u8>, p: int, shape: Shape, nums: Numbers)
    requires
        0 <= p,
    ensures
        read_at(s, p, shape, nums) matches Some((v, e)) ==> p <= e && (e < s.len() ==> read_at(
            s + t,
            p,
            shape,
            nums,
        ) == Some((v, e))),
{
    match shape {
        Shape::Number => {},
        Shape::Count => {
            lemma_digits_tail(s, t, p);
            let e = digits_end(s, p);
            if e < s.len() {
                assert((s + t).subrange(p, e) =~= s.subrange(p, e));
            }
        },
        Shape::Text => {
            lemma_close_tail(s, t, p + 1);
            match text_close(s, p + 1) {
                Some(q) => {
                    assert((s + t).subrange(p + 1, q) =~= s.subrange(p + 1, q));
                },
                None => {},
            }
        },
        Shape::List => {
            lemma_nest_tail(s, t, p, OPEN_ARRAY, CLOSE_ARRAY, 0);
            match nest_end(s, p, OPEN_ARRAY, CLOSE_ARRAY, 0) {
                Some(e) => {
                    if e < s.len() {
                        assert((s + t).subrange(p, e) =~= s.subrange(p, e));
                    }
                },
                None => {},
            }
        },
        Shape::Flag => {},
    }
}

/// The same for a member of an object.
proof fn lemma_member_tail(s: Seq<u8>, t: Seq<u8>, p: int)
    requires
        0 <= p < s.len(),
    ensures
        member_at(s, p) matches Some(m) ==> p < m.at && (m.at < s.len() ==> member_at(s + t, p)
            == Some(m)),
{
    lemma_quote_tail(s, t, p + 1);
    match quote_at(s, p + 1) {
        Some(q) => {
            assert((s + t).subrange(p + 1, q) =~= s.subrange(p + 1, q));
            lemma_ws_end(s, q + 1);
            let colon = ws_end(s, q + 1);
            if colon < s.len() {
                lemma_ws_tail(s, t, q + 1);
                lemma_ws_end(s, colon + 1);
                if ws_end(s, colon + 1) < s.len() {
                    lemma_ws_tail(s, t, colon + 1);
                }
            }
        },
        None => {},
    }
}

/// Whether values that end before the text does end there however it goes on,
/// and none ends before it starts.
spec fn settled(
    len: nat,
    end_of: spec_fn(Member) -> Option<int>,
    end_on: spec_fn(Member) -> Option<int>,
) -> bool {
    forall|m: Member|
        0 <= m.at ==> (#[trigger] end_of(m) matches Some(e) ==> m.at <= e && (e < len ==> end_on(m)
            == Some(e)))
}

/// Whether the value of a member ends before the text does.
spec fn inside(len: nat, m: Member, end_of: spec_fn(Member) -> Option<int>) -> bool {
    &&& 0 <= m.at
    &&& end_of(m) matches Some(e) && m.at <= e < len
}

/// An object that is closed has the same members however the text goes on, and
/// all of them lie inside.
proof fn lemma_members_tail(
    s: Seq<u8>,
    t: Seq<u8>,
    p: int,
    end_of: spec_fn(Member) -> Option<int>,
    end_on: spec_fn(Member) -> Option<int>,
)
    requires
        0 <= p,
        settled(s.len(), end_of, end_on),
    ensures
        members(s, p, end_of) matches Some((ms, e)) ==> {
            &&& members(s + t, p, end_on) == Some((ms, e))
            &&& p < e <= s.len()
            &&& forall|i: int| 0 <= i < ms.len() ==> inside(s.len(), #[trigger] ms[i], end_of)
        },
    decreases left(s, p),
{
    lemma_ws_end(s, p);
    let k = ws_end(s, p);
    if k < s.len() {
        lemma_ws_tail(s, t, p);
        if s[k] == CLOSE_OBJECT {
        } else if s[k] == COMMA {
            lemma_members_tail(s, t, k + 1, end_of, end_on);
        } else {
            lemma_member_tail(s, t, k);
            match member_at(s, k) {
                Some(m) => match end_of(m) {
                    Some(e) => {
                        if k < e {
                            lemma_members_tail(s, t, e, end_of, end_on);
                            match members(s, e, end_of) {
                                Some((rest, close)) => {
                                    assert(inside(s.len(), m, end_of));
                                    let all = seq![m] + rest;
                                    assert forall|i: int| 0 <= i < all.len() implies inside(
                                        s.len(),
                                        #[trigger] all[i],
                                        end_of,
                                    ) by {
                                        if i > 0 {
                                            assert(all[i] == rest[i - 1]);
                                        }
                                    }
                                },
                                None => {},
                            }
                        }
                    },
                    None => {},
                },
                None => {},
            }
        }
    }
}

proof fn lemma_field_value_tail(
    s: Seq<u8>,
    t: Seq<u8>,
    section: Section,
    ms: Seq<Member>,
    field: int,
    nums: Numbers,
)
    requires
        forall|i: int|
            0 <= i < ms.len() ==> inside(
                s.len(),
                #[trigger] ms[i],
                |m: Member| field_end(s, section, m, nums),
            ),
    ensures
        field_value(s + t, section, ms, field, nums) == field_value(s, section, ms, field, nums),
    decreases ms.len(),
{
    if ms.len() > 0 {
        let m = ms.last();
        assert(m == ms[ms.len() - 1]);
        if known_as(section, m.key) == Some(field) {
            lemma_read_tail(s, t, m.at, shape_of(section, field), nums);
        } else {
            assert forall|i: int| 0 <= i < ms.drop_last().len() implies inside(
                s.len(),
                #[trigger] ms.drop_last()[i],
                |m: Member| field_end(s, section, m, nums),
            ) by {
                assert(ms.drop_last()[i] == ms[i]);
            }
            lemma_field_value_tail(s, t, section, ms.drop_last(), field, nums);
        }
    }
}

/// A section that is closed reads the same however the text goes on.
proof fn lemma_section_tail(s: Seq<u8>, t: Seq<u8>, p: int, section: Section, nums: Numbers)
    requires
        0 <= p,
    ensures
        section_at(s, p, section, nums) matches Some(r) ==> p <= r.3 && section_at(
            s + t,
            p,
            section,
            nums,
        ) == Some(r),
{
    let end_of = |m: Member| field_end(s, section, m, nums);
    let end_on = |m: Member| field_end(s + t, section, m, nums);
    assert(settled(s.len(), end_of, end_on)) by {
        assert forall|m: Member| 0 <= m.at implies (#[trigger] end_of(m) matches Some(e) ==> m.at
            <= e && (e < s.len() ==> end_on(m) == Some(e))) by {
            match known_as(section, m.key) {
                Some(i) => {
                    lemma_read_tail(s, t, m.at, shape_of(section, i), nums);
                },
                None => {
                    lemma_value_tail(s, t, m.at);
                },
            }
        }
    }
    lemma_members_tail(s, t, p + 1, end_of, end_on);
    match fields(s, p, section, nums) {
        Some((ms, e)) => {
            lemma_field_value_tail(s, t, section, ms, 0, nums);
            lemma_field_value_tail(s, t, section, ms, 1, nums);
            lemma_field_value_tail(s, t, section, ms, 2, nums);
        },
        None => {},
    }
}

/// The value of a part that ends before the text does ends there however the
/// text goes on.
proof fn lemma_part_tail(s: Seq<u8>, t: Seq<u8>, m: Member, nums: Numbers)
    requires
        0 <= m.at,
    ensures
        part_end(s, m, nums) matches Some(e) ==> m.at <= e && (e < s.len() ==> part_end(
            s + t,
            m,
            nums,
        ) == Some(e)),
{
    match part_of(m.key) {
        Some(Part::Id) => {
            lemma_close_tail(s, t, m.at + 1);
        },
        Some(Part::Transaction) => {
            lemma_section_tail(s, t, m.at, Section::Transaction, nums);
        },
        Some(Part::Customer) => {
            lemma_section_tail(s, t, m.at, Section::Customer, nums);
        },
        Some(Part::Merchant) => {
            lemma_section_tail(s, t, m.at, Section::Merchant, nums);
        },
        Some(Part::Terminal) => {
            lemma_section_tail(s, t, m.at, Section::Terminal, nums);
        },
        Some(Part::LastTx) => {
            lemma_section_tail(s, t, m.at, Section::LastTx, nums);
        },
        None => {
            lemma_value_tail(s, t, m.at);
        },
    }
}

/// The last value of a part is the same however the text goes on, and is one
/// that could be read.
proof fn lemma_last_part_tail(s: Seq<u8>, t: Seq<u8>, ms: Seq<Member>, part: Part, nums: Numbers)
    requires
        forall|i: int|
            0 <= i < ms.len() ==> inside(
                s.len(),
                #[trigger] ms[i],
                |m: Member| part_end(s, m, nums),
            ),
    ensures
        last_part(s + t, ms, part) == last_part(s, ms, part),
        last_part(s, ms, part) matches Some(at) ==> exists|m: Member|
            m.at == at && part_of(m.key) == Some(part) && #[trigger] part_end(s, m, nums) is Some
                && 0 <= at < s.len() && !(part == Part::LastTx && s[at] == LETTER_N),
    decreases ms.len(),
{
    if ms.len() > 0 {
        let m = ms.last();
        assert(m == ms[ms.len() - 1]);
        assert(inside(s.len(), m, |m: Member| part_end(s, m, nums)));
        assert forall|i: int| 0 <= i < ms.drop_last().len() implies inside(
            s.len(),
            #[trigger] ms.drop_last()[i],
            |m: Member| part_end(s, m, nums),
        ) by {
            assert(ms.drop_last()[i] == ms[i]);
        }
        lemma_last_part_tail(s, t, ms.drop_last(), part, nums);
        assert(part_end(s, m, nums) is Some);
    }
}

proof fn lemma_found_tail(s: Seq<u8>, t: Seq<u8>, ms: Seq<Member>, nums: Numbers)
    requires
        forall|i: int|
            0 <= i < ms.len() ==> inside(
                s.len(),
                #[trigger] ms[i],
                |m: Member| part_end(s, m, nums),
            ),
    ensures
        assembled(s + t, ms, nums) == assembled(s, ms, nums),
{
    assert(found_transaction(s + t, ms, nums) == found_transaction(s, ms, nums)) by {
        lemma_last_part_tail(s, t, ms, Part::Transaction, nums);
        match last_part(s, ms, Part::Transaction) {
            Some(at) => {
                lemma_section_tail(s, t, at, Section::Transaction, nums);
            },
            None => {},
        }
    }
    assert(found_customer(s + t, ms, nums) == found_customer(s, ms, nums)) by {
        lemma_last_part_tail(s, t, ms, Part::Customer, nums);
        match last_part(s, ms, Part::Customer) {
            Some(at) => {
                lemma_section_tail(s, t, at, Section::Customer, nums);
            },
            None => {},
        }
    }
    assert(found_merchant(s + t, ms, nums) == found_merchant(s, ms, nums)) by {
        lemma_last_part_tail(s, t, ms, Part::Merchant, nums);
        match last_part(s, ms, Part::Merchant) {
            Some(at) => {
                lemma_section_tail(s, t, at, Section::Merchant, nums);
            },
            None => {},
        }
    }
    assert(found_terminal(s + t, ms, nums) == found_terminal(s, ms, nums)) by {
        lemma_last_part_tail(s, t, ms, Part::Terminal, nums);
        match last_part(s, ms, Part::Terminal) {
            Some(at) => {
                lemma_section_tail(s, t, at, Section::Terminal, nums);
            },
            None => {},
        }
    }
    assert(found_last_tx(s + t, ms, nums) == found_last_tx(s, ms, nums)) by {
        lemma_last_part_tail(s, t, ms, Part::LastTx, nums);
        match last_part(s, ms, Part::LastTx) {
            Some(at) => {
                lemma_section_tail(s, t, at, Section::LastTx, nums);
            },
            None => {},
        }
    }
}

/// A body that holds a request holds the same request with anything behind it,
/// as long as the numbers are read the same.
pub proof fn bytes_behind_a_request_do_not_matter(s: Seq<u8>, t: Seq<u8>, nums: Numbers)
    requires
        request_in(s, nums) is Some,
    ensures
        request_in(s + t, nums) == request_in(s, nums),
{
    lemma_ws_end(s, 0);
    lemma_ws_tail(s, t, 0);
    let p = ws_end(s, 0);
    let end_of = |m: Member| part_end(s, m, nums);
    let end_on = |m: Member| part_end(s + t, m, nums);
    assert(settled(s.len(), end_of, end_on)) by {
        assert forall|m: Member| 0 <= m.at implies (#[trigger] end_of(m) matches Some(e) ==> m.at
            <= e && (e < s.len() ==> end_on(m) == Some(e))) by {
            lemma_part_tail(s, t, m, nums);
        }
    }
    lemma_members_tail(s, t, p + 1, end_of, end_on);
    match parts(s, p + 1, nums) {
        Some((ms, _)) => {
            lemma_found_tail(s, t, ms, nums);
        },
        None => {},
    }
}

} // verus!
