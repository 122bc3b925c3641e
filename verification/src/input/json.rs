//! Where the parts of a JSON text lie.
//!
//! A scanner that trusts its input: it finds ends by the bytes that close
//! things and checks no more grammar than that. A text that ends too early is
//! refused.
use vstd::prelude::*;
use vstd::slice::slice_subrange;

use crate::bytes::{begins_with, starts_with};

verus! {

/// `"`
pub const QUOTE: u8 = 0x22;

/// `\`
pub const ESCAPE: u8 = 0x5c;

/// `,`
pub const COMMA: u8 = 0x2c;

/// `{`
pub const OPEN_OBJECT: u8 = 0x7b;

/// `}`
pub const CLOSE_OBJECT: u8 = 0x7d;

/// `[`
pub const OPEN_ARRAY: u8 = 0x5b;

/// `]`
pub const CLOSE_ARRAY: u8 = 0x5d;

/// The byte that ends white space: everything up to a blank is white.
pub const BLANK: u8 = 0x20;

/// `0`
pub const ZERO: u8 = 0x30;

/// `9`
pub const NINE: u8 = 0x39;

/// `t`
pub const LETTER_T: u8 = 0x74;

/// `f`
pub const LETTER_F: u8 = 0x66;

/// `n`
pub const LETTER_N: u8 = 0x6e;

/// Bytes from `p` on.
pub open spec fn left(s: Seq<u8>, p: int) -> int {
    if p < s.len() {
        s.len() - p
    } else {
        0
    }
}

/// The first position from `p` on that is past white space.
pub open spec fn ws_end(s: Seq<u8>, p: int) -> int
    decreases left(s, p),
{
    if 0 <= p < s.len() && s[p] <= BLANK {
        ws_end(s, p + 1)
    } else {
        p
    }
}

/// The first position from `p` on that holds a quote.
pub open spec fn quote_at(s: Seq<u8>, p: int) -> Option<int>
    decreases left(s, p),
{
    if !(0 <= p < s.len()) {
        None
    } else if s[p] == QUOTE {
        Some(p)
    } else {
        quote_at(s, p + 1)
    }
}

/// The quote that closes a text whose inside continues at `p`: an escape
/// takes the byte behind it along.
pub open spec fn text_close(s: Seq<u8>, p: int) -> Option<int>
    decreases left(s, p),
{
    if !(0 <= p < s.len()) {
        None
    } else if s[p] == QUOTE {
        Some(p)
    } else if s[p] == ESCAPE {
        text_close(s, p + 2)
    } else {
        text_close(s, p + 1)
    }
}

/// Behind the bracket that brings the depth back to zero; texts in between
/// are passed over whole. Where there is none, the end of `s`.
pub open spec fn nest_end(s: Seq<u8>, p: int, open: u8, close: u8, depth: int) -> Option<int>
    decreases left(s, p),
{
    if !(0 <= p < s.len()) {
        Some(p)
    } else if s[p] == open {
        nest_end(s, p + 1, open, close, depth + 1)
    } else if s[p] == close {
        if depth == 1 {
            Some(p + 1)
        } else {
            nest_end(s, p + 1, open, close, depth - 1)
        }
    } else if s[p] == QUOTE {
        match text_close(s, p + 1) {
            Some(q) => if p < q {
                nest_end(s, q + 1, open, close, depth)
            } else {
                None
            },
            None => None,
        }
    } else {
        nest_end(s, p + 1, open, close, depth)
    }
}

/// Whether a byte ends a value that is neither text, object nor array.
pub open spec fn ends_plain(b: u8) -> bool {
    b == COMMA || b == CLOSE_OBJECT || b == CLOSE_ARRAY || b <= BLANK
}

/// The first position from `p` on where a plain value ends.
pub open spec fn plain_end(s: Seq<u8>, p: int) -> int
    decreases left(s, p),
{
    if 0 <= p < s.len() && !ends_plain(s[p]) {
        plain_end(s, p + 1)
    } else {
        p
    }
}

/// `n` bytes on, where `s` reaches that far.
pub open spec fn jump(s: Seq<u8>, p: int, n: int) -> Option<int> {
    if p + n <= s.len() {
        Some(p + n)
    } else {
        None
    }
}

/// Behind the text that opens at `p`.
pub open spec fn text_end(s: Seq<u8>, p: int) -> Option<int> {
    match text_close(s, p + 1) {
        Some(q) => Some(q + 1),
        None => None,
    }
}

/// Behind the value at `p`, of whatever kind.
pub open spec fn value_end(s: Seq<u8>, p: int) -> Option<int> {
    if !(0 <= p < s.len()) {
        None
    } else if s[p] == QUOTE {
        text_end(s, p)
    } else if s[p] == OPEN_OBJECT {
        nest_end(s, p, OPEN_OBJECT, CLOSE_OBJECT, 0)
    } else if s[p] == OPEN_ARRAY {
        nest_end(s, p, OPEN_ARRAY, CLOSE_ARRAY, 0)
    } else if s[p] == LETTER_T || s[p] == LETTER_N {
        jump(s, p, 4)
    } else if s[p] == LETTER_F {
        jump(s, p, 5)
    } else {
        Some(plain_end(s, p))
    }
}

/// The first position from `p` on that holds no digit.
pub open spec fn digits_end(s: Seq<u8>, p: int) -> int
    decreases left(s, p),
{
    if 0 <= p < s.len() && ZERO <= s[p] <= NINE {
        digits_end(s, p + 1)
    } else {
        p
    }
}

/// The number that decimal digits write.
pub open spec fn decimal(digits: Seq<u8>) -> int
    decreases digits.len(),
{
    if digits.len() == 0 {
        0
    } else {
        10 * decimal(digits.drop_last()) + (digits.last() - ZERO)
    }
}

/// The whole number at `p`, reduced to 32 bits, and where it ends. The text
/// must go on behind it.
pub open spec fn count_at(s: Seq<u8>, p: int) -> Option<(u32, int)> {
    let e = digits_end(s, p);
    if e < s.len() {
        Some(((decimal(s.subrange(p, e)) % 0x1_0000_0000) as u32, e))
    } else {
        None
    }
}

/// The inside of the text at `p`, and where the text ends.
pub open spec fn text_at(s: Seq<u8>, p: int) -> Option<(Seq<u8>, int)> {
    match text_close(s, p + 1) {
        Some(q) => Some((s.subrange(p + 1, q), q + 1)),
        None => None,
    }
}

/// The array at `p` with its brackets, and where it ends.
pub open spec fn list_at(s: Seq<u8>, p: int) -> Option<(Seq<u8>, int)> {
    match nest_end(s, p, OPEN_ARRAY, CLOSE_ARRAY, 0) {
        Some(e) => Some((s.subrange(p, e), e)),
        None => None,
    }
}

/// The truth value at `p`, and where it ends.
pub open spec fn flag_at(s: Seq<u8>, p: int) -> Option<(bool, int)> {
    if !(0 <= p < s.len()) {
        None
    } else if s[p] == LETTER_T {
        match jump(s, p, 4) {
            Some(e) => Some((true, e)),
            None => None,
        }
    } else {
        match jump(s, p, 5) {
            Some(e) => Some((false, e)),
            None => None,
        }
    }
}

/// Whether a key is the one of length `len` that starts with `head`.
pub open spec fn is_named(key: Seq<u8>, head: Seq<u8>, len: int) -> bool {
    key.len() == len && begins_with(key, head)
}

/// A member of an object: its key, and where its value starts.
pub struct Member {
    pub key: Seq<u8>,
    pub at: int,
}

/// The key whose quote opens at `p`, and where it ends.
pub open spec fn key_at(s: Seq<u8>, p: int) -> Option<(Seq<u8>, int)> {
    match quote_at(s, p + 1) {
        Some(q) => Some((s.subrange(p + 1, q), q + 1)),
        None => None,
    }
}

/// The member whose key opens at `p`; one byte stands between key and value,
/// with white space on both sides.
pub open spec fn member_at(s: Seq<u8>, p: int) -> Option<Member> {
    match key_at(s, p) {
        Some((key, e)) => {
            let colon = ws_end(s, e);
            if colon < s.len() {
                Some(Member { key, at: ws_end(s, colon + 1) })
            } else {
                None
            }
        },
        None => None,
    }
}

/// The members of the object whose inside continues at `p`, and where the
/// object ends, `end_of` telling where the value of a member ends.
pub open spec fn members(
    s: Seq<u8>,
    p: int,
    end_of: spec_fn(Member) -> Option<int>,
) -> Option<(Seq<Member>, int)>
    decreases left(s, p),
{
    let k = ws_end(s, p);
    proof {
        lemma_ws_end(s, p);
    }
    if !(0 <= k < s.len()) {
        None
    } else if s[k] == CLOSE_OBJECT {
        Some((Seq::empty(), k + 1))
    } else if s[k] == COMMA {
        members(s, k + 1, end_of)
    } else {
        match member_at(s, k) {
            Some(m) => match end_of(m) {
                Some(e) => if k < e {
                    match members(s, e, end_of) {
                        Some((rest, close)) => Some((seq![m] + rest, close)),
                        None => None,
                    }
                } else {
                    None
                },
                None => None,
            },
            None => None,
        }
    }
}

pub proof fn lemma_ws_end(s: Seq<u8>, p: int)
    ensures
        ws_end(s, p) >= p,
        p <= s.len() ==> ws_end(s, p) <= s.len(),
    decreases left(s, p),
{
    if 0 <= p < s.len() && s[p] <= BLANK {
        lemma_ws_end(s, p + 1);
    }
}

/// Skips white space.
pub fn skip_ws(s: &[u8], p: usize) -> (e: usize)
    requires
        p <= s@.len(),
    ensures
        e == ws_end(s@, p as int),
        p <= e <= s@.len(),
{
    let mut i: usize = p;
    while i < s.len() && s[i] <= BLANK
        invariant
            p <= i <= s@.len(),
            ws_end(s@, p as int) == ws_end(s@, i as int),
        decreases s@.len() - i,
    {
        i = i + 1;
    }
    i
}

/// The key whose quote opens at `p`, and where it ends.
pub fn scan_key<'a>(s: &'a [u8], p: usize) -> (r: Option<(&'a [u8], usize)>)
    requires
        p < s@.len(),
    ensures
        r matches Some((key, e)) ==> key_at(s@, p as int) == Some((key@, e as int)) && p < e
            <= s@.len(),
        r is None ==> key_at(s@, p as int) is None,
{
    assert(p < s.len());
    let mut i: usize = p + 1;
    while i < s.len() && s[i] != QUOTE
        invariant
            p < i <= s@.len(),
            quote_at(s@, p + 1) == quote_at(s@, i as int),
        decreases s@.len() - i,
    {
        i = i + 1;
    }
    if i < s.len() {
        Some((slice_subrange(s, p + 1, i), i + 1))
    } else {
        None
    }
}

/// The quote that closes a text whose inside continues at `p`.
fn find_close(s: &[u8], p: usize) -> (r: Option<usize>)
    requires
        p <= s@.len(),
    ensures
        r matches Some(q) ==> text_close(s@, p as int) == Some(q as int) && p <= q < s@.len(),
        r is None ==> text_close(s@, p as int) is None,
{
    let mut i: usize = p;
    while i < s.len() && s[i] != QUOTE
        invariant
            p <= i <= s@.len(),
            text_close(s@, p as int) == text_close(s@, i as int),
        decreases s@.len() - i,
    {
        if s[i] == ESCAPE {
            if s.len() - i < 2 {
                assert(text_close(s@, i + 2) is None);
                return None;
            }
            i = i + 2;
        } else {
            i = i + 1;
        }
    }
    if i < s.len() {
        Some(i)
    } else {
        None
    }
}

/// The inside of the text at `p`, and where the text ends.
pub fn scan_str<'a>(s: &'a [u8], p: usize) -> (r: Option<(&'a [u8], usize)>)
    requires
        p < s@.len(),
    ensures
        r matches Some((text, e)) ==> text_at(s@, p as int) == Some((text@, e as int)) && p < e
            <= s@.len(),
        r is None ==> text_at(s@, p as int) is None,
{
    assert(p < s.len());
    match find_close(s, p + 1) {
        Some(q) => Some((slice_subrange(s, p + 1, q), q + 1)),
        None => None,
    }
}

/// The whole number at `p`, reduced to 32 bits, and where it ends.
pub fn parse_u32(s: &[u8], p: usize) -> (r: Option<(u32, usize)>)
    requires
        p <= s@.len(),
    ensures
        r matches Some((n, e)) ==> count_at(s@, p as int) == Some((n, e as int)) && p <= e
            < s@.len(),
        r is None ==> count_at(s@, p as int) is None,
{
    let mut n: u32 = 0;
    let mut i: usize = p;
    assert(s@.subrange(p as int, p as int) =~= Seq::<u8>::empty());
    while i < s.len() && ZERO <= s[i] && s[i] <= NINE
        invariant
            p <= i <= s@.len(),
            digits_end(s@, p as int) == digits_end(s@, i as int),
            n == decimal(s@.subrange(p as int, i as int)) % 0x1_0000_0000,
        decreases s@.len() - i,
    {
        let d = (s[i] - ZERO) as u32;
        proof {
            let all = s@.subrange(p as int, i + 1);
            assert(all.drop_last() =~= s@.subrange(p as int, i as int));
            let x = decimal(all.drop_last());
            assert((10 * (x % 0x1_0000_0000) + d) % 0x1_0000_0000 == (10 * x + d)
                % 0x1_0000_0000) by (nonlinear_arith);
        }
        n = n.wrapping_mul(10).wrapping_add(d);
        i = i + 1;
    }
    if i < s.len() {
        Some((n, i))
    } else {
        None
    }
}

/// The truth value at `p`, and where it ends.
pub fn parse_bool(s: &[u8], p: usize) -> (r: Option<(bool, usize)>)
    requires
        p < s@.len(),
    ensures
        r matches Some((b, e)) ==> flag_at(s@, p as int) == Some((b, e as int)) && p < e
            <= s@.len(),
        r is None ==> flag_at(s@, p as int) is None,
{
    let rest: usize = s.len() - p;
    if s[p] == LETTER_T {
        if rest >= 4 {
            Some((true, p + 4))
        } else {
            None
        }
    } else if rest >= 5 {
        Some((false, p + 5))
    } else {
        None
    }
}

/// Behind the bracket that closes what opens at `p`.
fn skip_nest(s: &[u8], p: usize, open: u8, close: u8) -> (r: Option<usize>)
    requires
        p <= s@.len(),
    ensures
        r matches Some(e) ==> nest_end(s@, p as int, open, close, 0) == Some(e as int) && p <= e
            <= s@.len() && (p < s@.len() ==> p < e),
        r is None ==> nest_end(s@, p as int, open, close, 0) is None,
{
    let len: usize = s.len();
    let mut i: usize = p;
    let mut depth: i128 = 0;
    while i < len
        invariant
            p <= i <= len,
            len == s@.len(),
            -i <= depth <= i,
            nest_end(s@, p as int, open, close, 0) == nest_end(
                s@,
                i as int,
                open,
                close,
                depth as int,
            ),
        decreases len - i,
    {
        let b = s[i];
        if b == open {
            depth = depth + 1;
        } else if b == close {
            if depth == 1 {
                return Some(i + 1);
            }
            depth = depth - 1;
        } else if b == QUOTE {
            match find_close(s, i + 1) {
                Some(q) => {
                    i = q;
                },
                None => {
                    return None;
                },
            }
        }
        i = i + 1;
    }
    Some(i)
}

/// The array at `p` with its brackets, and where it ends.
pub fn slice_array<'a>(s: &'a [u8], p: usize) -> (r: Option<(&'a [u8], usize)>)
    requires
        p <= s@.len(),
    ensures
        r matches Some((list, e)) ==> list_at(s@, p as int) == Some((list@, e as int)) && p <= e
            <= s@.len() && (p < s@.len() ==> p < e),
        r is None ==> list_at(s@, p as int) is None,
{
    match skip_nest(s, p, OPEN_ARRAY, CLOSE_ARRAY) {
        Some(e) => Some((slice_subrange(s, p, e), e)),
        None => None,
    }
}

/// Behind the value at `p`, of whatever kind.
pub fn skip_value(s: &[u8], p: usize) -> (r: Option<usize>)
    requires
        p <= s@.len(),
    ensures
        r matches Some(e) ==> value_end(s@, p as int) == Some(e as int) && p <= e <= s@.len(),
        r is None ==> value_end(s@, p as int) is None,
{
    let len: usize = s.len();
    if p >= len {
        return None;
    }
    let rest: usize = len - p;
    let b = s[p];
    if b == QUOTE {
        match find_close(s, p + 1) {
            Some(q) => Some(q + 1),
            None => None,
        }
    } else if b == OPEN_OBJECT {
        skip_nest(s, p, OPEN_OBJECT, CLOSE_OBJECT)
    } else if b == OPEN_ARRAY {
        skip_nest(s, p, OPEN_ARRAY, CLOSE_ARRAY)
    } else if b == LETTER_T || b == LETTER_N {
        if rest >= 4 {
            Some(p + 4)
        } else {
            None
        }
    } else if b == LETTER_F {
        if rest >= 5 {
            Some(p + 5)
        } else {
            None
        }
    } else {
        let mut i: usize = p;
        while i < len && s[i] != COMMA && s[i] != CLOSE_OBJECT && s[i] != CLOSE_ARRAY && s[i]
            > BLANK
            invariant
                p <= i <= len,
                len == s@.len(),
                plain_end(s@, p as int) == plain_end(s@, i as int),
            decreases len - i,
        {
            i = i + 1;
        }
        Some(i)
    }
}

/// Whether a key is the one of length `len` that starts with `head`.
pub fn is_key(key: &[u8], head: &[u8], len: usize) -> (r: bool)
    ensures
        r == is_named(key@, head@, len as int),
{
    key.len() == len && starts_with(key, head)
}

/// The key whose quote opens at `p`, and where the value of its member starts.
pub fn scan_member<'a>(s: &'a [u8], p: usize) -> (r: Option<(&'a [u8], usize)>)
    requires
        p < s@.len(),
    ensures
        r matches Some((key, v)) ==> member_at(s@, p as int) == Some(
            Member { key: key@, at: v as int },
        ) && p < v <= s@.len(),
        r is None ==> member_at(s@, p as int) is None,
{
    match scan_key(s, p) {
        Some((key, e)) => {
            let colon: usize = skip_ws(s, e);
            if colon < s.len() {
                Some((key, skip_ws(s, colon + 1)))
            } else {
                None
            }
        },
        None => None,
    }
}

} // verus!
