//! How the length of a body is written in a head, and that it is read.
use vstd::prelude::*;

use crate::input::json::{decimal, NINE, ZERO};
use crate::server::{
    all_digits, content_length, ends_line, gives_length, is_blank, length_from, length_in, line_end,
    lower, trim_end, trim_start, LENGTH_FIELD,
};

verus! {

/// A number as it is written in decimal digits.
pub open spec fn numeral(n: nat) -> Seq<u8>
    decreases n,
{
    if n < 10 {
        seq![(0x30 + n) as u8]
    } else {
        numeral(n / 10).push((0x30 + n % 10) as u8)
    }
}

/// A number that is written is the number that its digits are read as.
pub proof fn numerals_are_read(n: nat)
    ensures
        decimal(numeral(n)) == n,
        all_digits(numeral(n)),
    decreases n,
{
    if n < 10 {
        reveal_with_fuel(decimal, 2);
        assert(numeral(n).drop_last() =~= Seq::empty());
    } else {
        let front = numeral(n / 10);
        numerals_are_read(n / 10);
        assert(numeral(n).drop_last() =~= front);
        assert forall|i: int| 0 <= i < numeral(n).len() implies ZERO <= #[trigger] numeral(n)[i]
            <= NINE by {
            if i < front.len() {
                assert(numeral(n)[i] == front[i]);
            }
        }
    }
}

/// Blanks and tabs.
pub open spec fn blanks(s: Seq<u8>) -> bool {
    forall|i: int| 0 <= i < s.len() ==> #[trigger] s[i] == 0x20 || s[i] == 0x09
}

/// Whether no line ends within a line.
pub open spec fn unbroken(line: Seq<u8>) -> bool {
    forall|i: int|
        0 <= i && i + 1 < line.len() ==> !(#[trigger] line[i] == 0x0d && line[i + 1] == 0x0a)
}

/// Whether a line begins with the name of the field, in letters of either case:
/// `Content-Length:`.
pub open spec fn names_length(line: Seq<u8>) -> bool {
    line.len() >= 15 && forall|i: int|
        0 <= i < 15 ==> {
            let c = "content-length:"@[i] as u8;
            #[trigger] line[i] == c || (0x61 <= c <= 0x7a && line[i] + 0x20 == c)
        }
}

/// Lines, each with its end.
pub open spec fn lines_text(lines: Seq<Seq<u8>>) -> Seq<u8>
    decreases lines.len(),
{
    if lines.len() == 0 {
        seq![]
    } else {
        lines[0] + (seq![0x0du8, 0x0a] + lines_text(lines.skip(1)))
    }
}

/// Whether lines are unbroken, and none of them names the length.
pub open spec fn other_lines(lines: Seq<Seq<u8>>) -> bool {
    forall|i: int|
        0 <= i < lines.len() ==> unbroken(#[trigger] lines[i]) && !names_length(lines[i])
}

/// Whether nothing follows, or a new line does.
pub open spec fn cut_off(after: Seq<u8>) -> bool {
    after.len() == 0 || (after.len() >= 2 && after[0] == 0x0d && after[1] == 0x0a)
}

/// A line that names the length is one that gives it, and no other is.
proof fn lemma_names(line: Seq<u8>)
    ensures
        names_length(line) == gives_length(line),
{
    reveal_strlit("content-length:");
    let name = "content-length:"@;
    assert(name.len() == 15);
    assert(forall|i: int| 0 <= i < 15 ==> #[trigger] name[i] as u8 == LENGTH_FIELD[i]);
    if line.len() >= 15 {
        assert forall|i: int| 0 <= i < 15 implies (lower(#[trigger] line[i]) == LENGTH_FIELD[i])
            == ({
            let c = name[i] as u8;
            line[i] == c || (0x61 <= c <= 0x7a && line[i] + 0x20 == c)
        }) by {
            assert(name[i] as u8 == LENGTH_FIELD[i]);
        }
        if names_length(line) {
            assert forall|i: int| 0 <= i < 15 implies lower(#[trigger] line[i])
                == LENGTH_FIELD[i] by {}
        }
        if gives_length(line) {
            assert forall|i: int| 0 <= i < 15 implies ({
                let c = name[i] as u8;
                #[trigger] line[i] == c || (0x61 <= c <= 0x7a && line[i] + 0x20 == c)
            }) by {
                assert(lower(line[i]) == LENGTH_FIELD[i]);
            }
        }
    }
}

/// A line ends where it was written to end.
proof fn lemma_line_is_found(head: Seq<u8>, p: int, line: Seq<u8>, i: int)
    requires
        0 <= p,
        0 <= i <= line.len(),
        p + line.len() <= head.len(),
        head.subrange(p, p + line.len()) == line,
        unbroken(line),
        p + line.len() == head.len() || ends_line(head, p + line.len()),
    ensures
        line_end(head, p + i) == p + line.len(),
    decreases line.len() - i,
{
    if i < line.len() {
        let at = p + i;
        assert(head[at] == line[i]) by {
            assert(head.subrange(p, p + line.len())[i] == line[i]);
        }
        if ends_line(head, at) {
            if i + 1 < line.len() {
                assert(head[at + 1] == line[i + 1]) by {
                    assert(head.subrange(p, p + line.len())[i + 1] == line[i + 1]);
                }
                assert(line[i] == 0x0d);
            } else if p + line.len() < head.len() {
                assert(head[p + line.len()] == 0x0d);
            }
            assert(false);
        }
        lemma_line_is_found(head, p, line, i + 1);
    }
}

/// Lines that do not name the length are passed over.
proof fn lemma_lines_are_passed(head: Seq<u8>, p: int, lines: Seq<Seq<u8>>)
    requires
        0 <= p,
        p + lines_text(lines).len() <= head.len(),
        head.subrange(p, p + lines_text(lines).len()) == lines_text(lines),
        other_lines(lines),
    ensures
        length_from(head, p) == length_from(head, p + lines_text(lines).len()),
    decreases lines.len(),
{
    if lines.len() > 0 {
        let line = lines[0];
        let rest = lines.skip(1);
        let end: Seq<u8> = seq![0x0du8, 0x0a];
        let text = lines_text(lines);
        assert(text == line + (end + lines_text(rest)));
        let e = p + line.len();
        assert(head.subrange(p, e) =~= line) by {
            assert forall|i: int| 0 <= i < line.len() implies head.subrange(p, e)[i] == line[i] by {
                assert(head.subrange(p, p + text.len())[i] == text[i]);
            }
        }
        assert(head[e] == 0x0d && head[e + 1] == 0x0a) by {
            let k = line.len() as int;
            assert(head.subrange(p, p + text.len())[k] == text[k]);
            assert(head.subrange(p, p + text.len())[k + 1] == text[k + 1]);
        }
        assert(head.subrange(e + 2, e + 2 + lines_text(rest).len()) =~= lines_text(rest)) by {
            assert forall|i: int| 0 <= i < lines_text(rest).len() implies head.subrange(
                e + 2,
                e + 2 + lines_text(rest).len(),
            )[i] == lines_text(rest)[i] by {
                assert(head.subrange(p, p + text.len())[line.len() + 2 + i] == text[line.len() + 2
                    + i]);
            }
        }
        assert forall|i: int| 0 <= i < rest.len() implies unbroken(#[trigger] rest[i])
            && !names_length(rest[i]) by {
            assert(rest[i] == lines[i + 1]);
        }
        lemma_line_is_found(head, p, line, 0);
        lemma_names(line);
        assert(!gives_length(line));
        assert(length_from(head, p) == length_from(head, e + 2));
        lemma_lines_are_passed(head, e + 2, rest);
    }
}

proof fn lemma_start_is_trimmed(pad: Seq<u8>, s: Seq<u8>)
    requires
        blanks(pad),
        s.len() > 0,
        !is_blank(s[0]),
    ensures
        trim_start(pad + s) == s,
    decreases pad.len(),
{
    if pad.len() == 0 {
        assert(pad + s =~= s);
    } else {
        assert(is_blank(pad[0]));
        assert((pad + s).drop_first() =~= pad.drop_first() + s);
        lemma_start_is_trimmed(pad.drop_first(), s);
    }
}

proof fn lemma_end_is_trimmed(s: Seq<u8>, pad: Seq<u8>)
    requires
        blanks(pad),
        s.len() > 0,
        !is_blank(s.last()),
    ensures
        trim_end(s + pad) == s,
    decreases pad.len(),
{
    if pad.len() == 0 {
        assert(s + pad =~= s);
    } else {
        assert(is_blank(pad.last()));
        assert((s + pad).drop_last() =~= s + pad.drop_last());
        lemma_end_is_trimmed(s, pad.drop_last());
    }
}

/// What stands behind the name of the field, without blanks on either side, is
/// what the length is read from.
proof fn lemma_value_is_read(name: Seq<u8>, pad: Seq<u8>, w: Seq<u8>, rest: Seq<u8>)
    requires
        name.len() == 15,
        blanks(pad),
        blanks(rest),
        w.len() > 0,
        !is_blank(w[0]),
        !is_blank(w.last()),
    ensures
        length_in(name + (pad + (w + rest))) == if all_digits(w) && decimal(w) <= usize::MAX {
            Some(decimal(w))
        } else {
            None
        },
{
    let line = name + (pad + (w + rest));
    assert(line.skip(15) =~= pad + (w + rest));
    lemma_start_is_trimmed(pad, w + rest);
    lemma_end_is_trimmed(w, rest);
}

/// The line behind others is found and read.
proof fn lemma_line_is_read(lines: Seq<Seq<u8>>, line: Seq<u8>, after: Seq<u8>)
    requires
        other_lines(lines),
        unbroken(line),
        names_length(line),
        cut_off(after),
    ensures
        content_length(lines_text(lines) + (line + after)) == length_in(line),
{
    reveal(content_length);
    let p = lines_text(lines).len() as int;
    let head = lines_text(lines) + (line + after);
    assert(head.subrange(0, p) =~= lines_text(lines));
    lemma_lines_are_passed(head, 0, lines);
    assert(head.subrange(p, p + line.len()) =~= line);
    if after.len() > 0 {
        assert(head[p + line.len()] == after[0]);
        assert(head[p + line.len() + 1] == after[1]);
        assert(ends_line(head, p + line.len()));
    }
    lemma_line_is_found(head, p, line, 0);
    lemma_names(line);
}

/// What is written as the length is the length that is read: behind lines that
/// do not name the field, its name in letters of either case, blanks, the digits
/// of the number, and blanks again give that number, whatever lines follow.
pub proof fn written_lengths_are_read(
    lines: Seq<Seq<u8>>,
    name: Seq<u8>,
    pad: Seq<u8>,
    n: nat,
    rest: Seq<u8>,
    after: Seq<u8>,
)
    requires
        other_lines(lines),
        name.len() == 15,
        names_length(name),
        blanks(pad),
        blanks(rest),
        n <= usize::MAX,
        cut_off(after),
    ensures
        content_length(lines_text(lines) + ((name + (pad + (numeral(n) + rest))) + after)) == Some(
            n as int,
        ),
{
    numerals_are_read(n);
    lemma_length_line(lines, name, pad, numeral(n), rest, after);
}

/// A length that is too large is none.
pub proof fn lengths_that_do_not_fit_are_none(
    lines: Seq<Seq<u8>>,
    name: Seq<u8>,
    pad: Seq<u8>,
    n: nat,
    rest: Seq<u8>,
    after: Seq<u8>,
)
    requires
        other_lines(lines),
        name.len() == 15,
        names_length(name),
        blanks(pad),
        blanks(rest),
        n > usize::MAX,
        cut_off(after),
    ensures
        content_length(lines_text(lines) + ((name + (pad + (numeral(n) + rest))) + after)) is None,
{
    numerals_are_read(n);
    lemma_length_line(lines, name, pad, numeral(n), rest, after);
}

/// The value of the field is read where it is all digits, and else not.
proof fn lemma_length_line(
    lines: Seq<Seq<u8>>,
    name: Seq<u8>,
    pad: Seq<u8>,
    w: Seq<u8>,
    rest: Seq<u8>,
    after: Seq<u8>,
)
    requires
        other_lines(lines),
        name.len() == 15,
        names_length(name),
        blanks(pad),
        blanks(rest),
        all_digits(w),
        cut_off(after),
    ensures
        content_length(lines_text(lines) + ((name + (pad + (w + rest))) + after))
            == if decimal(w) <= usize::MAX {
            Some(decimal(w))
        } else {
            None
        },
{
    reveal_strlit("content-length:");
    let line = name + (pad + (w + rest));
    assert(forall|i: int| 0 <= i < 15 ==> name[i] == #[trigger] line[i]);
    assert(names_length(line)) by {
        assert forall|i: int| 0 <= i < 15 implies ({
            let c = "content-length:"@[i] as u8;
            #[trigger] line[i] == c || (0x61 <= c <= 0x7a && line[i] + 0x20 == c)
        }) by {
            assert(name[i] == line[i]);
        }
    }
    lemma_names(name);
    assert(unbroken(line)) by {
        assert forall|i: int| 0 <= i && i + 1 < line.len() implies !(#[trigger] line[i] == 0x0d
            && line[i + 1] == 0x0a) by {
            if i < 15 {
                assert(lower(name[i]) == LENGTH_FIELD[i]);
            } else if i < 15 + pad.len() {
                assert(line[i] == pad[i - 15]);
            } else if i < 15 + pad.len() + w.len() {
                assert(line[i] == w[i - 15 - pad.len()]);
            } else {
                assert(line[i] == rest[i - 15 - pad.len() - w.len()]);
            }
        }
    }
    assert(ZERO <= w[0] <= NINE && ZERO <= w[w.len() - 1] <= NINE);
    lemma_value_is_read(name, pad, w, rest);
    lemma_line_is_read(lines, line, after);
}

/// A head in which no line names the field gives no length.
pub proof fn heads_without_the_field_give_no_length(lines: Seq<Seq<u8>>, last: Seq<u8>)
    requires
        other_lines(lines),
        unbroken(last),
        !names_length(last),
    ensures
        content_length(lines_text(lines) + last) is None,
{
    reveal(content_length);
    let p = lines_text(lines).len() as int;
    let head = lines_text(lines) + last;
    assert(head.subrange(0, p) =~= lines_text(lines));
    lemma_lines_are_passed(head, 0, lines);
    assert(head.subrange(p, p + last.len()) =~= last);
    lemma_line_is_found(head, p, last, 0);
    lemma_names(last);
    assert(length_from(head, p + last.len() + 2) is None);
}

/// A value that is not all digits gives no length.
pub proof fn values_with_other_bytes_give_no_length(
    lines: Seq<Seq<u8>>,
    name: Seq<u8>,
    pad: Seq<u8>,
    w: Seq<u8>,
    rest: Seq<u8>,
    after: Seq<u8>,
    i: int,
)
    requires
        other_lines(lines),
        name.len() == 15,
        blanks(pad),
        blanks(rest),
        0 <= i < w.len(),
        !(0x30 <= w[i] <= 0x39),
        w[0] != 0x20 && w[0] != 0x09,
        w.last() != 0x20 && w.last() != 0x09,
        names_length(name + (pad + (w + rest))),
        unbroken(name + (pad + (w + rest))),
        cut_off(after),
    ensures
        content_length(lines_text(lines) + ((name + (pad + (w + rest))) + after)) is None,
{
    lemma_value_is_read(name, pad, w, rest);
    lemma_line_is_read(lines, name + (pad + (w + rest)), after);
}

} // verus!
