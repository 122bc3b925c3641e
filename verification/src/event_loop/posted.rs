//! What comes of whole requests, of parts of them, and of anything else.
use vstd::prelude::*;
use vstd::string::StringSliceAdditionalSpecFns;

use crate::bytes::begins_with;
use crate::event_loop::conn::{answer_to, outcome, Outcome, HEAD_END, PROBE, SCORING};
use crate::event_loop::find::{first_in, lemma_first_in, occurs_at};
use crate::head::{
    blanks, cut_off, lines_text, names_length, numeral, other_lines, written_lengths_are_read,
};
use crate::server::{
    content_length, ready_bytes, refusal_bytes, score_bytes, RESPONSES, RESP_400, RESP_READY,
};

verus! {

/// Whether bytes begin with a text.
pub open spec fn opens_with(raw: Seq<u8>, text: Seq<char>) -> bool {
    raw.len() >= text.len() && forall|i: int|
        0 <= i < text.len() ==> #[trigger] raw[i] == text[i] as u8
}

/// The empty line behind a head.
pub open spec fn empty_line() -> Seq<u8> {
    seq![0x0du8, 0x0a, 0x0d, 0x0a]
}

/// Whether the first empty line behind a head is the one that ends it.
pub open spec fn whole_head(head: Seq<u8>) -> bool {
    forall|j: int| j < head.len() ==> !#[trigger] occurs_at(head + empty_line(), empty_line(), j)
}

proof fn lemma_opens(raw: Seq<u8>)
    ensures
        opens_with(raw, "GET /ready"@) == begins_with(raw, PROBE@),
        opens_with(raw, "POST /fraud-score"@) == begins_with(raw, SCORING@),
        opens_with(raw, "POST /fraud-score"@) ==> !opens_with(raw, "GET /ready"@),
{
    reveal_strlit("GET /ready");
    reveal_strlit("POST /fraud-score");
    let probe = "GET /ready"@;
    let scoring = "POST /fraud-score"@;
    assert(forall|i: int| 0 <= i < 10 ==> #[trigger] probe[i] as u8 == PROBE[i]);
    assert(forall|i: int| 0 <= i < 17 ==> #[trigger] scoring[i] as u8 == SCORING[i]);
    if opens_with(raw, probe) {
        assert forall|i: int| 0 <= i < 10 implies #[trigger] raw.take(10)[i] == PROBE@[i] by {
            assert(raw[i] == probe[i] as u8);
        }
        assert(raw.take(10) =~= PROBE@);
    }
    if begins_with(raw, PROBE@) {
        assert forall|i: int| 0 <= i < 10 implies #[trigger] raw[i] == probe[i] as u8 by {
            assert(raw.take(10)[i] == PROBE@[i]);
        }
    }
    if opens_with(raw, scoring) {
        assert forall|i: int| 0 <= i < 17 implies #[trigger] raw.take(17)[i] == SCORING@[i] by {
            assert(raw[i] == scoring[i] as u8);
        }
        assert(raw.take(17) =~= SCORING@);
        assert(raw[0] == scoring[0] as u8);
        assert(probe[0] as u8 != scoring[0] as u8);
    }
    if begins_with(raw, SCORING@) {
        assert forall|i: int| 0 <= i < 17 implies #[trigger] raw[i] == scoring[i] as u8 by {
            assert(raw.take(17)[i] == SCORING@[i]);
        }
    }
}

/// The head of a request ends at its first empty line.
proof fn lemma_head_is_found(head: Seq<u8>, rest: Seq<u8>)
    requires
        whole_head(head),
    ensures
        first_in(head + (empty_line() + rest), HEAD_END@) == Some(head.len() as int),
        (head + (empty_line() + rest)).take(head.len() as int) == head,
{
    let raw = head + (empty_line() + rest);
    let end = empty_line();
    let at = head.len() as int;
    assert(HEAD_END@ =~= end);
    assert(raw.subrange(at, at + 4) =~= end);
    assert(occurs_at(raw, end, at));
    assert forall|j: int| j < at implies !#[trigger] occurs_at(raw, end, j) by {
        if occurs_at(raw, end, j) {
            assert((head + end).subrange(j, j + 4) =~= raw.subrange(j, j + 4));
            assert(occurs_at(head + end, end, j));
        }
    }
    lemma_first_in(raw, end, at);
    assert(raw.take(at) =~= head);
}

/// A scoring request that is there as a whole is scored by its body: that is as
/// many bytes behind the empty line as the head says, whatever follows.
pub proof fn posted_bodies_are_scored(head: Seq<u8>, body: Seq<u8>, more: Seq<u8>, cap: nat)
    requires
        opens_with(head, "POST /fraud-score"@),
        whole_head(head),
        content_length(head) == Some(body.len() as int),
        head.len() + 4 + body.len() <= cap,
    ensures
        ({
            let raw = head + (empty_line() + (body + more));
            &&& outcome(raw, cap) matches Outcome::Body { start, end }
            &&& raw.subrange(start, end) == body
            &&& start == head.len() + 4
        }),
{
    let raw = head + (empty_line() + (body + more));
    lemma_head_is_found(head, body + more);
    lemma_stays_open(head, empty_line() + (body + more));
    lemma_opens(raw);
    let start = head.len() as int + 4;
    assert(raw.subrange(start, start + body.len()) =~= body);
}

/// A request that begins as it should goes on doing so.
proof fn lemma_stays_open(head: Seq<u8>, rest: Seq<u8>)
    requires
        opens_with(head, "POST /fraud-score"@),
    ensures
        opens_with(head + rest, "POST /fraud-score"@),
{
    let text = "POST /fraud-score"@;
    assert forall|i: int| 0 <= i < text.len() implies #[trigger] (head + rest)[i] == text[i] as u8 by {
        assert(head[i] == text[i] as u8);
    }
}

/// A request whose length is written in its head is scored by exactly its body.
pub proof fn bodies_with_a_written_length_are_scored(
    lines: Seq<Seq<u8>>,
    name: Seq<u8>,
    pad: Seq<u8>,
    rest: Seq<u8>,
    after: Seq<u8>,
    body: Seq<u8>,
    more: Seq<u8>,
    cap: nat,
)
    requires
        other_lines(lines),
        name.len() == 15,
        names_length(name),
        blanks(pad),
        blanks(rest),
        cut_off(after),
        body.len() <= usize::MAX,
        ({
            let head = lines_text(lines) + ((name + (pad + (numeral(body.len()) + rest))) + after);
            &&& opens_with(head, "POST /fraud-score"@)
            &&& whole_head(head)
            &&& head.len() + 4 + body.len() <= cap
        }),
    ensures
        ({
            let head = lines_text(lines) + ((name + (pad + (numeral(body.len()) + rest))) + after);
            let raw = head + (empty_line() + (body + more));
            &&& outcome(raw, cap) matches Outcome::Body { start, end }
            &&& raw.subrange(start, end) == body
        }),
{
    let head = lines_text(lines) + ((name + (pad + (numeral(body.len()) + rest))) + after);
    written_lengths_are_read(lines, name, pad, body.len(), rest, after);
    posted_bodies_are_scored(head, body, more, cap);
}

/// A scoring request that says nothing of its length has an empty body.
pub proof fn bodies_without_a_length_are_empty(head: Seq<u8>, more: Seq<u8>, cap: nat)
    requires
        opens_with(head, "POST /fraud-score"@),
        whole_head(head),
        content_length(head) is None,
        head.len() + 4 <= cap,
    ensures
        outcome(head + (empty_line() + more), cap) matches Outcome::Body { start, end } && start
            == end == head.len() + 4,
{
    lemma_head_is_found(head, more);
    lemma_stays_open(head, empty_line() + more);
    lemma_opens(head + (empty_line() + more));
}

/// A scoring request waits while part of its body is missing, and is refused at
/// once where the whole would not fit.
pub proof fn partial_bodies_wait(head: Seq<u8>, part: Seq<u8>, n: int, cap: nat)
    requires
        opens_with(head, "POST /fraud-score"@),
        whole_head(head),
        content_length(head) == Some(n),
        part.len() < n,
    ensures
        ({
            let raw = head + (empty_line() + part);
            &&& head.len() + 4 + n <= cap ==> outcome(raw, cap) is Wait
            &&& head.len() + 4 + n > cap ==> outcome(raw, cap) is Refuse
        }),
{
    lemma_head_is_found(head, part);
    lemma_stays_open(head, empty_line() + part);
    lemma_opens(head + (empty_line() + part));
}

/// A scoring request waits until the empty line behind its head has come.
pub proof fn partial_heads_wait(raw: Seq<u8>, cap: nat)
    requires
        opens_with(raw, "POST /fraud-score"@),
        forall|j: int| !#[trigger] occurs_at(raw, empty_line(), j),
    ensures
        outcome(raw, cap) is Wait,
{
    lemma_opens(raw);
    reveal(first_in);
    assert(HEAD_END@ =~= empty_line());
}

/// A probe is answered as soon as its beginning has come, and what is neither a
/// probe nor a scoring request waits.
pub proof fn probes_are_ready_and_others_wait(raw: Seq<u8>, cap: nat)
    ensures
        opens_with(raw, "GET /ready"@) ==> outcome(raw, cap) is Ready,
        !opens_with(raw, "GET /ready"@) && !opens_with(raw, "POST /fraud-score"@) ==> outcome(
            raw,
            cap,
        ) is Wait,
{
    lemma_opens(raw);
}

/// A body that is scored is answered by the text for its score, one that cannot
/// be scored by a refusal.
pub proof fn scores_are_answered(n: usize)
    requires
        n < 6,
    ensures
        answer_to(Some(n)) == RESPONSES[n as int].spec_bytes(),
        answer_to(None) == RESP_400.spec_bytes(),
        refusal_bytes() == RESP_400.spec_bytes(),
        ready_bytes() == RESP_READY.spec_bytes(),
{
    reveal(score_bytes);
    reveal(refusal_bytes);
    reveal(ready_bytes);
}

} // verus!
