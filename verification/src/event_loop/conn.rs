//! One connection: the bytes of a request so far, and the answer to it.
use vstd::prelude::*;
use vstd::slice::slice_subrange;

use crate::bytes::{begins_with, starts_with};
use crate::event_loop::find::{find_first, first_in, lemma_first_in_longer};
use crate::server::{
    content_length, parse_content_length, ready_bytes, ready_response, refusal, refusal_bytes,
    score_bytes, score_response,
};

verus! {

/// How a readiness probe begins: "GET /ready".
pub const PROBE: [u8; 10] = [0x47, 0x45, 0x54, 0x20, 0x2f, 0x72, 0x65, 0x61, 0x64, 0x79];

/// How a scoring request begins: "POST /fraud-score".
pub const SCORING: [u8; 17] = [
    0x50,
    0x4f,
    0x53,
    0x54,
    0x20,
    0x2f,
    0x66,
    0x72,
    0x61,
    0x75,
    0x64,
    0x2d,
    0x73,
    0x63,
    0x6f,
    0x72,
    0x65,
];

/// The end of a head: two ends of lines.
pub const HEAD_END: [u8; 4] = [0x0d, 0x0a, 0x0d, 0x0a];

/// A connection.
pub struct Conn {
    pub rbuf: Vec<u8>,
    pub filled: usize,
    pub resp: &'static [u8],
    pub written: usize,
}

/// What is to be done with the bytes of a request so far.
pub enum Outcome {
    /// Wait for more of them.
    Wait,
    /// Answer that the server is ready.
    Ready,
    /// Refuse: the body does not fit.
    Refuse,
    /// Score the body, which stands between these positions.
    Body { start: int, end: int },
}

/// What is to be done with the bytes of a request so far.
#[derive(Clone, Copy, PartialEq, Eq, Structural, Debug)]
pub enum Verdict {
    Wait,
    Ready,
    Refuse,
    Body(usize, usize),
}

impl View for Verdict {
    type V = Outcome;

    open spec fn view(&self) -> Outcome {
        match self {
            Verdict::Wait => Outcome::Wait,
            Verdict::Ready => Outcome::Ready,
            Verdict::Refuse => Outcome::Refuse,
            Verdict::Body(start, end) => Outcome::Body { start: *start as int, end: *end as int },
        }
    }
}

/// What follows from the bytes of a request so far, in a buffer of that size.
pub open spec fn outcome(raw: Seq<u8>, cap: nat) -> Outcome {
    if begins_with(raw, PROBE@) {
        Outcome::Ready
    } else if begins_with(raw, SCORING@) {
        match first_in(raw, HEAD_END@) {
            Some(head) => {
                let start = head + 4;
                let end = start + match content_length(raw.take(head)) {
                    Some(n) => n,
                    None => 0,
                };
                if end > cap {
                    Outcome::Refuse
                } else if raw.len() >= end {
                    Outcome::Body { start, end }
                } else {
                    Outcome::Wait
                }
            },
            None => Outcome::Wait,
        }
    } else {
        Outcome::Wait
    }
}

/// Whether `score` can be asked for any body, and never counts more than five.
pub open spec fn scores<S: Fn(&[u8]) -> Option<usize>>(score: S) -> bool {
    &&& forall|body: &[u8]| #[trigger] score.requires((body,))
    &&& forall|body: &[u8], r: Option<usize>| #[trigger]
        score.ensures((body,), r) ==> (r matches Some(n) ==> n < 6)
}

/// The answer to a scored body.
pub open spec fn answer_to(r: Option<usize>) -> Seq<u8> {
    match r {
        Some(n) => score_bytes(n as int),
        None => refusal_bytes(),
    }
}

/// What came of an attempt to receive.
#[derive(Clone, Copy, PartialEq, Eq, Structural, Debug)]
pub enum Got {
    /// So many bytes, now in the buffer.
    Bytes(usize),
    /// The other side has closed.
    Ended,
    /// Nothing is there yet.
    Blocked,
    /// It failed.
    Failed,
}

/// What came of an attempt to send.
#[derive(Clone, Copy, PartialEq, Eq, Structural, Debug)]
pub enum Put {
    /// So many bytes went out.
    Bytes(usize),
    /// None can go out yet.
    Blocked,
    /// It failed.
    Failed,
}

/// What to do after reading.
#[derive(Clone, Copy, PartialEq, Eq, Structural, Debug)]
pub enum ReadResult {
    Respond,
    Close,
    Wait,
}

/// How sending an answer ended.
#[derive(Clone, Copy, PartialEq, Eq, Structural, Debug)]
pub enum SendResult {
    Done,
    Partial,
    Error,
}

impl Conn {
    /// No more is filled than there is room for, and no more was sent than
    /// there is to send.
    pub open spec fn wf(self) -> bool {
        &&& self.filled <= self.rbuf@.len()
        &&& self.written <= self.resp@.len()
    }

    /// The bytes of the request so far.
    pub open spec fn raw(self) -> Seq<u8> {
        self.rbuf@.take(self.filled as int)
    }

    /// Whether nothing was read, and nothing is to be sent.
    pub open spec fn is_idle(self) -> bool {
        self.filled == 0 && self.resp@.len() == 0 && self.written == 0
    }

    /// Whether this is `before` with an answer to send and its bytes used up.
    pub open spec fn answers(self, before: Conn, answer: Seq<u8>) -> bool {
        &&& self.rbuf@ == before.rbuf@
        &&& self.filled == 0
        &&& self.resp@ == answer
        &&& self.written == 0
    }

    /// Whether this is `before` after what came of an attempt to receive, and
    /// `r` is what follows.
    pub open spec fn took<S: Fn(&[u8]) -> Option<usize>>(
        self,
        before: Conn,
        got: Got,
        score: S,
        r: ReadResult,
    ) -> bool {
        &&& self.rbuf@ == before.rbuf@
        &&& match got {
            Got::Bytes(n) => {
                let raw = before.rbuf@.take(before.filled + n);
                match outcome(raw, before.rbuf@.len()) {
                    Outcome::Wait => r == ReadResult::Wait && self.raw() == raw && self.resp
                        == before.resp && self.written == before.written,
                    Outcome::Ready => r == ReadResult::Respond && self.answers(
                        before,
                        ready_bytes(),
                    ),
                    Outcome::Refuse => r == ReadResult::Respond && self.answers(
                        before,
                        refusal_bytes(),
                    ),
                    Outcome::Body { start, end } => r == ReadResult::Respond && exists|
                        body: &[u8],
                        s: Option<usize>,
                    |
                        {
                            &&& body@ == raw.subrange(start, end)
                            &&& #[trigger] score.ensures((body,), s)
                            &&& self.answers(before, answer_to(s))
                        },
                }
            },
            Got::Blocked => r == ReadResult::Wait && self == before,
            Got::Ended => r == ReadResult::Close && self == before,
            Got::Failed => r == ReadResult::Close && self == before,
        }
    }

    /// A connection with room for `cap` bytes.
    pub fn with_capacity(cap: usize) -> (c: Conn)
        ensures
            c.wf(),
            c.is_idle(),
            c.rbuf@ == Seq::new(cap as nat, |i: int| 0u8),
    {
        let mut rbuf: Vec<u8> = Vec::new();
        let mut i: usize = 0;
        while i < cap
            invariant
                i <= cap,
                rbuf@ == Seq::new(i as nat, |j: int| 0u8),
            decreases cap - i,
        {
            rbuf.push(0);
            i = i + 1;
            assert(rbuf@ =~= Seq::new(i as nat, |j: int| 0u8));
        }
        Conn { rbuf, filled: 0, resp: nothing(), written: 0 }
    }

    /// Forgets what was read and what was to be sent.
    pub fn reset(&mut self)
        ensures
            final(self).wf(),
            final(self).is_idle(),
            final(self).rbuf@ == old(self).rbuf@,
    {
        self.filled = 0;
        self.resp = nothing();
        self.written = 0;
    }

    /// Sets the answer.
    fn reply(&mut self, resp: &'static [u8])
        ensures
            final(self).answers(*old(self), resp@),
    {
        self.resp = resp;
        self.written = 0;
        self.filled = 0;
    }

    /// Looks at what was read so far.
    pub fn examine(&self) -> (v: Verdict)
        requires
            self.wf(),
        ensures
            v@ == outcome(self.raw(), self.rbuf@.len()),
            v matches Verdict::Body(start, end) ==> start <= end <= self.filled,
    {
        let cap: usize = self.rbuf.len();
        let raw = slice_subrange(self.rbuf.as_slice(), 0, self.filled);
        assert(raw@ =~= self.raw());
        if starts_with(raw, PROBE.as_slice()) {
            return Verdict::Ready;
        }
        if !starts_with(raw, SCORING.as_slice()) {
            return Verdict::Wait;
        }
        match find_first(raw, HEAD_END.as_slice()) {
            Some(head) => {
                let lines = slice_subrange(raw, 0, head);
                assert(lines@ =~= raw@.take(head as int));
                let cl: usize = match parse_content_length(lines) {
                    Some(n) => n,
                    None => 0,
                };
                let start: usize = head + 4;
                if cl > cap - start {
                    return Verdict::Refuse;
                }
                let end: usize = start + cl;
                if self.filled >= end {
                    Verdict::Body(start, end)
                } else {
                    Verdict::Wait
                }
            },
            None => Verdict::Wait,
        }
    }

    /// Looks at what was read so far; says whether there is an answer now.
    pub fn process<S: Fn(&[u8]) -> Option<usize>>(&mut self, score: &S) -> (done: bool)
        requires
            old(self).wf(),
            scores(*score),
        ensures
            final(self).wf(),
            match outcome(old(self).raw(), old(self).rbuf@.len()) {
                Outcome::Wait => !done && *final(self) == *old(self),
                Outcome::Ready => done && final(self).answers(
                    *old(self),
                    ready_bytes(),
                ),
                Outcome::Refuse => done && final(self).answers(*old(self), refusal_bytes()),
                Outcome::Body { start, end } => done && exists|body: &[u8], r: Option<usize>|
                    {
                        &&& body@ == old(self).raw().subrange(start, end)
                        &&& #[trigger] score.ensures((body,), r)
                        &&& final(self).answers(*old(self), answer_to(r))
                    },
            },
            done == !(outcome(old(self).raw(), old(self).rbuf@.len()) is Wait),
            done ==> final(self).filled == 0 && final(self).written == 0,
            final(self).rbuf@ == old(self).rbuf@,
    {
        match self.examine() {
            Verdict::Wait => false,
            Verdict::Ready => {
                self.reply(ready_response());
                true
            },
            Verdict::Refuse => {
                self.reply(refusal());
                true
            },
            Verdict::Body(start, end) => {
                let body = slice_subrange(self.rbuf.as_slice(), start, end);
                assert(body@ =~= self.raw().subrange(start as int, end as int));
                let r = score(body);
                assert(score.ensures((body,), r));
                match r {
                    Some(n) => {
                        self.reply(score_response(n));
                    },
                    None => {
                        self.reply(refusal());
                    },
                }
                true
            },
        }
    }

    /// How many more bytes there is room for. Without room a connection whose
    /// request is still incomplete is to be closed.
    pub fn room(&self) -> (n: usize)
        requires
            self.wf(),
        ensures
            n == self.rbuf@.len() - self.filled,
    {
        self.rbuf.len() - self.filled
    }

    /// Takes what came of an attempt to receive into the room behind the bytes
    /// so far.
    pub fn received<S: Fn(&[u8]) -> Option<usize>>(&mut self, got: Got, score: &S) -> (r:
        ReadResult)
        requires
            old(self).wf(),
            scores(*score),
            got matches Got::Bytes(n) ==> 0 < n <= old(self).rbuf@.len() - old(self).filled,
        ensures
            final(self).wf(),
            final(self).took(*old(self), got, *score, r),
            got == Got::Ended || got == Got::Failed ==> r == ReadResult::Close && *final(self)
                == *old(self),
            got == Got::Blocked ==> r == ReadResult::Wait && *final(self) == *old(self),
            got matches Got::Bytes(n) ==> {
                &&& r == ReadResult::Wait ==> final(self).filled == old(self).filled + n
                &&& r == ReadResult::Respond ==> final(self).filled == 0 && final(self).written
                    == 0
                &&& r != ReadResult::Close
            },
            final(self).rbuf@ == old(self).rbuf@,
    {
        match got {
            Got::Bytes(n) => {
                let cap: usize = self.rbuf.len();
                self.filled = self.filled + n;
                if self.process(score) {
                    ReadResult::Respond
                } else {
                    ReadResult::Wait
                }
            },
            Got::Blocked => ReadResult::Wait,
            Got::Ended => ReadResult::Close,
            Got::Failed => ReadResult::Close,
        }
    }

    /// What is still to be sent.
    pub fn rest(&self) -> (r: &[u8])
        requires
            self.wf(),
        ensures
            r@ == self.resp@.skip(self.written as int),
    {
        let r = slice_subrange(self.resp, self.written, self.resp.len());
        assert(r@ =~= self.resp@.skip(self.written as int));
        r
    }

    /// Takes what came of an attempt to send the rest; says how sending ended,
    /// or nothing where it goes on.
    pub fn sent(&mut self, put: Put) -> (r: Option<SendResult>)
        requires
            old(self).wf(),
            put matches Put::Bytes(n) ==> 0 < n <= old(self).resp@.len() - old(self).written,
        ensures
            final(self).wf(),
            final(self).rbuf@ == old(self).rbuf@,
            final(self).filled == old(self).filled,
            final(self).resp == old(self).resp,
            match put {
                Put::Bytes(n) => {
                    &&& final(self).written == old(self).written + n
                    &&& r == if final(self).written == old(self).resp@.len() {
                        Some(SendResult::Done)
                    } else {
                        None
                    }
                },
                Put::Blocked => r == Some(SendResult::Partial) && final(self).written == old(
                    self,
                ).written,
                Put::Failed => r == Some(SendResult::Error) && final(self).written == old(
                    self,
                ).written,
            },
    {
        match put {
            Put::Bytes(n) => {
                let len: usize = self.resp.len();
                self.written = self.written + n;
                if self.written == self.resp.len() {
                    Some(SendResult::Done)
                } else {
                    None
                }
            },
            Put::Blocked => Some(SendResult::Partial),
            Put::Failed => Some(SendResult::Error),
        }
    }
}

/// What the bytes so far decide, no further bytes change: a request that comes
/// in pieces is answered like one that comes at once.
pub proof fn more_bytes_change_no_verdict(raw: Seq<u8>, more: Seq<u8>, cap: nat)
    requires
        !(outcome(raw, cap) is Wait),
    ensures
        outcome(raw + more, cap) == outcome(raw, cap),
{
    let all = raw + more;
    if begins_with(raw, PROBE@) {
        assert(all.take(10) =~= raw.take(10));
    } else {
        assert(all.take(17) =~= raw.take(17));
        assert(SCORING@[0] != PROBE@[0]);
        assert(all[0] == all.take(17)[0]);
        assert(all.take(10)[0] == all[0]);
        assert(!begins_with(all, PROBE@));
        lemma_first_in_longer(raw, more, HEAD_END@);
        let head = first_in(raw, HEAD_END@).unwrap();
        assert(all.take(head) =~= raw.take(head));
        let end = head + 4 + match content_length(raw.take(head)) {
            Some(n) => n,
            None => 0,
        };
        assert(raw.len() >= end || end > cap);
    }
}

/// No bytes.
fn nothing() -> (r: &'static [u8])
    ensures
        r@.len() == 0,
{
    let r: &'static str = "";
    proof {
        reveal_strlit("");
        assert(r@.len() == 0);
    }
    r.as_bytes()
}

} // verus!
