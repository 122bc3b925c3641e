//! What the server answers, and what it reads of a request's head.
use vstd::prelude::*;
use vstd::slice::slice_subrange;
use vstd::string::StringSliceAdditionalSpecFns;

use crate::input::json::{decimal, NINE, ZERO};
use crate::tree::kernel::K;

verus! {

/// The answer to a readiness probe.
pub const RESP_READY: &'static str = "HTTP/1.1 200 OK\r\nContent-Length: 2\r\nConnection: keep-alive\r\n\r\nOK";

/// The answer to a request that cannot be scored.
pub const RESP_400: &'static str =
    "HTTP/1.1 400 Bad Request\r\nContent-Length: 0\r\nConnection: keep-alive\r\n\r\n";

/// The answers to a scored request, by how many of the five neighbours are
/// fraud. Up to two of them the transaction is approved.
pub const RESPONSES: [&'static str; 6] = [
    "HTTP/1.1 200 OK\r\nContent-Type: application/json\r\nConnection: keep-alive\r\nContent-Length: 35\r\n\r\n{\"approved\":true,\"fraud_score\":0.0}",
    "HTTP/1.1 200 OK\r\nContent-Type: application/json\r\nConnection: keep-alive\r\nContent-Length: 35\r\n\r\n{\"approved\":true,\"fraud_score\":0.2}",
    "HTTP/1.1 200 OK\r\nContent-Type: application/json\r\nConnection: keep-alive\r\nContent-Length: 35\r\n\r\n{\"approved\":true,\"fraud_score\":0.4}",
    "HTTP/1.1 200 OK\r\nContent-Type: application/json\r\nConnection: keep-alive\r\nContent-Length: 36\r\n\r\n{\"approved\":false,\"fraud_score\":0.6}",
    "HTTP/1.1 200 OK\r\nContent-Type: application/json\r\nConnection: keep-alive\r\nContent-Length: 36\r\n\r\n{\"approved\":false,\"fraud_score\":0.8}",
    "HTTP/1.1 200 OK\r\nContent-Type: application/json\r\nConnection: keep-alive\r\nContent-Length: 36\r\n\r\n{\"approved\":false,\"fraud_score\":1.0}",
];

/// The bytes of the answer to a readiness probe.
#[verifier::opaque]
pub open spec fn ready_bytes() -> Seq<u8> {
    RESP_READY.spec_bytes()
}

/// The bytes of the answer to a request that cannot be scored.
#[verifier::opaque]
pub open spec fn refusal_bytes() -> Seq<u8> {
    RESP_400.spec_bytes()
}

/// The bytes of the answer to a scored request.
#[verifier::opaque]
pub open spec fn score_bytes(frauds: int) -> Seq<u8> {
    RESPONSES[frauds].spec_bytes()
}

/// The answer to a readiness probe.
pub fn ready_response() -> (r: &'static [u8])
    ensures
        r@ == ready_bytes(),
{
    proof {
        reveal(ready_bytes);
    }
    RESP_READY.as_bytes()
}

/// The answer to a request that cannot be scored.
pub fn refusal() -> (r: &'static [u8])
    ensures
        r@ == refusal_bytes(),
{
    proof {
        reveal(refusal_bytes);
    }
    RESP_400.as_bytes()
}

/// The answer to a scored request.
pub fn score_response(frauds: usize) -> (r: &'static [u8])
    requires
        frauds < 6,
    ensures
        r@ == score_bytes(frauds as int),
{
    proof {
        reveal(score_bytes);
    }
    RESPONSES[frauds].as_bytes()
}

/// The end of a line in a head.
pub const LINE_END: [u8; 2] = [0x0d, 0x0a];

/// The name of the field that gives the length of a body, in lower case:
/// "content-length:".
pub const LENGTH_FIELD: [u8; 15] = [
    0x63,
    0x6f,
    0x6e,
    0x74,
    0x65,
    0x6e,
    0x74,
    0x2d,
    0x6c,
    0x65,
    0x6e,
    0x67,
    0x74,
    0x68,
    0x3a,
];

/// A letter in lower case; any other byte as it is.
pub open spec fn lower(b: u8) -> u8 {
    if 0x41 <= b <= 0x5a {
        (b + 0x20) as u8
    } else {
        b
    }
}

/// Whether a byte is a blank or a tab.
pub open spec fn is_blank(b: u8) -> bool {
    b == 0x20 || b == 0x09
}

/// Whether a line ends at `p`.
pub open spec fn ends_line(head: Seq<u8>, p: int) -> bool {
    p + 1 < head.len() && head[p] == LINE_END[0] && head[p + 1] == LINE_END[1]
}

/// Where the line that continues at `p` ends.
pub open spec fn line_end(head: Seq<u8>, p: int) -> int
    decreases head.len() - p,
{
    if p >= head.len() || ends_line(head, p) {
        p
    } else {
        line_end(head, p + 1)
    }
}

/// Whether a line gives the length of the body. The case of letters does not
/// matter.
pub open spec fn gives_length(line: Seq<u8>) -> bool {
    &&& line.len() >= 15
    &&& forall|i: int| 0 <= i < 15 ==> lower(#[trigger] line[i]) == LENGTH_FIELD[i]
}

/// A sequence without the blanks at its start.
pub open spec fn trim_start(s: Seq<u8>) -> Seq<u8>
    decreases s.len(),
{
    if s.len() > 0 && is_blank(s[0]) {
        trim_start(s.drop_first())
    } else {
        s
    }
}

/// A sequence without the blanks at its end.
pub open spec fn trim_end(s: Seq<u8>) -> Seq<u8>
    decreases s.len(),
{
    if s.len() > 0 && is_blank(s.last()) {
        trim_end(s.drop_last())
    } else {
        s
    }
}

/// Whether there are digits, and nothing else.
pub open spec fn all_digits(s: Seq<u8>) -> bool {
    s.len() > 0 && forall|i: int| 0 <= i < s.len() ==> ZERO <= #[trigger] s[i] <= NINE
}

/// The length that a line gives.
pub open spec fn length_in(line: Seq<u8>) -> Option<int> {
    let digits = trim_end(trim_start(line.skip(15)));
    if all_digits(digits) && decimal(digits) <= usize::MAX {
        Some(decimal(digits))
    } else {
        None
    }
}

/// The length that the first line from `p` on gives that gives one.
pub open spec fn length_from(head: Seq<u8>, p: int) -> Option<int>
    decreases
            (if p < head.len() {
                head.len() - p
            } else {
                0
            }),
{
    let e = line_end(head, p);
    if p < 0 || p >= head.len() {
        None
    } else if gives_length(head.subrange(p, e)) {
        length_in(head.subrange(p, e))
    } else {
        proof {
            lemma_line_end(head, p);
        }
        length_from(head, e + 2)
    }
}

/// The length of the body that a head gives.
#[verifier::opaque]
pub open spec fn content_length(head: Seq<u8>) -> Option<int> {
    length_from(head, 0)
}

pub proof fn lemma_line_end(head: Seq<u8>, p: int)
    ensures
        p <= line_end(head, p),
        p <= head.len() ==> line_end(head, p) <= head.len(),
        line_end(head, p) < head.len() ==> line_end(head, p) + 2 <= head.len(),
    decreases head.len() - p,
{
    if !(p >= head.len() || ends_line(head, p)) {
        lemma_line_end(head, p + 1);
    }
}

/// A letter in lower case.
fn to_lower(b: u8) -> (r: u8)
    ensures
        r == lower(b),
{
    if 0x41 <= b && b <= 0x5a {
        b + 0x20
    } else {
        b
    }
}

/// Whether a line gives the length of the body.
fn is_length_line(line: &[u8]) -> (yes: bool)
    ensures
        yes == gives_length(line@),
{
    if line.len() < 15 {
        return false;
    }
    let mut i: usize = 0;
    while i < 15
        invariant
            i <= 15,
            line@.len() >= 15,
            forall|j: int| 0 <= j < i ==> lower(#[trigger] line@[j]) == LENGTH_FIELD[j],
        decreases 15 - i,
    {
        if to_lower(line[i]) != LENGTH_FIELD[i] {
            assert(lower(line@[i as int]) != LENGTH_FIELD[i as int]);
            return false;
        }
        i = i + 1;
    }
    true
}

proof fn lemma_decimal_grows(s: Seq<u8>, i: int)
    requires
        0 <= i <= s.len(),
        forall|j: int| 0 <= j < s.len() ==> ZERO <= #[trigger] s[j] <= NINE,
    ensures
        0 <= decimal(s.take(i)) <= decimal(s),
    decreases s.len(),
{
    if i == s.len() {
        assert(s.take(i) =~= s);
        if s.len() > 0 {
            lemma_decimal_grows(s.drop_last(), s.len() - 1);
        }
    } else {
        lemma_decimal_grows(s.drop_last(), i);
        assert(s.drop_last().take(i) =~= s.take(i));
        assert(s[s.len() - 1] >= ZERO);
    }
}

/// The number that digits write, where they are digits and it fits.
fn parse_digits(s: &[u8]) -> (r: Option<usize>)
    ensures
        r matches Some(n) ==> all_digits(s@) && n == decimal(s@),
        r is None ==> !all_digits(s@) || decimal(s@) > usize::MAX,
{
    if s.len() == 0 {
        return None;
    }
    let mut n: usize = 0;
    let mut i: usize = 0;
    let mut over: bool = false;
    assert(s@.take(0) =~= Seq::empty());
    while i < s.len()
        invariant
            i <= s@.len(),
            s@.len() > 0,
            forall|j: int| 0 <= j < i ==> ZERO <= #[trigger] s@[j] <= NINE,
            !over ==> n == decimal(s@.take(i as int)),
            over ==> decimal(s@.take(i as int)) > usize::MAX,
        decreases s@.len() - i,
    {
        let b: u8 = s[i];
        if b < ZERO || b > NINE {
            assert(!(ZERO <= s@[i as int] <= NINE));
            return None;
        }
        let d: usize = (b - ZERO) as usize;
        proof {
            let all = s@.take(i + 1);
            assert(all.drop_last() =~= s@.take(i as int));
            lemma_decimal_grows(all, i as int);
            assert(all.take(i as int) =~= s@.take(i as int));
        }
        if !over {
            match n.checked_mul(10) {
                Some(t) => match t.checked_add(d) {
                    Some(u) => {
                        n = u;
                    },
                    None => {
                        over = true;
                    },
                },
                None => {
                    over = true;
                },
            }
        }
        i = i + 1;
    }
    assert(s@.take(s@.len() as int) =~= s@);
    if over {
        None
    } else {
        Some(n)
    }
}

/// The length that a line gives.
fn parse_length(line: &[u8]) -> (r: Option<usize>)
    requires
        line@.len() >= 15,
    ensures
        length_in(line@) == match r {
            Some(n) => Some(n as int),
            None => None,
        },
{
    let ghost value = line@.skip(15);
    let mut a: usize = 15;
    let mut z: usize = line.len();
    assert(line@.subrange(15, line@.len() as int) =~= value);
    while a < z && (line[a] == 0x20 || line[a] == 0x09)
        invariant
            15 <= a <= z,
            z == line@.len(),
            trim_start(value) == trim_start(line@.subrange(a as int, z as int)),
        decreases z - a,
    {
        assert(line@.subrange(a as int, z as int).drop_first() =~= line@.subrange(
            a + 1,
            z as int,
        ));
        a = a + 1;
    }
    let ghost rest = line@.subrange(a as int, z as int);
    assert(trim_start(value) == rest);
    while a < z && (line[z - 1] == 0x20 || line[z - 1] == 0x09)
        invariant
            a <= z <= line@.len(),
            trim_end(rest) == trim_end(line@.subrange(a as int, z as int)),
        decreases z - a,
    {
        assert(line@.subrange(a as int, z as int).drop_last() =~= line@.subrange(
            a as int,
            z - 1,
        ));
        z = z - 1;
    }
    parse_digits(slice_subrange(line, a, z))
}

/// Reads the length of the body off a head.
pub fn parse_content_length(head: &[u8]) -> (r: Option<usize>)
    ensures
        content_length(head@) == match r {
            Some(n) => Some(n as int),
            None => None,
        },
{
    let len: usize = head.len();
    let mut p: usize = 0;
    proof {
        reveal(content_length);
    }
    while p < len
        invariant
            len == head@.len(),
            p <= len,
            content_length(head@) == length_from(head@, p as int),
        decreases len - p,
    {
        let mut e: usize = p;
        while e < len && !(len - e > 1 && head[e] == LINE_END[0] && head[e + 1] == LINE_END[1])
            invariant
                len == head@.len(),
                p <= e <= len,
                line_end(head@, p as int) == line_end(head@, e as int),
            decreases len - e,
        {
            e = e + 1;
        }
        proof {
            lemma_line_end(head@, p as int);
        }
        let line = slice_subrange(head, p, e);
        if is_length_line(line) {
            return parse_length(line);
        }
        proof {
            assert(length_from(head@, p as int) == length_from(head@, e + 2));
            if e >= len {
                assert(length_from(head@, e + 2) is None);
                assert(length_from(head@, len as int) is None);
            }
        }
        p = if e < len {
            e + 2
        } else {
            len
        };
    }
    None
}

/// The buffers of a connection.
pub struct ConnBuf {
    pub read: Vec<u8>,
    pub write: Vec<u8>,
}

/// Buffers that are not in use.
pub struct BufPool {
    pub free: Vec<ConnBuf>,
}

/// How many buffers a pool starts with.
pub const POOL_SIZE: usize = 16;

/// How much a read buffer has room for at first.
pub const READ_CAP: usize = 8192;

/// How much a write buffer has room for at first.
pub const WRITE_CAP: usize = 128;

impl ConnBuf {
    /// Whether there is nothing in the buffers.
    pub open spec fn is_clear(self) -> bool {
        self.read@.len() == 0 && self.write@.len() == 0
    }

    /// New buffers.
    fn fresh() -> (buf: ConnBuf)
        ensures
            buf.is_clear(),
    {
        ConnBuf { read: Vec::with_capacity(READ_CAP), write: Vec::with_capacity(WRITE_CAP) }
    }

    /// Takes buffers out of the pool; makes new ones where it has none left.
    pub fn acquire(pool: &mut BufPool) -> (buf: ConnBuf)
        requires
            old(pool).wf(),
        ensures
            final(pool).wf(),
            buf.is_clear(),
            old(pool).free@.len() > 0 ==> final(pool).free@ == old(pool).free@.drop_last() && buf
                == old(pool).free@.last(),
            old(pool).free@.len() == 0 ==> final(pool).free@ == old(pool).free@,
    {
        match pool.free.pop() {
            Some(buf) => {
                assert(buf == old(pool).free@[old(pool).free@.len() - 1]);
                buf
            },
            None => Self::fresh(),
        }
    }

    /// Empties the buffers and puts them back into the pool.
    pub fn release(self, pool: &mut BufPool)
        requires
            old(pool).wf(),
        ensures
            final(pool).wf(),
            final(pool).free@.len() == old(pool).free@.len() + 1,
            final(pool).free@.drop_last() == old(pool).free@,
    {
        let mut read = self.read;
        let mut write = self.write;
        read.clear();
        write.clear();
        pool.free.push(ConnBuf { read, write });
        assert(pool.free@.drop_last() =~= old(pool).free@);
    }
}

impl BufPool {
    /// Whether all buffers in the pool are empty.
    pub open spec fn wf(self) -> bool {
        forall|i: int| 0 <= i < self.free@.len() ==> (#[trigger] self.free@[i]).is_clear()
    }

    /// A pool with its first buffers.
    pub fn new() -> (pool: BufPool)
        ensures
            pool.wf(),
            pool.free@.len() == POOL_SIZE,
            pool.free@.len() == 16,
    {
        let mut free: Vec<ConnBuf> = Vec::new();
        let mut i: usize = 0;
        while i < POOL_SIZE
            invariant
                i <= POOL_SIZE,
                free@.len() == i,
                forall|j: int| 0 <= j < i ==> (#[trigger] free@[j]).is_clear(),
            decreases POOL_SIZE - i,
        {
            free.push(ConnBuf::fresh());
            i = i + 1;
        }
        BufPool { free }
    }
}

/// Whatever a tree index predicts has an answer.
pub proof fn every_prediction_has_an_answer(frauds: usize)
    requires
        frauds <= K,
    ensures
        frauds < RESPONSES@.len(),
{
}

} // verus!
