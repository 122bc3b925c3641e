//! Telling from an answer whether the server is up.
use vstd::prelude::*;

verus! {

/// What is asked: a readiness probe.
pub const PROBE: &'static str = "GET /ready HTTP/1.1\r\nHost: hc\r\nConnection: close\r\n\r\n";

/// Whether an answer is a success: its status, behind the protocol and a
/// blank, is 200.
pub open spec fn is_success(answer: Seq<u8>) -> bool {
    answer.len() >= 12 && answer[9] == 0x32 && answer[10] == 0x30 && answer[11] == 0x30
}

/// Whether the first `n` bytes that came are those of a success.
pub fn is_healthy(buf: &[u8], n: usize) -> (yes: bool)
    requires
        n <= buf@.len(),
    ensures
        yes == is_success(buf@.take(n as int)),
        yes == (n >= 12 && buf@.subrange(9, 12) == seq![0x32u8, 0x30, 0x30]),
{
    proof {
        let status: Seq<u8> = seq![0x32u8, 0x30, 0x30];
        if n >= 12 {
            let got = buf@.subrange(9, 12);
            assert(got[0] == buf@[9] && got[1] == buf@[10] && got[2] == buf@[11]);
            if buf@[9] == 0x32 && buf@[10] == 0x30 && buf@[11] == 0x30 {
                assert(got =~= status);
            } else if got == status {
                assert(got[0] == 0x32 && got[1] == 0x30 && got[2] == 0x30);
            }
        }
    }
    n >= 12 && buf[9] == 0x32 && buf[10] == 0x30 && buf[11] == 0x30
}

} // verus!
