//! Handing connections out to two servers in turn.
use vstd::prelude::*;

verus! {

/// How often a server is tried before it is given up.
pub const TRIES: u32 = 50;

/// The milliseconds between two tries.
pub const WAIT_MS: u64 = 100;

/// Whose turn it is.
pub struct RoundRobin {
    pub turn: usize,
}

/// The server whose turn it is.
pub open spec fn server_for(turn: usize) -> int {
    turn as int % 2
}

/// The turn that follows another.
pub open spec fn next_turn(turn: usize) -> usize {
    if turn == usize::MAX {
        0
    } else {
        (turn + 1) as usize
    }
}

impl RoundRobin {
    /// Begins with the first server.
    pub fn new() -> (r: RoundRobin)
        ensures
            r.turn == 0,
    {
        RoundRobin { turn: 0 }
    }

    /// The server whose turn it is; then it is the other's.
    pub fn pick(&mut self) -> (slot: usize)
        ensures
            slot == server_for(old(self).turn),
            final(self).turn == next_turn(old(self).turn),
    {
        let slot: usize = self.turn % 2;
        self.turn = self.turn.wrapping_add(1);
        slot
    }
}

/// The server to try where one does not take a connection.
pub fn other(slot: usize) -> (r: usize)
    requires
        slot < 2,
    ensures
        r == 1 - slot,
{
    1 - slot
}

/// Whether to try a server once more after `failed` tries: how many milliseconds
/// to wait behind that try if it fails too, or nothing where the server is given
/// up.
pub fn next_try(failed: u32) -> (wait_ms: Option<u64>)
    ensures
        wait_ms == if failed < TRIES {
            Some(WAIT_MS)
        } else {
            None
        },
        wait_ms is Some <==> failed < 50,
        wait_ms matches Some(ms) ==> ms == 100,
{
    if failed < TRIES {
        Some(WAIT_MS)
    } else {
        None
    }
}

/// The servers take turns, also where the count of turns starts over.
pub proof fn picks_alternate(turn: usize)
    ensures
        0 <= server_for(turn) <= 1,
        server_for(next_turn(turn)) == 1 - server_for(turn),
        server_for(0) == 0,
{
    assert(usize::MAX as int % 2 == 1) by {
        assert(usize::MAX == 0xffff_ffff || usize::MAX == 0xffff_ffff_ffff_ffff);
    }
}

} // verus!
