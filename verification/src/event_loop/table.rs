//! The connections there are: those in use, by descriptor, and those waiting to
//! be used.
use vstd::prelude::*;

use crate::event_loop::conn::{scores, Conn, Got, ReadResult};

verus! {

/// How many descriptors can be served.
pub const MAX_FDS: usize = 4096;

/// How many bytes of a request a connection has room for.
pub const BUF_CAP: usize = 8192;

/// The connections.
pub struct Table {
    pub active: Vec<Option<Conn>>,
    pub pool: Vec<Conn>,
}

/// How many of the first `n` slots are taken.
pub open spec fn taken(active: Seq<Option<Conn>>, n: nat) -> nat
    decreases n,
{
    if n == 0 {
        0
    } else {
        taken(active, (n - 1) as nat) + if active[n - 1] is Some {
            1nat
        } else {
            0nat
        }
    }
}

/// Whether a connection is what all of them are: well formed and of one size.
pub open spec fn conn_ok(c: Conn) -> bool {
    c.wf() && c.rbuf@.len() == BUF_CAP
}

/// Whether there is a slot for a descriptor.
pub open spec fn has_slot(fd: i32) -> bool {
    0 <= fd < MAX_FDS
}

impl Table {
    /// A slot per descriptor, and connections of one size.
    pub open spec fn wf(self) -> bool {
        &&& self.active@.len() == MAX_FDS
        &&& forall|i: int|
            0 <= i < self.active@.len() ==> (#[trigger] self.active@[i] matches Some(c)
                ==> conn_ok(c))
        &&& forall|i: int| 0 <= i < self.pool@.len() ==> conn_ok(#[trigger] self.pool@[i])
    }

    /// How many connections there are, in use or not.
    pub open spec fn total(self) -> nat {
        taken(self.active@, self.active@.len()) + self.pool@.len()
    }

    /// How many bytes the connection of a descriptor has room for; nothing where
    /// it has none, or there is no room.
    pub open spec fn room_at(self, fd: i32) -> Option<nat> {
        if !has_slot(fd) {
            None
        } else {
            match self.active@[fd as int] {
                Some(c) => if c.filled < c.rbuf@.len() {
                    Some((c.rbuf@.len() - c.filled) as nat)
                } else {
                    None
                },
                None => None,
            }
        }
    }

    /// Connections for all descriptors, none in use.
    pub fn new() -> (t: Table)
        ensures
            t.wf(),
            t.pool@.len() == MAX_FDS,
            forall|i: int| 0 <= i < MAX_FDS ==> #[trigger] t.active@[i] is None,
            t.total() == MAX_FDS,
            t.pool@.len() == 4096,
            t.active@.len() == 4096,
            forall|i: int| 0 <= i < 4096 ==> (#[trigger] t.pool@[i]).rbuf@.len() == 8192,
    {
        let mut active: Vec<Option<Conn>> = Vec::new();
        let mut pool: Vec<Conn> = Vec::new();
        let mut i: usize = 0;
        while i < MAX_FDS
            invariant
                i <= MAX_FDS,
                active@.len() == i,
                pool@.len() == i,
                forall|j: int| 0 <= j < i ==> #[trigger] active@[j] is None,
                forall|j: int| 0 <= j < i ==> conn_ok(#[trigger] pool@[j]),
            decreases MAX_FDS - i,
        {
            active.push(None);
            pool.push(Conn::with_capacity(BUF_CAP));
            i = i + 1;
        }
        let t = Table { active, pool };
        proof {
            lemma_none_taken(t.active@, t.active@.len());
        }
        t
    }

    /// Gives a new descriptor a connection from the pool; says whether it got
    /// one.
    pub fn occupy(&mut self, fd: i32) -> (yes: bool)
        requires
            old(self).wf(),
        ensures
            final(self).wf(),
            yes == (has_slot(fd) && old(self).pool@.len() > 0),
            yes == (0 <= fd < 4096 && old(self).pool@.len() > 0),
            !yes ==> *final(self) == *old(self),
            yes ==> {
                let slot = final(self).active@[fd as int];
                &&& slot matches Some(c) && c.is_idle() && c.rbuf@ == old(
                    self,
                ).pool@.last().rbuf@
                &&& final(self).active@ == old(self).active@.update(fd as int, slot)
                &&& final(self).pool@ == old(self).pool@.drop_last()
                &&& old(self).active@[fd as int] is None ==> final(self).total() == old(
                    self,
                ).total()
            },
    {
        if fd < 0 || fd as usize >= MAX_FDS || self.pool.len() == 0 {
            return false;
        }
        let at: usize = fd as usize;
        match self.pool.pop() {
            Some(c) => {
                let mut conn = c;
                assert(conn_ok(old(self).pool@[old(self).pool@.len() - 1]));
                conn.reset();
                let slot = Some(conn);
                self.active.set(at, slot);
                proof {
                    lemma_taken_update(old(self).active@, at as int, slot, self.active@.len());
                }
                true
            },
            None => false,
        }
    }

    /// How many bytes may be received for a descriptor. Where there is no
    /// connection, or no room, nothing is to be received.
    pub fn before_read(&self, fd: i32) -> (room: Option<usize>)
        requires
            self.wf(),
        ensures
            room matches Some(n) ==> n > 0 && self.room_at(fd) == Some(n as nat),
            room is None ==> self.room_at(fd) is None,
            room matches Some(n) ==> 0 <= fd < 4096 && (self.active@[fd as int] matches Some(c)
                && c.filled + n == 8192),
            room is None ==> !(0 <= fd < 4096) || self.active@[fd as int] is None
                || self.active@[fd as int]->0.filled == 8192,
    {
        if fd < 0 || fd as usize >= MAX_FDS {
            return None;
        }
        match &self.active[fd as usize] {
            Some(c) => {
                assert(conn_ok(*c));
                let room: usize = c.room();
                if room > 0 {
                    Some(room)
                } else {
                    None
                }
            },
            None => None,
        }
    }

    /// Takes what came of an attempt to receive for a descriptor; there is none
    /// where nothing was to be received, and the connection is to be closed.
    pub fn after_read<S: Fn(&[u8]) -> Option<usize>>(
        &mut self,
        fd: i32,
        got: Option<Got>,
        score: &S,
    ) -> (r: ReadResult)
        requires
            old(self).wf(),
            scores(*score),
            got is Some <==> old(self).room_at(fd) is Some,
            got matches Some(Got::Bytes(n)) ==> (old(self).room_at(fd) matches Some(room) && 0 < n
                <= room),
        ensures
            final(self).wf(),
            final(self).pool == old(self).pool,
            match got {
                Some(what) => {
                    let before = old(self).active@[fd as int];
                    let after = final(self).active@[fd as int];
                    &&& final(self).active@ == old(self).active@.update(fd as int, after)
                    &&& before is Some
                    &&& after is Some
                    &&& after->0.took(before->0, what, *score, r)
                },
                None => r == ReadResult::Close && *final(self) == *old(self),
            },
    {
        let what = match got {
            Some(what) => what,
            None => {
                return ReadResult::Close;
            },
        };
        let at: usize = fd as usize;
        let slot = self.active[at].take();
        match slot {
            Some(c) => {
                let mut conn = c;
                assert(conn_ok(old(self).active@[at as int].unwrap()));
                let r = conn.received(what, score);
                self.active.set(at, Some(conn));
                assert(self.active@ =~= old(self).active@.update(
                    at as int,
                    self.active@[at as int],
                ));
                r
            },
            None => ReadResult::Close,
        }
    }

    /// Takes the connection of a descriptor back into the pool, where it has
    /// one.
    pub fn release(&mut self, fd: i32)
        requires
            old(self).wf(),
        ensures
            final(self).wf(),
            final(self).total() == old(self).total(),
            match if has_slot(fd) {
                old(self).active@[fd as int]
            } else {
                None
            } {
                Some(c) => {
                    let back = final(self).pool@.last();
                    &&& final(self).active@ == old(self).active@.update(fd as int, None)
                    &&& final(self).pool@ == old(self).pool@.push(back)
                    &&& back.is_idle()
                    &&& back.rbuf@ == c.rbuf@
                },
                None => *final(self) == *old(self),
            },
    {
        if fd < 0 || fd as usize >= MAX_FDS {
            return ;
        }
        let at: usize = fd as usize;
        if self.active[at].is_none() {
            return ;
        }
        let slot = self.active[at].take();
        assert(self.active@ =~= old(self).active@.update(at as int, None));
        match slot {
            Some(c) => {
                let mut conn = c;
                assert(conn_ok(old(self).active@[at as int].unwrap()));
                conn.reset();
                self.pool.push(conn);
                proof {
                    lemma_taken_update(old(self).active@, at as int, None, self.active@.len());
                }
            },
            None => {},
        }
    }
}

proof fn lemma_none_taken(active: Seq<Option<Conn>>, n: nat)
    requires
        n <= active.len(),
        forall|j: int| 0 <= j < active.len() ==> #[trigger] active[j] is None,
    ensures
        taken(active, n) == 0,
    decreases n,
{
    if n > 0 {
        lemma_none_taken(active, (n - 1) as nat);
    }
}

/// A slot that changes hands counts once.
proof fn lemma_taken_update(active: Seq<Option<Conn>>, at: int, slot: Option<Conn>, n: nat)
    requires
        0 <= at < active.len(),
        n <= active.len(),
    ensures
        taken(active.update(at, slot), n) == taken(active, n) + if at < n {
            (if slot is Some {
                1int
            } else {
                0
            }) - (if active[at] is Some {
                1int
            } else {
                0
            })
        } else {
            0
        },
    decreases n,
{
    if n > 0 {
        lemma_taken_update(active, at, slot, (n - 1) as nat);
    }
}

} // verus!
