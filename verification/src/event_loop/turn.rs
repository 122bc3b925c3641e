//! What follows from an event.
use vstd::prelude::*;

use crate::event_loop::conn::{ReadResult, SendResult};

verus! {

/// What an event is about.
#[derive(Clone, Copy, PartialEq, Eq, Structural, Debug)]
pub enum Task {
    /// Descriptors were handed over: take them in.
    Inject,
    /// Somebody wants to connect: accept them.
    Accept,
    /// The other side hung up, or the connection failed: drop it.
    Drop,
    /// A connection can be read or written: serve it.
    Serve,
}

/// What an event on a descriptor is about.
pub fn task_for(fd: i32, notify: i32, listener: i32, hung_up: bool) -> (t: Task)
    ensures
        t == if fd == notify {
            Task::Inject
        } else if fd == listener {
            Task::Accept
        } else if hung_up {
            Task::Drop
        } else {
            Task::Serve
        },
{
    if fd == notify {
        Task::Inject
    } else if fd == listener {
        Task::Accept
    } else if hung_up {
        Task::Drop
    } else {
        Task::Serve
    }
}

/// Where serving a connection stands.
#[derive(Clone, Copy, PartialEq, Eq, Structural, Debug)]
pub enum Stage {
    /// Read, once.
    Read,
    /// Send the answer to what was just read.
    Reply,
    /// Go on sending an answer that did not fit before.
    Write,
    /// Nothing is left to do.
    End,
}

/// What to do about the connection.
#[derive(Clone, Copy, PartialEq, Eq, Structural, Debug)]
pub enum Effect {
    Nothing,
    /// Watch it for input only.
    WatchRead,
    /// Watch it for output too.
    WatchWrite,
    /// Drop it.
    Drop,
}

/// Where serving goes on when reading is done with.
pub open spec fn then_write(writable: bool) -> Stage {
    if writable {
        Stage::Write
    } else {
        Stage::End
    }
}

/// Where serving a connection begins.
pub fn begin(readable: bool, writable: bool) -> (s: Stage)
    ensures
        s == if readable {
            Stage::Read
        } else {
            then_write(writable)
        },
        readable ==> s == Stage::Read,
        !readable && writable ==> s == Stage::Write,
        !readable && !writable ==> s == Stage::End,
{
    if readable {
        Stage::Read
    } else if writable {
        Stage::Write
    } else {
        Stage::End
    }
}

/// What follows from a read.
pub fn after_read(r: ReadResult, writable: bool) -> (next: (Stage, Effect))
    ensures
        next == match r {
            ReadResult::Close => (Stage::End, Effect::Drop),
            ReadResult::Wait => (then_write(writable), Effect::Nothing),
            ReadResult::Respond => (Stage::Reply, Effect::Nothing),
        },
        r == ReadResult::Wait && writable ==> next.0 == Stage::Write,
        r == ReadResult::Wait && !writable ==> next.0 == Stage::End,
{
    match r {
        ReadResult::Close => (Stage::End, Effect::Drop),
        ReadResult::Wait => (begin(false, writable), Effect::Nothing),
        ReadResult::Respond => (Stage::Reply, Effect::Nothing),
    }
}

/// What follows from sending, at the stage of a reply or a write.
pub fn after_send(stage: Stage, r: SendResult, writable: bool) -> (next: (Stage, Effect))
    requires
        stage == Stage::Reply || stage == Stage::Write,
    ensures
        r == SendResult::Error ==> next == (Stage::End, Effect::Drop),
        stage == Stage::Reply && r == SendResult::Done ==> next == (
            then_write(writable),
            Effect::Nothing,
        ),
        stage == Stage::Reply && r == SendResult::Partial ==> next == (
            then_write(writable),
            Effect::WatchWrite,
        ),
        stage == Stage::Write && r == SendResult::Done ==> next == (
            Stage::End,
            Effect::WatchRead,
        ),
        stage == Stage::Write && r == SendResult::Partial ==> next == (
            Stage::End,
            Effect::Nothing,
        ),
        stage == Stage::Reply && r != SendResult::Error && writable ==> next.0 == Stage::Write,
        stage == Stage::Reply && r != SendResult::Error && !writable ==> next.0 == Stage::End,
{
    match r {
        SendResult::Error => (Stage::End, Effect::Drop),
        SendResult::Done => if stage == Stage::Reply {
            (begin(false, writable), Effect::Nothing)
        } else {
            (Stage::End, Effect::WatchRead)
        },
        SendResult::Partial => if stage == Stage::Reply {
            (begin(false, writable), Effect::WatchWrite)
        } else {
            (Stage::End, Effect::Nothing)
        },
    }
}

} // verus!
