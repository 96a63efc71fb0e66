//! Draining a terminal, so that it can be handed over.
//!
//! Exactly one process may read a terminal at a time. So whoever drains one can be told to
//! pause, and acknowledges that it has stopped before anybody else starts. It waits for output
//! with a limit rather than for ever, so that a pause is noticed though nothing is printed.

use vstd::prelude::*;

verus! {

/// How long to wait for output before looking whether to pause, in millis.
pub const POLL_MS: u64 = 100;

/// How a wait for output ended.
#[derive(Debug, Clone, Copy, PartialEq, Eq, Structural)]
pub enum Waited {
    /// There is something to read.
    Ready,
    /// There is not.
    Quiet,
    Interrupted,
    Failed,
}

/// How a reading ended.
#[derive(Debug, Clone, Copy, PartialEq, Eq, Structural)]
pub enum ReadEnd {
    /// Nothing will come any more.
    End,
    /// There was something.
    Bytes,
    Interrupted,
    Failed,
}

/// What a reader has found out.
#[derive(Debug, Clone, Copy, PartialEq, Eq, Structural)]
pub enum Found {
    /// At the head of a round: whether to stop, and whether to pause.
    Flags { stop: bool, pause: bool },
    Wait(Waited),
    /// Between waiting and reading: whether to pause.
    Again { pause: bool },
    Read(ReadEnd),
    /// What was read was passed on, or there is nobody to pass it to.
    Passed { taken: bool },
}

/// What a reader does next.
#[derive(Debug, Clone, Copy, PartialEq, Eq, Structural)]
pub enum Move {
    /// Look at the flags.
    Look,
    /// Rest a little, and look at the flags.
    Rest,
    /// Wait for output.
    Wait,
    /// Look again whether to pause, as that may have come while waiting: reading now would take
    /// from whoever reads next.
    LookAgain,
    Read,
    PassOn,
    Stop,
}

/// A reader's acknowledgement that it is not reading.
#[derive(Debug, Clone, Copy, PartialEq, Eq, Structural)]
pub struct ReaderState {
    pub idle: bool,
}

/// What a reader does next, and whether it says that it is not reading.
pub open spec fn moved(s: ReaderState, f: Found) -> (ReaderState, Move) {
    let idle = ReaderState { idle: true };
    match f {
        Found::Flags { stop: true, .. } => (idle, Move::Stop),
        Found::Flags { stop: false, pause: true } => (idle, Move::Rest),
        Found::Flags { stop: false, pause: false } => (s, Move::Wait),
        Found::Wait(Waited::Ready) => (s, Move::LookAgain),
        Found::Wait(Waited::Quiet) => (idle, Move::Look),
        Found::Wait(Waited::Interrupted) => (s, Move::Look),
        Found::Wait(Waited::Failed) => (idle, Move::Stop),
        Found::Again { pause: true } => (idle, Move::Look),
        Found::Again { pause: false } => (ReaderState { idle: false }, Move::Read),
        Found::Read(ReadEnd::End) => (idle, Move::Stop),
        Found::Read(ReadEnd::Failed) => (idle, Move::Stop),
        Found::Read(ReadEnd::Interrupted) => (s, Move::Look),
        Found::Read(ReadEnd::Bytes) => (s, Move::PassOn),
        Found::Passed { taken: true } => (s, Move::Look),
        Found::Passed { taken: false } => (idle, Move::Stop),
    }
}

impl ReaderState {
    /// A reader that has not said anything.
    pub fn new() -> (r: ReaderState)
        ensures
            r == (ReaderState { idle: false }),
    {
        ReaderState { idle: false }
    }

    /// Decide what to do next.
    pub fn step(&mut self, f: Found) -> (r: Move)
        ensures
            (*final(self), r) == moved(*old(self), f),
    {
        match f {
            Found::Flags { stop, pause } => {
                if stop {
                    self.idle = true;
                    Move::Stop
                } else if pause {
                    self.idle = true;
                    Move::Rest
                } else {
                    Move::Wait
                }
            },
            Found::Wait(w) => match w {
                Waited::Ready => Move::LookAgain,
                Waited::Quiet => {
                    self.idle = true;
                    Move::Look
                },
                Waited::Interrupted => Move::Look,
                Waited::Failed => {
                    self.idle = true;
                    Move::Stop
                },
            },
            Found::Again { pause } => {
                if pause {
                    self.idle = true;
                    Move::Look
                } else {
                    self.idle = false;
                    Move::Read
                }
            },
            Found::Read(e) => match e {
                ReadEnd::End => {
                    self.idle = true;
                    Move::Stop
                },
                ReadEnd::Failed => {
                    self.idle = true;
                    Move::Stop
                },
                ReadEnd::Interrupted => Move::Look,
                ReadEnd::Bytes => Move::PassOn,
            },
            Found::Passed { taken } => {
                if taken {
                    Move::Look
                } else {
                    self.idle = true;
                    Move::Stop
                }
            },
        }
    }
}

/// The exit status of a process that is not this one's child, as far as it can be told. It is
/// alive if it can be signalled, or if that is merely not allowed; once it is gone its status
/// cannot be known.
pub fn adopted_exit(signalled: bool, denied: bool) -> (r: Option<i32>)
    ensures
        r == (if signalled || denied {
            None
        } else {
            Some(0i32)
        }),
{
    if signalled || denied {
        None
    } else {
        Some(0)
    }
}

// -- laws --------------------------------------------------------------------

/// Nothing is read while a reader says that it is not reading: to read it takes that back.
pub proof fn law_a_reader_that_is_idle_does_not_read(s: ReaderState, f: Found)
    ensures
        moved(s, f).1 == Move::Read ==> !moved(s, f).0.idle,
{
}

/// A pause that has been seen is acknowledged, and not followed by a reading.
pub proof fn law_a_pause_is_acknowledged(s: ReaderState, f: Found)
    requires
        f == (Found::Flags { stop: false, pause: true }) || f == (Found::Again { pause: true }),
    ensures
        moved(s, f).0.idle,
        moved(s, f).1 != Move::Read,
        moved(s, f).1 != Move::Wait,
{
}

/// A reader that stops says that it is not reading.
pub proof fn law_a_stopped_reader_is_idle(s: ReaderState, f: Found)
    ensures
        moved(s, f).1 == Move::Stop ==> moved(s, f).0.idle,
{
}

/// Between waiting and reading a reader always looks again whether to pause.
pub proof fn law_reading_is_always_rechecked(s: ReaderState, f: Found)
    ensures
        moved(s, f).1 == Move::Read ==> f == (Found::Again { pause: false }),
{
}

} // verus!
