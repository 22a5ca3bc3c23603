//! The relay that follows a WebSocket upgrade: which answers of the
//! upstream open a tunnel, and when a tunnel that has gone quiet is shut.

use vstd::prelude::*;

verus! {

/// The status with which an upstream accepts an upgrade.
pub const SWITCHING_PROTOCOLS: u16 = 101;

/// How many rounds without a byte a tunnel survives once one side has
/// closed.
pub const IDLE_LIMIT: u32 = 1200;

/// Whether the upstream's answer opens a tunnel; any other answer is
/// relayed as an ordinary response.
pub fn opens_tunnel(status: u16) -> (r: bool)
    ensures
        r == (status == SWITCHING_PROTOCOLS),
{
    status == SWITCHING_PROTOCOLS
}

/// The kinds of I/O failure that the relay tells apart.
#[derive(Clone, Copy, Debug, PartialEq, Eq, Structural)]
pub enum IoKind {
    WouldBlock,
    TimedOut,
    Interrupted,
    BrokenPipe,
    ConnectionReset,
    ConnectionAborted,
    NotConnected,
    UnexpectedEof,
    Other,
}

impl IoKind {
    /// Whether a read that failed this way is simply tried again.
    pub open spec fn retryable(self) -> bool {
        self == IoKind::WouldBlock || self == IoKind::TimedOut || self == IoKind::Interrupted
    }

    pub fn is_retryable(self) -> (r: bool)
        ensures
            r == self.retryable(),
    {
        match self {
            IoKind::WouldBlock => true,
            IoKind::TimedOut => true,
            IoKind::Interrupted => true,
            _ => false,
        }
    }
}

/// What one attempt to read from a side gave.
#[derive(Clone, Copy, Debug, PartialEq, Eq, Structural)]
pub enum ReadOutcome {
    /// Bytes came, and were written to the other side.
    Data,
    /// The side has ended its stream.
    Eof,
    /// The read failed.
    Failed(IoKind),
    /// The side is closed and was not read.
    Skipped,
}

impl ReadOutcome {
    /// Whether the side stays open after this outcome: it does after bytes
    /// and after a failure that is tried again.
    pub open spec fn leaves_open(self) -> bool {
        match self {
            ReadOutcome::Data => true,
            ReadOutcome::Failed(kind) => kind.retryable(),
            _ => false,
        }
    }
}

/// The state of a tunnel between two rounds.
#[derive(Clone, Copy, Debug, PartialEq, Eq, Structural)]
pub struct PumpState {
    pub client_open: bool,
    pub upstream_open: bool,
    /// Rounds in a row in which no byte moved.
    pub idle: u32,
}

/// The state after a round in which the two sides gave these outcomes. A
/// side stays open only if it was open and its outcome leaves it so; the
/// idle count starts over when a byte has moved, and grows otherwise.
pub open spec fn after_round(s: PumpState, client: ReadOutcome, upstream: ReadOutcome) -> PumpState {
    let moved = (s.client_open && client == ReadOutcome::Data) || (s.upstream_open && upstream
        == ReadOutcome::Data);
    PumpState {
        client_open: s.client_open && client.leaves_open(),
        upstream_open: s.upstream_open && upstream.leaves_open(),
        idle: if moved {
            0
        } else if s.idle < u32::MAX {
            (s.idle + 1) as u32
        } else {
            s.idle
        },
    }
}

/// Whether a tunnel in this state is shut: a side has closed, and no byte
/// has moved for `IDLE_LIMIT` rounds.
pub open spec fn is_finished(s: PumpState) -> bool {
    (!s.client_open || !s.upstream_open) && s.idle >= IDLE_LIMIT
}

impl PumpState {
    /// The state of a tunnel that has just been opened.
    pub fn new() -> (r: Self)
        ensures
            r == (PumpState { client_open: true, upstream_open: true, idle: 0 }),
    {
        PumpState { client_open: true, upstream_open: true, idle: 0 }
    }

    /// Takes in the outcomes of one round. Returns whether the tunnel is
    /// to be shut.
    pub fn step(&mut self, client: ReadOutcome, upstream: ReadOutcome) -> (shut: bool)
        ensures
            *final(self) == after_round(*old(self), client, upstream),
            shut == is_finished(*final(self)),
    {
        let client_data = match client {
            ReadOutcome::Data => true,
            _ => false,
        };
        let upstream_data = match upstream {
            ReadOutcome::Data => true,
            _ => false,
        };
        let moved = (self.client_open && client_data) || (self.upstream_open && upstream_data);
        let client_stays = match client {
            ReadOutcome::Data => true,
            ReadOutcome::Failed(kind) => kind.is_retryable(),
            _ => false,
        };
        let upstream_stays = match upstream {
            ReadOutcome::Data => true,
            ReadOutcome::Failed(kind) => kind.is_retryable(),
            _ => false,
        };
        self.client_open = self.client_open && client_stays;
        self.upstream_open = self.upstream_open && upstream_stays;
        if moved {
            self.idle = 0;
        } else if self.idle < u32::MAX {
            self.idle = self.idle + 1;
        }
        (!self.client_open || !self.upstream_open) && self.idle >= IDLE_LIMIT
    }
}

/// A tunnel whose sides are both open is never shut, however long it is
/// quiet.
pub proof fn lemma_open_tunnel_stays(s: PumpState)
    requires
        s.client_open,
        s.upstream_open,
    ensures
        !is_finished(s),
{
}

/// A round in which a byte moves leaves the tunnel running.
pub proof fn lemma_progress_keeps_running(s: PumpState, client: ReadOutcome, upstream: ReadOutcome)
    requires
        (s.client_open && client == ReadOutcome::Data) || (s.upstream_open && upstream
            == ReadOutcome::Data),
    ensures
        !is_finished(after_round(s, client, upstream)),
{
}

} // verus!
