//! The handshake that brings the device into its bootloader and in step
//! with the client: reset by the control lines, sync, and the replies that a
//! synced device sends on.

use vstd::prelude::*;
use crate::exchange::{Exchange, Step, Timeout, MAX_ATTEMPTS};
use crate::framing::{decode, decoded};
use crate::loader::{Packet, Request};
use crate::packet::{header_of, parse_response, Command};

verus! {

/// Times that the cycle of reset and sync is run before the handshake fails.
pub const MAX_CYCLES: u8 = 10;

/// Replies that a synced device sends on after the first: each must be read
/// before the next command, or it would be taken for that command's answer.
pub const SYNC_REPLIES: u8 = 7;

/// One step of driving the control lines.
#[derive(Clone, Copy, Debug, PartialEq, Eq, Structural)]
pub enum LineStep {
    /// Set data-terminal-ready.
    Dtr(bool),
    /// Set request-to-send.
    Rts(bool),
    /// Wait this many milliseconds.
    Wait(u64),
}

/// The steps that force the device into its bootloader.
pub open spec fn reset_steps() -> Seq<LineStep> {
    seq![
        LineStep::Dtr(false),
        LineStep::Rts(true),
        LineStep::Wait(100),
        LineStep::Dtr(true),
        LineStep::Rts(false),
        LineStep::Wait(50),
        LineStep::Dtr(true),
    ]
}

/// The steps that force the device into its bootloader, in order.
pub fn reset_sequence() -> (steps: Vec<LineStep>)
    ensures
        steps@ == reset_steps(),
{
    let mut steps: Vec<LineStep> = Vec::new();
    steps.push(LineStep::Dtr(false));
    steps.push(LineStep::Rts(true));
    steps.push(LineStep::Wait(100));
    steps.push(LineStep::Dtr(true));
    steps.push(LineStep::Rts(false));
    steps.push(LineStep::Wait(50));
    steps.push(LineStep::Dtr(true));
    assert(steps@ =~= reset_steps());
    steps
}

/// The steps that leave both control lines deasserted.
pub fn release_sequence() -> (steps: Vec<LineStep>)
    ensures
        steps@ == seq![LineStep::Dtr(false), LineStep::Rts(false)],
{
    let mut steps: Vec<LineStep> = Vec::new();
    steps.push(LineStep::Dtr(false));
    steps.push(LineStep::Rts(false));
    assert(steps@ =~= seq![LineStep::Dtr(false), LineStep::Rts(false)]);
    steps
}

/// Payload of the sync command: four fixed bytes, then 32 times `0x55`.
pub open spec fn sync_payload() -> Seq<u8> {
    seq![0x07u8, 0x07u8, 0x12u8, 0x20u8] + Seq::new(32, |i: int| 0x55u8)
}

/// The sync command.
pub fn sync_request() -> (request: Request)
    ensures
        request@ == (Packet { command: Command::Sync, payload: sync_payload(), check: 0 }),
{
    let mut payload: Vec<u8> = Vec::new();
    payload.push(0x07);
    payload.push(0x07);
    payload.push(0x12);
    payload.push(0x20);
    let mut i: u8 = 0;
    while i < 32
        invariant
            i <= 32,
            payload@ == seq![0x07u8, 0x07u8, 0x12u8, 0x20u8] + Seq::new(i as nat, |k: int| 0x55u8),
        decreases 32 - i,
    {
        payload.push(0x55);
        i += 1;
        assert(payload@ =~= seq![0x07u8, 0x07u8, 0x12u8, 0x20u8] + Seq::new(
            i as nat,
            |k: int| 0x55u8,
        ));
    }
    Request { command: Command::Sync, payload, check: 0 }
}

/// Where the handshake stands.
#[derive(Clone, Copy, Debug, PartialEq, Eq, Structural)]
pub enum Handshake {
    /// Nothing is under way.
    Idle,
    /// The control lines are being driven.
    Resetting { cycles_left: u8 },
    /// The sync command was sent and its answer is awaited.
    Syncing { cycles_left: u8, exchange: Exchange },
    /// The device is synced and its further replies are being read.
    Draining { cycles_left: u8, replies_left: u8 },
    /// The device is synced and silent: commands can follow.
    Connected,
}

/// What the caller does next.
#[derive(Clone, Copy, Debug, PartialEq, Eq, Structural)]
pub enum Action {
    /// Run the reset sequence, then report that it is done.
    Reset,
    /// Discard pending input, send the sync command, then read a reply.
    SendSync,
    /// Read a reply with this timeout.
    Receive(Timeout),
    /// The handshake is done.
    Proceed,
    /// Every cycle failed: the handshake failed.
    HandshakeFailed,
    /// The event does not belong to this state and was passed over.
    Nothing,
}

/// Whether received bytes hold a frame with a response header, and `None`
/// where they hold no frame at all.
pub open spec fn reply_kind(raw: Seq<u8>) -> Option<bool> {
    match decoded(raw) {
        Ok(frame) => Some(header_of(frame) is Some),
        Err(_) => None,
    }
}

/// The state after a cycle failed: the next cycle, or failure after the last.
pub open spec fn after_failed_cycle(cycles_left: u8) -> (Handshake, Action) {
    if cycles_left > 1 {
        (Handshake::Resetting { cycles_left: (cycles_left - 1) as u8 }, Action::Reset)
    } else {
        (Handshake::Idle, Action::HandshakeFailed)
    }
}

fn fail_cycle(cycles_left: u8) -> (out: (Handshake, Action))
    ensures
        out == after_failed_cycle(cycles_left),
{
    if cycles_left > 1 {
        (Handshake::Resetting { cycles_left: cycles_left - 1 }, Action::Reset)
    } else {
        (Handshake::Idle, Action::HandshakeFailed)
    }
}

impl Handshake {
    /// The handshake before anything was done.
    pub fn new() -> (state: Handshake)
        ensures
            state == Handshake::Idle,
    {
        Handshake::Idle
    }

    /// Whether the device is synced and silent.
    pub fn is_connected(&self) -> (yes: bool)
        ensures
            yes == (*self == Handshake::Connected),
    {
        match self {
            Handshake::Connected => true,
            _ => false,
        }
    }

    /// Starts the handshake with all its cycles ahead.
    pub fn start() -> (out: (Handshake, Action))
        ensures
            out == (Handshake::Resetting { cycles_left: MAX_CYCLES }, Action::Reset),
    {
        (Handshake::Resetting { cycles_left: MAX_CYCLES }, Action::Reset)
    }

    /// The state after the reset sequence has run.
    pub open spec fn after_reset(self) -> (Handshake, Action) {
        match self {
            Handshake::Resetting { cycles_left } => (
                Handshake::Syncing {
                    cycles_left,
                    exchange: Exchange {
                        opcode: Command::Sync.code(),
                        attempts_left: MAX_ATTEMPTS,
                    },
                },
                Action::SendSync,
            ),
            other => (other, Action::Nothing),
        }
    }

    /// The state after one read gave `raw`. While syncing, the reply goes to
    /// the exchange of the sync command, and a timeout there fails the cycle.
    /// While draining, a frame with a header counts, a frame without one is
    /// passed over, and bytes that hold no frame fail the cycle.
    pub open spec fn after_reply(self, raw: Seq<u8>) -> (Handshake, Action) {
        match self {
            Handshake::Syncing { cycles_left, exchange } => match exchange.after(raw) {
                Step::Finished(_) => (
                    Handshake::Draining { cycles_left, replies_left: SYNC_REPLIES },
                    Action::Receive(Timeout::Sync),
                ),
                Step::Again(next) => (
                    Handshake::Syncing { cycles_left, exchange: next },
                    Action::Receive(Timeout::Sync),
                ),
                Step::Failed(_) => after_failed_cycle(cycles_left),
            },
            Handshake::Draining { cycles_left, replies_left } => match reply_kind(raw) {
                None => after_failed_cycle(cycles_left),
                Some(false) => (self, Action::Receive(Timeout::Sync)),
                Some(true) => if replies_left <= 1 {
                    (Handshake::Connected, Action::Proceed)
                } else {
                    (
                        Handshake::Draining {
                            cycles_left,
                            replies_left: (replies_left - 1) as u8,
                        },
                        Action::Receive(Timeout::Sync),
                    )
                },
            },
            Handshake::Connected => (self, Action::Proceed),
            other => (other, Action::Nothing),
        }
    }

    /// The state after each of `replies` in turn.
    pub open spec fn after_replies(self, replies: Seq<Seq<u8>>) -> Handshake
        decreases replies.len(),
    {
        if replies.len() == 0 {
            self
        } else {
            self.after_reply(replies.first()).0.after_replies(replies.drop_first())
        }
    }

    /// Takes the news that the reset sequence has run.
    pub fn reset_done(self) -> (out: (Handshake, Action))
        ensures
            out == self.after_reset(),
    {
        match self {
            Handshake::Resetting { cycles_left } => (
                Handshake::Syncing { cycles_left, exchange: Exchange::begin(Command::Sync) },
                Action::SendSync,
            ),
            other => (other, Action::Nothing),
        }
    }

    /// Takes the bytes that one read gave.
    pub fn on_reply(self, raw: &[u8]) -> (out: (Handshake, Action))
        ensures
            out == self.after_reply(raw@),
    {
        match self {
            Handshake::Syncing { cycles_left, exchange } => match exchange.on_reply(raw) {
                Step::Finished(_) => (
                    Handshake::Draining { cycles_left, replies_left: SYNC_REPLIES },
                    Action::Receive(Timeout::Sync),
                ),
                Step::Again(next) => (
                    Handshake::Syncing { cycles_left, exchange: next },
                    Action::Receive(Timeout::Sync),
                ),
                Step::Failed(_) => fail_cycle(cycles_left),
            },
            Handshake::Draining { cycles_left, replies_left } => match decode(raw) {
                Err(_) => fail_cycle(cycles_left),
                Ok(frame) => match parse_response(frame.as_slice()) {
                    None => (self, Action::Receive(Timeout::Sync)),
                    Some(_) => if replies_left <= 1 {
                        (Handshake::Connected, Action::Proceed)
                    } else {
                        (
                            Handshake::Draining { cycles_left, replies_left: replies_left - 1 },
                            Action::Receive(Timeout::Sync),
                        )
                    },
                },
            },
            Handshake::Connected => (self, Action::Proceed),
            other => (other, Action::Nothing),
        }
    }
}

/// The replies that follow a sync are read to the last: while fewer replies
/// with a header have come than are still owed, the handshake is not
/// connected, and with the last one it is.
pub proof fn lemma_sync_replies_are_drained(
    cycles_left: u8,
    replies_left: u8,
    replies: Seq<Seq<u8>>,
)
    requires
        replies_left >= 1,
        forall|i: int| 0 <= i < replies.len() ==> reply_kind(#[trigger] replies[i]) == Some(true),
        replies.len() <= replies_left,
    ensures
        (Handshake::Draining { cycles_left, replies_left }).after_replies(replies) == (if replies.len()
            < replies_left {
            Handshake::Draining { cycles_left, replies_left: (replies_left - replies.len()) as u8 }
        } else {
            Handshake::Connected
        }),
    decreases replies.len(),
{
    let state = Handshake::Draining { cycles_left, replies_left };
    if replies.len() > 0 {
        let rest = replies.drop_first();
        assert(reply_kind(replies[0]) == Some(true));
        assert forall|i: int| 0 <= i < rest.len() implies reply_kind(#[trigger] rest[i]) == Some(
            true,
        ) by {
            assert(rest[i] == replies[i + 1]);
        }
        if replies_left > 1 {
            lemma_sync_replies_are_drained(cycles_left, (replies_left - 1) as u8, rest);
        } else {
            assert(rest.len() == 0);
            assert(state.after_reply(replies.first()).0 == Handshake::Connected);
            assert(Handshake::Connected.after_replies(rest) == Handshake::Connected);
        }
    }
}

/// Once connected, further replies change nothing.
pub proof fn lemma_connected_is_final(replies: Seq<Seq<u8>>)
    ensures
        Handshake::Connected.after_replies(replies) == Handshake::Connected,
    decreases replies.len(),
{
    if replies.len() > 0 {
        lemma_connected_is_final(replies.drop_first());
    }
}

} // verus!
