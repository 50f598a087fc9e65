//! One command and its response: the command is sent once, and replies are
//! read until one answers it or the bound on attempts is used up.

use vstd::prelude::*;
use crate::framing::{decode, decoded};
use crate::packet::{header_of, parse_response, Command, ProtocolError, ResponseHeader};

verus! {

/// Replies that are read for one command before it times out. A reply that
/// does not answer the command may be left over from an earlier one, so it
/// is passed over; the command itself is never sent again, since the device
/// might then run it twice.
pub const MAX_ATTEMPTS: u8 = 10;

/// How long one read waits for the device.
#[derive(Clone, Copy, Debug, PartialEq, Eq, Structural)]
pub enum Timeout {
    /// For ordinary commands.
    Default,
    /// For the sync command and the replies that follow it.
    Sync,
}

impl Timeout {
    /// The duration in milliseconds.
    pub open spec fn duration(self) -> u64 {
        match self {
            Timeout::Default => 3000,
            Timeout::Sync => 100,
        }
    }

    /// The duration in milliseconds.
    pub fn millis(self) -> (ms: u64)
        ensures
            ms == self.duration(),
    {
        match self {
            Timeout::Default => 3000,
            Timeout::Sync => 100,
        }
    }
}

/// The timeout of the reads that follow a command: the short one for sync,
/// the default for every other command.
pub open spec fn timeout_of(command: Command) -> Timeout {
    if command == Command::Sync {
        Timeout::Sync
    } else {
        Timeout::Default
    }
}

/// The timeout of the reads that follow `command`.
pub fn command_timeout(command: Command) -> (timeout: Timeout)
    ensures
        timeout == timeout_of(command),
{
    match command {
        Command::Sync => Timeout::Sync,
        _ => Timeout::Default,
    }
}

/// A command that was sent and whose response is awaited.
#[derive(Clone, Copy, Debug, PartialEq, Eq, Structural)]
pub struct Exchange {
    pub opcode: u8,
    pub attempts_left: u8,
}

/// Where an exchange stands after one reply.
#[derive(Clone, Copy, Debug, PartialEq, Eq, Structural)]
pub enum Step {
    /// The reply answers the command.
    Finished(ResponseHeader),
    /// The reply was passed over: read another.
    Again(Exchange),
    /// The exchange is over without a response.
    Failed(ProtocolError),
}

/// The header in the received bytes, where they hold a frame with a header
/// that answers `opcode`.
pub open spec fn matching_header(raw: Seq<u8>, opcode: u8) -> Option<ResponseHeader> {
    match decoded(raw) {
        Ok(frame) => match header_of(frame) {
            Some(header) => if header.opcode == opcode {
                Some(header)
            } else {
                None
            },
            None => None,
        },
        Err(_) => None,
    }
}

/// The bytes of each reply.
pub open spec fn views_of(replies: Seq<Vec<u8>>) -> Seq<Seq<u8>> {
    Seq::new(replies.len(), |i: int| replies[i]@)
}

/// Reads the bytes of one reply as far as an exchange needs them.
pub fn match_reply(raw: &[u8], opcode: u8) -> (out: Option<ResponseHeader>)
    ensures
        out == matching_header(raw@, opcode),
{
    match decode(raw) {
        Err(_) => None,
        Ok(frame) => match parse_response(frame.as_slice()) {
            None => None,
            Some(header) => if header.opcode == opcode {
                Some(header)
            } else {
                None
            },
        },
    }
}

impl Exchange {
    /// Whether attempts are left within the bound.
    pub open spec fn wf(self) -> bool {
        1 <= self.attempts_left <= MAX_ATTEMPTS
    }

    /// The exchange of a command that was just sent.
    pub fn begin(command: Command) -> (exchange: Exchange)
        ensures
            exchange == (Exchange { opcode: command.code(), attempts_left: MAX_ATTEMPTS }),
            exchange.wf(),
    {
        Exchange { opcode: command.opcode(), attempts_left: MAX_ATTEMPTS }
    }

    /// The exchange after one reply: finished where the reply answers the
    /// command; else one attempt is used up, and with the last one the
    /// exchange times out.
    pub open spec fn after(self, raw: Seq<u8>) -> Step {
        match matching_header(raw, self.opcode) {
            Some(header) => Step::Finished(header),
            None => if self.attempts_left <= 1 {
                Step::Failed(ProtocolError::Timeout)
            } else {
                Step::Again(
                    Exchange { opcode: self.opcode, attempts_left: (self.attempts_left - 1) as u8 },
                )
            },
        }
    }

    /// The exchange after all of `replies`, or after as many as it takes.
    pub open spec fn outcome(self, replies: Seq<Seq<u8>>) -> Step
        decreases replies.len(),
    {
        if replies.len() == 0 {
            Step::Again(self)
        } else {
            match self.after(replies.first()) {
                Step::Again(next) => next.outcome(replies.drop_first()),
                done => done,
            }
        }
    }

    /// Takes the bytes that one read gave: a frame that is broken, too short
    /// for a header, or that answers another command uses up an attempt.
    pub fn on_reply(self, raw: &[u8]) -> (step: Step)
        ensures
            step == self.after(raw@),
            self.wf() ==> (step matches Step::Again(next) ==> next.wf()),
    {
        match match_reply(raw, self.opcode) {
            Some(header) => Step::Finished(header),
            None => if self.attempts_left <= 1 {
                Step::Failed(ProtocolError::Timeout)
            } else {
                Step::Again(Exchange { opcode: self.opcode, attempts_left: self.attempts_left - 1 })
            },
        }
    }

    /// Takes replies in order until the exchange is over or none is left.
    pub fn settle(self, replies: &[Vec<u8>]) -> (step: Step)
        ensures
            step == self.outcome(views_of(replies@)),
    {
        let ghost all = views_of(replies@);
        let mut current = self;
        let mut i: usize = 0;
        assert(all.subrange(0, all.len() as int) =~= all);
        while i < replies.len()
            invariant
                i <= replies.len(),
                all == views_of(replies@),
                self.outcome(all) == current.outcome(all.subrange(i as int, all.len() as int)),
            decreases replies.len() - i,
        {
            let ghost rest = all.subrange(i as int, all.len() as int);
            assert(rest.first() == replies@[i as int]@);
            assert(rest.drop_first() =~= all.subrange(i + 1, all.len() as int));
            match current.on_reply(replies[i].as_slice()) {
                Step::Again(next) => {
                    current = next;
                },
                done => {
                    return done;
                },
            }
            i += 1;
        }
        Step::Again(current)
    }
}

/// A device that never answers the command makes the exchange time out with
/// its last attempt: no reply among the first `attempts_left` matches, so
/// the outcome is `Timeout`.
pub proof fn lemma_silence_times_out(exchange: Exchange, replies: Seq<Seq<u8>>)
    requires
        exchange.wf(),
        replies.len() >= exchange.attempts_left,
        forall|i: int|
            0 <= i < exchange.attempts_left ==> matching_header(
                #[trigger] replies[i],
                exchange.opcode,
            ) is None,
    ensures
        exchange.outcome(replies) == Step::Failed(ProtocolError::Timeout),
    decreases replies.len(),
{
    assert(matching_header(replies[0], exchange.opcode) is None);
    if exchange.attempts_left > 1 {
        let next = Exchange {
            opcode: exchange.opcode,
            attempts_left: (exchange.attempts_left - 1) as u8,
        };
        let rest = replies.drop_first();
        assert forall|i: int| 0 <= i < next.attempts_left implies matching_header(
            #[trigger] rest[i],
            next.opcode,
        ) is None by {
            assert(rest[i] == replies[i + 1]);
        }
        lemma_silence_times_out(next, rest);
    }
}

/// Replies left over from earlier commands do not disturb an exchange:
/// while an attempt is left after them, the answer that follows them is the
/// outcome, whatever the replies after it hold.
pub proof fn lemma_stale_replies_are_passed_over(
    exchange: Exchange,
    replies: Seq<Seq<u8>>,
    stale: int,
)
    requires
        exchange.wf(),
        0 <= stale < exchange.attempts_left,
        stale < replies.len(),
        forall|i: int|
            0 <= i < stale ==> matching_header(#[trigger] replies[i], exchange.opcode) is None,
        matching_header(replies[stale], exchange.opcode) is Some,
    ensures
        exchange.outcome(replies) == Step::Finished(
            matching_header(replies[stale], exchange.opcode)->0,
        ),
    decreases stale,
{
    if stale > 0 {
        assert(matching_header(replies[0], exchange.opcode) is None);
        let next = Exchange {
            opcode: exchange.opcode,
            attempts_left: (exchange.attempts_left - 1) as u8,
        };
        let rest = replies.drop_first();
        assert(rest[stale - 1] == replies[stale]);
        assert forall|i: int| 0 <= i < stale - 1 implies matching_header(
            #[trigger] rest[i],
            next.opcode,
        ) is None by {
            assert(rest[i] == replies[i + 1]);
        }
        lemma_stale_replies_are_passed_over(next, rest, stale - 1);
    }
}

/// An exchange is over after at most `attempts_left` replies.
pub proof fn lemma_exchange_is_bounded(exchange: Exchange, replies: Seq<Seq<u8>>)
    requires
        exchange.wf(),
        replies.len() >= exchange.attempts_left,
    ensures
        !(exchange.outcome(replies) is Again),
    decreases replies.len(),
{
    match exchange.after(replies.first()) {
        Step::Again(next) => {
            lemma_exchange_is_bounded(next, replies.drop_first());
        },
        _ => {},
    }
}

} // verus!
