//! Running the requests of a load one after the other: each is sent once its
//! predecessor was accepted, and the first failure ends the load.

use vstd::prelude::*;
use crate::exchange::{Exchange, Step, MAX_ATTEMPTS};
use crate::framing::encoded;
use crate::loader::Request;
use crate::packet::{command_frame, packet_bytes, ProtocolError, MAX_PAYLOAD_LEN};

verus! {

impl Request {
    /// The frame that carries this request. `None` exactly where the payload
    /// is longer than a packet's length field can state.
    pub fn frame(&self) -> (out: Option<Vec<u8>>)
        ensures
            out is Some <==> self.payload@.len() <= MAX_PAYLOAD_LEN,
            out is Some ==> out->0@ == encoded(
                packet_bytes(self.command.code(), self.payload@, self.check),
            ),
    {
        command_frame(self.command, self.payload.as_slice(), self.check)
    }
}

/// A load under way: the request at `index` was sent and its answer is
/// awaited.
#[derive(Clone, Copy, Debug, PartialEq, Eq, Structural)]
pub struct Transfer {
    pub index: usize,
    pub exchange: Exchange,
}

/// What the caller does next.
#[derive(Clone, Copy, Debug, PartialEq, Eq, Structural)]
pub enum Progress {
    /// Send the request at the transfer's index, then read a reply.
    Send(Transfer),
    /// Read another reply.
    Receive(Transfer),
    /// Every request was accepted.
    Done,
    /// A request failed: the load is over and must start again from the
    /// handshake.
    Aborted(ProtocolError),
}

/// The step that sends the request at `index`, or the end of the load where
/// there is none.
pub open spec fn sending(requests: Seq<Request>, index: int) -> Progress {
    if 0 <= index < requests.len() {
        Progress::Send(
            Transfer {
                index: index as usize,
                exchange: Exchange {
                    opcode: requests[index].command.code(),
                    attempts_left: MAX_ATTEMPTS,
                },
            },
        )
    } else {
        Progress::Done
    }
}

fn send_at(requests: &[Request], index: usize) -> (out: Progress)
    ensures
        out == sending(requests@, index as int),
{
    if index < requests.len() {
        Progress::Send(Transfer { index, exchange: Exchange::begin(requests[index].command) })
    } else {
        Progress::Done
    }
}

impl Transfer {
    /// The first step of a load.
    pub fn start(requests: &[Request]) -> (out: Progress)
        ensures
            out == sending(requests@, 0),
    {
        send_at(requests, 0)
    }

    /// The load after one reply: a reply that does not answer the request
    /// uses up an attempt; a timeout or an answer that reports a failure ends
    /// the load; an answer that reports success lets the next request go.
    pub open spec fn after(self, requests: Seq<Request>, raw: Seq<u8>) -> Progress {
        match self.exchange.after(raw) {
            Step::Again(next) => Progress::Receive(Transfer { index: self.index, exchange: next }),
            Step::Failed(e) => Progress::Aborted(e),
            Step::Finished(header) => if header.accepted() {
                sending(requests, self.index + 1)
            } else {
                Progress::Aborted(ProtocolError::DeviceError(header.status, header.error))
            },
        }
    }

    /// Takes the bytes that one read gave.
    pub fn on_reply(self, requests: &[Request], raw: &[u8]) -> (out: Progress)
        ensures
            out == self.after(requests@, raw@),
    {
        match self.exchange.on_reply(raw) {
            Step::Again(next) => Progress::Receive(Transfer { index: self.index, exchange: next }),
            Step::Failed(e) => Progress::Aborted(e),
            Step::Finished(header) => match header.check() {
                Err(e) => Progress::Aborted(e),
                Ok(_) => if self.index < requests.len() {
                    send_at(requests, self.index + 1)
                } else {
                    Progress::Done
                },
            },
        }
    }
}

} // verus!
