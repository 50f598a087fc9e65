//! Command packets and response headers: fixed layouts with explicit
//! little-endian fields.

use vstd::prelude::*;
use crate::framing::{encode, encoded};

verus! {

/// Direction byte of every command packet.
pub const DIRECTION_REQUEST: u8 = 0;

/// Bytes of a response header.
pub const HEADER_LEN: usize = 8;

/// Longest payload whose length a command packet can state.
pub const MAX_PAYLOAD_LEN: usize = 0xFFFF;

/// Operations of the bootloader.
#[derive(Clone, Copy, Debug, PartialEq, Eq, Structural)]
pub enum Command {
    FlashBegin,
    FlashData,
    FlashEnd,
    MemBegin,
    MemEnd,
    MemData,
    Sync,
    WriteReg,
    ReadReg,
}

impl Command {
    /// The opcode of this operation on the wire.
    pub open spec fn code(self) -> u8 {
        match self {
            Command::FlashBegin => 0x02,
            Command::FlashData => 0x03,
            Command::FlashEnd => 0x04,
            Command::MemBegin => 0x05,
            Command::MemEnd => 0x06,
            Command::MemData => 0x07,
            Command::Sync => 0x08,
            Command::WriteReg => 0x09,
            Command::ReadReg => 0x0a,
        }
    }

    /// The opcode of this operation on the wire.
    pub fn opcode(self) -> (op: u8)
        ensures
            op == self.code(),
    {
        match self {
            Command::FlashBegin => 0x02,
            Command::FlashData => 0x03,
            Command::FlashEnd => 0x04,
            Command::MemBegin => 0x05,
            Command::MemEnd => 0x06,
            Command::MemData => 0x07,
            Command::Sync => 0x08,
            Command::WriteReg => 0x09,
            Command::ReadReg => 0x0a,
        }
    }
}

/// A 16-bit value, low byte first.
pub open spec fn le16(x: u16) -> Seq<u8> {
    seq![(x as int % 256) as u8, (x as int / 256) as u8]
}

/// A 32-bit value, low byte first.
pub open spec fn le32(x: u32) -> Seq<u8> {
    seq![
        (x as int % 256) as u8,
        (x as int / 256 % 256) as u8,
        (x as int / 65536 % 256) as u8,
        (x as int / 16777216) as u8,
    ]
}

/// The 16-bit value of two bytes, low byte first.
pub open spec fn from_le16(b0: u8, b1: u8) -> u16 {
    (b0 as int + b1 as int * 256) as u16
}

/// The 32-bit value of four bytes, low byte first.
pub open spec fn from_le32(b0: u8, b1: u8, b2: u8, b3: u8) -> u32 {
    (b0 as int + b1 as int * 256 + b2 as int * 65536 + b3 as int * 16777216) as u32
}

/// Reading the four bytes of a value gives the value back.
pub proof fn lemma_le32_round_trip(x: u32)
    ensures
        le32(x).len() == 4,
        from_le32(le32(x)[0], le32(x)[1], le32(x)[2], le32(x)[3]) == x,
{
}

/// Reading the two bytes of a value gives the value back.
pub proof fn lemma_le16_round_trip(x: u16)
    ensures
        le16(x).len() == 2,
        from_le16(le16(x)[0], le16(x)[1]) == x,
{
}

/// Appends `x`, low byte first.
pub fn push_le16(out: &mut Vec<u8>, x: u16)
    ensures
        final(out)@ == old(out)@ + le16(x),
{
    out.push((x % 256) as u8);
    out.push((x / 256) as u8);
    assert(out@ =~= old(out)@ + le16(x));
}

/// Appends `x`, low byte first.
pub fn push_le32(out: &mut Vec<u8>, x: u32)
    ensures
        final(out)@ == old(out)@ + le32(x),
{
    out.push((x % 256) as u8);
    out.push((x / 256 % 256) as u8);
    out.push((x / 65536 % 256) as u8);
    out.push((x / 16777216) as u8);
    assert(out@ =~= old(out)@ + le32(x));
}

/// Appends every byte of `bytes`.
pub fn push_all(out: &mut Vec<u8>, bytes: &[u8])
    ensures
        final(out)@ == old(out)@ + bytes@,
{
    let mut i: usize = 0;
    while i < bytes.len()
        invariant
            i <= bytes.len(),
            out@ == old(out)@ + bytes@.subrange(0, i as int),
        decreases bytes.len() - i,
    {
        out.push(bytes[i]);
        i += 1;
        assert(out@ =~= old(out)@ + bytes@.subrange(0, i as int));
    }
    assert(bytes@.subrange(0, i as int) =~= bytes@);
}

/// A command packet: direction, opcode, payload length, check value, payload.
pub open spec fn packet_bytes(opcode: u8, payload: Seq<u8>, check: u32) -> Seq<u8> {
    seq![DIRECTION_REQUEST, opcode] + le16(payload.len() as u16) + le32(check) + payload
}

/// Builds the packet of one command. `None` exactly where the payload is
/// longer than the length field can state.
pub fn command_packet(command: Command, payload: &[u8], check: u32) -> (out: Option<Vec<u8>>)
    ensures
        out is Some <==> payload@.len() <= MAX_PAYLOAD_LEN,
        out is Some ==> out->0@ == packet_bytes(command.code(), payload@, check),
{
    if payload.len() > MAX_PAYLOAD_LEN {
        return None;
    }
    let mut out: Vec<u8> = Vec::new();
    out.push(DIRECTION_REQUEST);
    out.push(command.opcode());
    assert(out@ =~= seq![DIRECTION_REQUEST, command.code()]);
    push_le16(&mut out, payload.len() as u16);
    push_le32(&mut out, check);
    push_all(&mut out, payload);
    Some(out)
}

/// Builds the frame that carries one command. `None` exactly where the
/// payload is longer than the length field can state.
pub fn command_frame(command: Command, payload: &[u8], check: u32) -> (out: Option<Vec<u8>>)
    ensures
        out is Some <==> payload@.len() <= MAX_PAYLOAD_LEN,
        out is Some ==> out->0@ == encoded(packet_bytes(command.code(), payload@, check)),
{
    match command_packet(command, payload, check) {
        None => None,
        Some(packet) => Some(encode(packet.as_slice())),
    }
}

/// What the device says of one command.
#[derive(Clone, Copy, Debug, PartialEq, Eq, Structural)]
pub struct ResponseHeader {
    pub direction: u8,
    pub opcode: u8,
    pub length: u16,
    pub value: u32,
    pub status: u8,
    pub error: u8,
}

/// The header that a decoded frame carries: none where it is shorter than
/// `HEADER_LEN`. Direction, opcode, length and value are its first eight
/// bytes; status and error are the two bytes behind them, and zero where the
/// frame ends before them.
pub open spec fn header_of(frame: Seq<u8>) -> Option<ResponseHeader> {
    if frame.len() < HEADER_LEN {
        None
    } else {
        Some(
            ResponseHeader {
                direction: frame[0],
                opcode: frame[1],
                length: from_le16(frame[2], frame[3]),
                value: from_le32(frame[4], frame[5], frame[6], frame[7]),
                status: if frame.len() > 8 { frame[8] } else { 0 },
                error: if frame.len() > 9 { frame[9] } else { 0 },
            },
        )
    }
}

/// Reads the response header of a decoded frame.
pub fn parse_response(frame: &[u8]) -> (out: Option<ResponseHeader>)
    ensures
        out == header_of(frame@),
{
    if frame.len() < HEADER_LEN {
        return None;
    }
    let length: u16 = frame[2] as u16 + frame[3] as u16 * 256;
    let value: u32 = frame[4] as u32 + frame[5] as u32 * 256 + frame[6] as u32 * 65536
        + frame[7] as u32 * 16777216;
    let status: u8 = if frame.len() > 8 { frame[8] } else { 0 };
    let error: u8 = if frame.len() > 9 { frame[9] } else { 0 };
    Some(ResponseHeader { direction: frame[0], opcode: frame[1], length, value, status, error })
}

/// Why an exchange with the device failed.
#[derive(Clone, Copy, Debug, PartialEq, Eq, Structural)]
pub enum ProtocolError {
    /// No matching response came within the bound on attempts.
    Timeout,
    /// The device answered and reported a failure: its status, then its error.
    DeviceError(u8, u8),
}

impl ResponseHeader {
    /// Whether the device reported success.
    pub open spec fn accepted(self) -> bool {
        self.status == 0
    }

    /// Turns a header that reports a failure into that failure.
    pub fn check(&self) -> (out: Result<(), ProtocolError>)
        ensures
            out == (if self.accepted() {
                Ok::<(), ProtocolError>(())
            } else {
                Err::<(), ProtocolError>(ProtocolError::DeviceError(self.status, self.error))
            }),
    {
        if self.status == 0 {
            Ok(())
        } else {
            Err(ProtocolError::DeviceError(self.status, self.error))
        }
    }
}

} // verus!
