//! The plan that loads an image into RAM: per segment one transfer window and
//! its aligned blocks, then the jump to the entry address.

use vstd::prelude::*;
use crate::checksum::{checksum, xor_fold, CHECKSUM_SEED};
use crate::packet::{le32, push_all, push_le32, Command, MAX_PAYLOAD_LEN};

verus! {

/// Most bytes of a segment that one block carries.
pub const MAX_BLOCK_SIZE: u32 = 0x1800;

/// Blocks are padded to a multiple of this many bytes.
pub const BLOCK_ALIGN: usize = 4;

/// Bytes of the parameters that precede the data of a block.
pub const BLOCK_PARAMS_LEN: usize = 16;

/// A contiguous region of the image and the RAM address it goes to.
#[derive(Clone, Debug)]
pub struct Segment {
    pub address: u32,
    pub data: Vec<u8>,
}

/// An image: its RAM segments in transfer order, and where to jump.
#[derive(Clone, Debug)]
pub struct Image {
    pub entry: u32,
    pub segments: Vec<Segment>,
}

/// One command to exchange with the device.
#[derive(Clone, Debug)]
pub struct Request {
    pub command: Command,
    pub payload: Vec<u8>,
    pub check: u32,
}

/// A request as plain values.
pub struct Packet {
    pub command: Command,
    pub payload: Seq<u8>,
    pub check: u32,
}

impl View for Request {
    type V = Packet;

    open spec fn view(&self) -> Packet {
        Packet { command: self.command, payload: self.payload@, check: self.check }
    }
}

/// The requests of a vector as plain values.
pub open spec fn packets_of(requests: Seq<Request>) -> Seq<Packet> {
    Seq::new(requests.len(), |i: int| requests[i]@)
}

/// Blocks that a segment of `len` bytes takes: `len / MAX_BLOCK_SIZE`, rounded up.
pub open spec fn block_count(len: nat) -> nat {
    (len + MAX_BLOCK_SIZE - 1) as nat / (MAX_BLOCK_SIZE as nat)
}

/// The `k`-th block of a segment, before padding.
pub open spec fn block_at(data: Seq<u8>, k: int) -> Seq<u8> {
    data.subrange(
        k * MAX_BLOCK_SIZE,
        if (k + 1) * MAX_BLOCK_SIZE <= data.len() {
            (k + 1) * MAX_BLOCK_SIZE
        } else {
            data.len() as int
        },
    )
}

/// The first `n` blocks of a segment, one after the other.
pub open spec fn joined_blocks(data: Seq<u8>, n: nat) -> Seq<u8>
    decreases n,
{
    if n == 0 {
        Seq::empty()
    } else {
        joined_blocks(data, (n - 1) as nat) + block_at(data, n - 1)
    }
}

/// Length of a block of `len` bytes after padding.
pub open spec fn padded_len(len: nat) -> nat {
    ((len + BLOCK_ALIGN - 1) / (BLOCK_ALIGN as int) * BLOCK_ALIGN) as nat
}

/// A block with zero bytes behind it up to the next multiple of `BLOCK_ALIGN`.
pub open spec fn padded(block: Seq<u8>) -> Seq<u8> {
    block + Seq::new((padded_len(block.len()) - block.len()) as nat, |i: int| 0u8)
}

/// Parameters that open a transfer window.
pub open spec fn begin_params(size: u32, blocks: u32, block_size: u32, offset: u32) -> Seq<u8> {
    le32(size) + le32(blocks) + le32(block_size) + le32(offset)
}

/// The command that opens the window of a segment of `len` bytes.
pub open spec fn begin_packet(address: u32, len: nat) -> Packet {
    Packet {
        command: Command::MemBegin,
        payload: begin_params(len as u32, block_count(len) as u32, MAX_BLOCK_SIZE, address),
        check: 0,
    }
}

/// The command that carries one block: its size and sequence number, two
/// unused words, then the bytes; the check value is the checksum of the bytes.
pub open spec fn data_packet(block: Seq<u8>, sequence: u32) -> Packet {
    Packet {
        command: Command::MemData,
        payload: le32(block.len() as u32) + le32(sequence) + le32(0) + le32(0) + block,
        check: xor_fold(block, CHECKSUM_SEED) as u32,
    }
}

/// The command that ends a load: the flag is 1 exactly where there is no
/// entry address to jump to.
pub open spec fn end_packet(entry: u32) -> Packet {
    Packet {
        command: Command::MemEnd,
        payload: le32(if entry == 0 { 1u32 } else { 0u32 }) + le32(entry),
        check: 0,
    }
}

/// The commands of one segment: the window, then every block in order.
pub open spec fn segment_plan(address: u32, data: Seq<u8>) -> Seq<Packet> {
    seq![begin_packet(address, data.len())] + Seq::new(
        block_count(data.len()),
        |k: int| data_packet(padded(block_at(data, k)), k as u32),
    )
}

/// The commands of some segments, in their order.
pub open spec fn segments_plan(segments: Seq<Segment>) -> Seq<Packet>
    decreases segments.len(),
{
    if segments.len() == 0 {
        Seq::empty()
    } else {
        segments_plan(segments.drop_last()) + segment_plan(
            segments.last().address,
            segments.last().data@,
        )
    }
}

/// Every command of a load, in order.
pub open spec fn load_plan(image: Image) -> Seq<Packet> {
    segments_plan(image.segments@) + seq![end_packet(image.entry)]
}

/// Whether every segment's length fits the 32-bit size field.
pub open spec fn sizes_fit(segments: Seq<Segment>) -> bool {
    forall|i: int| 0 <= i < segments.len() ==> (#[trigger] segments[i]).data@.len() <= u32::MAX
}

/// Whether `m` is a multiple of `BLOCK_ALIGN`.
pub open spec fn aligned(m: nat) -> bool {
    m % (BLOCK_ALIGN as nat) == 0
}

/// Whether `n` blocks of `MAX_BLOCK_SIZE` bytes hold `len` bytes.
pub open spec fn blocks_hold(n: nat, len: nat) -> bool {
    n * MAX_BLOCK_SIZE >= len
}

/// The padded length is the smallest multiple of the alignment that is not
/// below the length.
pub proof fn lemma_padded_len_is_next_multiple(len: nat)
    ensures
        aligned(padded_len(len)),
        padded_len(len) >= len,
        forall|m: nat| #[trigger] aligned(m) && m >= len ==> padded_len(len) <= m,
{
}

/// Padding keeps the block and adds only zero bytes.
pub proof fn lemma_padding_is_zero(block: Seq<u8>)
    ensures
        padded(block).len() == padded_len(block.len()),
        padded(block).subrange(0, block.len() as int) == block,
        forall|i: int| block.len() <= i < padded(block).len() ==> padded(block)[i] == 0,
{
    assert(padded(block).subrange(0, block.len() as int) =~= block);
}

/// The first `n` blocks make up the first `n * MAX_BLOCK_SIZE` bytes of the
/// segment, or all of it where it is shorter.
proof fn lemma_joined_prefix(data: Seq<u8>, n: nat)
    requires
        n <= block_count(data.len()),
    ensures
        joined_blocks(data, n) == data.subrange(
            0,
            if n * MAX_BLOCK_SIZE <= data.len() {
                (n * MAX_BLOCK_SIZE) as int
            } else {
                data.len() as int
            },
        ),
    decreases n,
{
    if n == 0 {
        assert(joined_blocks(data, n) =~= data.subrange(0, 0));
    } else {
        lemma_joined_prefix(data, (n - 1) as nat);
        let to = if n * MAX_BLOCK_SIZE <= data.len() {
            (n * MAX_BLOCK_SIZE) as int
        } else {
            data.len() as int
        };
        assert(joined_blocks(data, n) =~= data.subrange(0, to));
    }
}

/// A segment is cut into `len / MAX_BLOCK_SIZE` blocks, rounded up; none is
/// empty or longer than `MAX_BLOCK_SIZE`; and the blocks, one after the
/// other, are the segment.
pub proof fn lemma_blocks_rebuild_segment(data: Seq<u8>)
    ensures
        blocks_hold(block_count(data.len()), data.len()),
        forall|n: nat| #[trigger] blocks_hold(n, data.len()) ==> block_count(data.len()) <= n,
        forall|k: int|
            0 <= k < block_count(data.len()) ==> 0 < (#[trigger] block_at(data, k)).len()
                <= MAX_BLOCK_SIZE,
        joined_blocks(data, block_count(data.len())) == data,
{
    lemma_joined_prefix(data, block_count(data.len()));
    assert(data.subrange(0, data.len() as int) =~= data);
}

/// The request that opens a transfer window.
pub fn mem_begin(size: u32, blocks: u32, block_size: u32, offset: u32) -> (request: Request)
    ensures
        request@ == (Packet {
            command: Command::MemBegin,
            payload: begin_params(size, blocks, block_size, offset),
            check: 0,
        }),
{
    let mut payload: Vec<u8> = Vec::new();
    push_le32(&mut payload, size);
    push_le32(&mut payload, blocks);
    push_le32(&mut payload, block_size);
    push_le32(&mut payload, offset);
    assert(payload@ =~= begin_params(size, blocks, block_size, offset));
    Request { command: Command::MemBegin, payload, check: 0 }
}

/// The request that carries one block that fits a packet.
fn data_request(block: &[u8], sequence: u32) -> (request: Request)
    requires
        block@.len() + BLOCK_PARAMS_LEN <= MAX_PAYLOAD_LEN,
    ensures
        request@ == data_packet(block@, sequence),
{
    let mut payload: Vec<u8> = Vec::new();
    push_le32(&mut payload, block.len() as u32);
    push_le32(&mut payload, sequence);
    push_le32(&mut payload, 0);
    push_le32(&mut payload, 0);
    push_all(&mut payload, block);
    let sum: u8 = checksum(block, CHECKSUM_SEED);
    Request { command: Command::MemData, payload, check: sum as u32 }
}

/// The request that carries one block. `None` exactly where the block and
/// its parameters are more than a packet can hold.
pub fn mem_block(data: &[u8], sequence: u32) -> (out: Option<Request>)
    ensures
        out is Some <==> data@.len() + BLOCK_PARAMS_LEN <= MAX_PAYLOAD_LEN,
        out is Some ==> out->0@ == data_packet(data@, sequence),
{
    if data.len() > MAX_PAYLOAD_LEN - BLOCK_PARAMS_LEN {
        None
    } else {
        Some(data_request(data, sequence))
    }
}

/// The request that ends a load and jumps to `entry`, or only ends it where
/// `entry` is zero.
pub fn mem_finish(entry: u32) -> (request: Request)
    ensures
        request@ == end_packet(entry),
{
    let mut payload: Vec<u8> = Vec::new();
    let no_entry: u32 = if entry == 0 { 1 } else { 0 };
    push_le32(&mut payload, no_entry);
    push_le32(&mut payload, entry);
    Request { command: Command::MemEnd, payload, check: 0 }
}

/// Pads a block with zero bytes up to the next multiple of `BLOCK_ALIGN`.
pub fn pad_block(block: &mut Vec<u8>)
    ensures
        final(block)@ == padded(old(block)@),
{
    let ghost start = block@;
    while block.len() % BLOCK_ALIGN != 0
        invariant
            start.len() <= block.len() <= padded_len(start.len()),
            block@ == start + Seq::new((block.len() - start.len()) as nat, |i: int| 0u8),
        decreases padded_len(start.len()) - block.len(),
    {
        block.push(0);
        assert(block@ =~= start + Seq::new((block.len() - start.len()) as nat, |i: int| 0u8));
    }
}

/// Number of blocks that a segment of `len` bytes takes.
pub fn count_blocks(len: u32) -> (count: u32)
    ensures
        count == block_count(len as nat),
{
    let wide: u64 = len as u64;
    let size: u64 = MAX_BLOCK_SIZE as u64;
    ((wide + size - 1) / size) as u32
}

/// The `k`-th block of `data`, padded.
pub fn padded_block(data: &[u8], k: u32) -> (block: Vec<u8>)
    requires
        data@.len() <= u32::MAX,
        k < block_count(data@.len()),
    ensures
        block@ == padded(block_at(data@, k as int)),
{
    let from: usize = k as usize * 0x1800;
    let to: usize = if data.len() - from > 0x1800 { from + 0x1800 } else { data.len() };
    let mut block: Vec<u8> = Vec::new();
    let mut i: usize = from;
    while i < to
        invariant
            from <= i <= to <= data.len(),
            block@ == data@.subrange(from as int, i as int),
        decreases to - i,
    {
        block.push(data[i]);
        i += 1;
        assert(block@ =~= data@.subrange(from as int, i as int));
    }
    pad_block(&mut block);
    block
}

/// The request that carries the `k`-th block of `data`, padded.
pub fn block_request(data: &[u8], k: u32) -> (request: Request)
    requires
        data@.len() <= u32::MAX,
        k < block_count(data@.len()),
    ensures
        request@ == data_packet(padded(block_at(data@, k as int)), k),
{
    let block = padded_block(data, k);
    proof {
        let raw = block_at(data@, k as int);
        assert(raw.len() <= MAX_BLOCK_SIZE);
        assert(padded_len(raw.len()) <= MAX_BLOCK_SIZE);
    }
    data_request(block.as_slice(), k)
}

/// The requests that load one segment. `None` exactly where the segment's
/// length does not fit the 32-bit size field.
pub fn segment_requests(segment: &Segment) -> (out: Option<Vec<Request>>)
    ensures
        out is Some <==> segment.data@.len() <= u32::MAX,
        out is Some ==> packets_of(out->0@) == segment_plan(segment.address, segment.data@),
{
    if segment.data.len() > u32::MAX as usize {
        return None;
    }
    let size: u32 = segment.data.len() as u32;
    let blocks: u32 = count_blocks(size);
    let mut requests: Vec<Request> = Vec::new();
    requests.push(mem_begin(size, blocks, MAX_BLOCK_SIZE, segment.address));
    let ghost plan = segment_plan(segment.address, segment.data@);
    assert(plan.len() == blocks + 1);
    assert(packets_of(requests@) =~= plan.subrange(0, 1));
    let mut k: u32 = 0;
    while k < blocks
        invariant
            k <= blocks,
            blocks == block_count(segment.data@.len()),
            segment.data@.len() <= u32::MAX,
            plan == segment_plan(segment.address, segment.data@),
            plan.len() == blocks + 1,
            requests@.len() == k + 1,
            packets_of(requests@) == plan.subrange(0, k + 1),
        decreases blocks - k,
    {
        let ghost before = requests@;
        let request = block_request(segment.data.as_slice(), k);
        assert(request@ == plan[k + 1]);
        requests.push(request);
        assert(packets_of(requests@) =~= packets_of(before).push(request@));
        assert(plan.subrange(0, k + 2) =~= plan.subrange(0, k + 1).push(plan[k + 1]));
        k += 1;
    }
    assert(plan.subrange(0, k + 1) =~= plan);
    Some(requests)
}

/// Every request of a load, in order: the segments as the image lists them,
/// then the end of the load. `None` exactly where some segment's length does
/// not fit the 32-bit size field.
pub fn load_requests(image: &Image) -> (out: Option<Vec<Request>>)
    ensures
        out is Some <==> sizes_fit(image.segments@),
        out is Some ==> packets_of(out->0@) == load_plan(*image),
{
    let mut requests: Vec<Request> = Vec::new();
    let mut i: usize = 0;
    assert(packets_of(requests@) =~= segments_plan(image.segments@.subrange(0, 0)));
    while i < image.segments.len()
        invariant
            i <= image.segments.len(),
            sizes_fit(image.segments@.subrange(0, i as int)),
            packets_of(requests@) == segments_plan(image.segments@.subrange(0, i as int)),
        decreases image.segments.len() - i,
    {
        let ghost done = packets_of(requests@);
        let ghost upto = image.segments@.subrange(0, i + 1);
        assert(upto.drop_last() =~= image.segments@.subrange(0, i as int));
        assert(upto.last() == image.segments@[i as int]);
        match segment_requests(&image.segments[i]) {
            None => {
                return None;
            },
            Some(mut more) => {
                let ghost added = packets_of(more@);
                requests.append(&mut more);
                assert(packets_of(requests@) =~= done + added);
            },
        }
        i += 1;
    }
    assert(image.segments@.subrange(0, i as int) =~= image.segments@);
    let ghost body = packets_of(requests@);
    requests.push(mem_finish(image.entry));
    assert(packets_of(requests@) =~= body + seq![end_packet(image.entry)]);
    Some(requests)
}

} // verus!
