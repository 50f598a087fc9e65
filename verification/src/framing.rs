//! Byte-stuffed frames: a payload between two sentinel bytes, with the
//! sentinel and the escape byte replaced by two-byte sequences inside.

use vstd::prelude::*;

verus! {

/// Sentinel that opens and closes a frame.
pub const END: u8 = 0xC0;

/// Escape byte.
pub const ESC: u8 = 0xDB;

/// Stands for `END` after an escape byte.
pub const ESC_END: u8 = 0xDC;

/// Stands for `ESC` after an escape byte.
pub const ESC_ESC: u8 = 0xDD;

/// Why received bytes gave no frame.
#[derive(Clone, Copy, Debug, PartialEq, Eq, Structural)]
pub enum FramingError {
    /// An escape byte was followed by a byte that no escape sequence has.
    Malformed,
    /// The bytes ended before a closing sentinel.
    Truncated,
}

/// One payload byte as it stands inside a frame.
pub open spec fn escape_byte(b: u8) -> Seq<u8> {
    if b == END {
        seq![ESC, ESC_END]
    } else if b == ESC {
        seq![ESC, ESC_ESC]
    } else {
        seq![b]
    }
}

/// The payload with every reserved byte escaped.
pub open spec fn escaped(payload: Seq<u8>) -> Seq<u8>
    decreases payload.len(),
{
    if payload.len() == 0 {
        Seq::empty()
    } else {
        escape_byte(payload.first()) + escaped(payload.drop_first())
    }
}

/// The frame of a payload: sentinel, escaped payload, sentinel.
pub open spec fn encoded(payload: Seq<u8>) -> Seq<u8> {
    seq![END] + escaped(payload) + seq![END]
}

/// The payload that the bytes `rest` carry, read from the front with `acc`
/// gathered so far and `pending` set after an escape byte: the first
/// payload that is not empty and that a sentinel closes, the empty payload
/// where the bytes end first, and `None` on an escape byte followed by
/// anything but `ESC_END` or `ESC_ESC`. Sentinels before the payload are
/// passed over.
pub open spec fn unstuffed(rest: Seq<u8>, acc: Seq<u8>, pending: bool) -> Option<Seq<u8>>
    decreases rest.len(),
{
    if rest.len() == 0 {
        Some(Seq::empty())
    } else if pending {
        if rest.first() == ESC_END {
            unstuffed(rest.drop_first(), acc.push(END), false)
        } else if rest.first() == ESC_ESC {
            unstuffed(rest.drop_first(), acc.push(ESC), false)
        } else {
            None
        }
    } else if rest.first() == END {
        if acc.len() > 0 {
            Some(acc)
        } else {
            unstuffed(rest.drop_first(), acc, false)
        }
    } else if rest.first() == ESC {
        unstuffed(rest.drop_first(), acc, true)
    } else {
        unstuffed(rest.drop_first(), acc.push(rest.first()), false)
    }
}

/// The payload of the first frame in `raw`, or why there is none. An empty
/// payload is a frame only where `raw` holds its two sentinels and ends with
/// one.
pub open spec fn decoded(raw: Seq<u8>) -> Result<Seq<u8>, FramingError> {
    match unstuffed(raw, Seq::empty(), false) {
        None => Err(FramingError::Malformed),
        Some(payload) => if payload.len() == 0 && (raw.len() < 2 || raw.last() != END) {
            Err(FramingError::Truncated)
        } else {
            Ok(payload)
        },
    }
}

/// Appends one payload byte, escaped where it is reserved.
fn push_escaped(out: &mut Vec<u8>, b: u8)
    ensures
        final(out)@ == old(out)@ + escape_byte(b),
{
    if b == END {
        out.push(ESC);
        out.push(ESC_END);
    } else if b == ESC {
        out.push(ESC);
        out.push(ESC_ESC);
    } else {
        out.push(b);
    }
    assert(out@ =~= old(out)@ + escape_byte(b));
}

/// Wraps `payload` into one frame.
pub fn encode(payload: &[u8]) -> (frame: Vec<u8>)
    ensures
        frame@ == encoded(payload@),
{
    let mut out: Vec<u8> = Vec::new();
    out.push(END);
    let n: usize = payload.len();
    let mut i: usize = 0;
    assert(payload@.subrange(0, n as int) =~= payload@);
    while i < n
        invariant
            i <= n,
            n == payload.len(),
            out@ + escaped(payload@.subrange(i as int, n as int)) == seq![END] + escaped(payload@),
        decreases n - i,
    {
        let ghost before = out@;
        let ghost tail = payload@.subrange(i as int, n as int);
        assert(tail.drop_first() =~= payload@.subrange(i + 1, n as int));
        push_escaped(&mut out, payload[i]);
        assert(out@ + escaped(tail.drop_first()) =~= before + escaped(tail));
        i += 1;
    }
    assert(out@ =~= out@ + escaped(payload@.subrange(n as int, n as int)));
    out.push(END);
    out
}

/// Whether the first `n` bytes of `raw` end with the sentinel that closes a
/// frame: a sentinel with at least one other byte before it.
pub open spec fn closes_frame(raw: Seq<u8>, n: int) -> bool {
    1 <= n <= raw.len() && raw[n - 1] == END && exists|i: int|
        0 <= i < n - 1 && #[trigger] raw[i] != END
}

/// How many of the received bytes make up the first frame, sentinels before
/// it included: the least `n` for which `closes_frame` holds, and `None`
/// while the frame is not closed. Sentinels with nothing between them close
/// no frame.
pub fn frame_end(raw: &[u8]) -> (out: Option<usize>)
    ensures
        match out {
            Some(n) => closes_frame(raw@, n as int) && forall|m: int|
                0 <= m < n ==> !closes_frame(raw@, m),
            None => forall|m: int| 0 <= m <= raw@.len() ==> !closes_frame(raw@, m),
        },
{
    let mut seen: bool = false;
    let mut i: usize = 0;
    while i < raw.len()
        invariant
            i <= raw.len(),
            seen <==> exists|j: int| 0 <= j < i && #[trigger] raw@[j] != END,
            forall|m: int| 0 <= m <= i ==> !closes_frame(raw@, m),
        decreases raw.len() - i,
    {
        if raw[i] == END {
            if seen {
                return Some(i + 1);
            }
        } else {
            assert(raw@[i as int] != END);
            seen = true;
        }
        i += 1;
    }
    None
}

/// The error type of `slip_codec`'s decoder.
#[verifier::external_type_specification]
#[verifier::external_body]
pub struct ExSlipError(slip_codec::Error);

/// `slip_codec::Decoder::decode` on a decoder fresh from `Decoder::new`, with
/// room for as many bytes as `raw` holds, reading `raw` to its end. The
/// decoder skips sentinels while it has gathered nothing, un-escapes as it
/// goes, hands out what it gathered at the first sentinel after that, and an
/// empty vector where the bytes end first. It fails on an escape byte that is
/// followed by neither `ESC_END` nor `ESC_ESC`; its two other errors cannot
/// occur here, since a slice never fails to read and the room is never used up.
#[verifier::external_body]
fn read_frame(raw: &[u8], room: usize) -> (out: Result<Vec<u8>, slip_codec::Error>)
    requires
        room == raw@.len(),
    ensures
        match out {
            Ok(payload) => unstuffed(raw@, Seq::empty(), false) == Some(payload@),
            Err(_) => unstuffed(raw@, Seq::empty(), false) is None,
        },
{
    let mut source: &[u8] = raw;
    slip_codec::Decoder::new(room).decode(&mut source)
}

/// Takes the first frame out of `raw`. All or nothing: bytes that end inside
/// a frame give `Truncated`, never a part of the payload.
pub fn decode(raw: &[u8]) -> (out: Result<Vec<u8>, FramingError>)
    ensures
        match out {
            Ok(payload) => decoded(raw@) == Ok::<Seq<u8>, FramingError>(payload@),
            Err(e) => decoded(raw@) == Err::<Seq<u8>, FramingError>(e),
        },
{
    match read_frame(raw, raw.len()) {
        Err(_) => Err(FramingError::Malformed),
        Ok(payload) => {
            if payload.len() == 0 && (raw.len() < 2 || raw[raw.len() - 1] != END) {
                Err(FramingError::Truncated)
            } else {
                Ok(payload)
            }
        },
    }
}

/// Reading an escaped payload gathers the payload itself.
pub proof fn lemma_unstuffed_escaped(payload: Seq<u8>, acc: Seq<u8>, tail: Seq<u8>)
    ensures
        unstuffed(escaped(payload) + tail, acc, false) == unstuffed(tail, acc + payload, false),
    decreases payload.len(),
{
    if payload.len() == 0 {
        assert(escaped(payload) + tail =~= tail);
        assert(acc + payload =~= acc);
    } else {
        let x = payload.first();
        let rest = escaped(payload.drop_first()) + tail;
        let all = escaped(payload) + tail;
        assert(all =~= escape_byte(x) + rest);
        if x == END || x == ESC {
            let y = if x == END { ESC_END } else { ESC_ESC };
            assert(all.first() == ESC);
            assert(all.drop_first() =~= seq![y] + rest);
            assert(all.drop_first().first() == y);
            assert(all.drop_first().drop_first() =~= rest);
            assert(unstuffed(all, acc, false) == unstuffed(all.drop_first(), acc, true));
            assert(unstuffed(all.drop_first(), acc, true) == unstuffed(rest, acc.push(x), false));
        } else {
            assert(all.first() == x);
            assert(all.drop_first() =~= rest);
            assert(unstuffed(all, acc, false) == unstuffed(rest, acc.push(x), false));
        }
        lemma_unstuffed_escaped(payload.drop_first(), acc.push(x), tail);
        assert(acc.push(x) + payload.drop_first() =~= acc + payload);
    }
}

/// Decoding the frame of any payload gives that payload back, reserved bytes
/// and the empty payload included.
pub proof fn lemma_round_trip(payload: Seq<u8>)
    ensures
        decoded(encoded(payload)) == Ok::<Seq<u8>, FramingError>(payload),
{
    let frame = encoded(payload);
    let inner = escaped(payload) + seq![END];
    let close = seq![END];
    assert(frame =~= seq![END] + inner);
    assert(frame.first() == END);
    assert(frame.drop_first() =~= inner);
    assert(frame.last() == END);
    assert(unstuffed(frame, Seq::empty(), false) == unstuffed(inner, Seq::empty(), false));
    lemma_unstuffed_escaped(payload, Seq::empty(), close);
    assert(Seq::<u8>::empty() + payload =~= payload);
    assert(close.first() == END);
    assert(close.drop_first() =~= Seq::<u8>::empty());
    if payload.len() == 0 {
        assert(unstuffed(close, payload, false) == unstuffed(close.drop_first(), payload, false));
        assert(unstuffed(close.drop_first(), payload, false) == Some(Seq::<u8>::empty()));
        assert(payload =~= Seq::<u8>::empty());
    } else {
        assert(unstuffed(close, payload, false) == Some(payload));
    }
}

/// Up to the sentinel that closes it, a frame is read the same whatever
/// follows, and it never reads as the empty payload.
proof fn lemma_unstuffed_stops_at_sentinel(rest: Seq<u8>, acc: Seq<u8>, pending: bool, n: int)
    requires
        1 <= n <= rest.len(),
        rest[n - 1] == END,
        forall|j: int| 0 <= j < n - 1 ==> rest[j] != END,
        acc.len() > 0 || pending || n >= 2,
    ensures
        unstuffed(rest, acc, pending) == unstuffed(rest.subrange(0, n), acc, pending),
        unstuffed(rest, acc, pending) != Some(Seq::<u8>::empty()),
    decreases n,
{
    let cut = rest.subrange(0, n);
    assert(cut.first() == rest.first());
    if n >= 2 {
        let x = rest.first();
        let tail = rest.drop_first();
        assert(x != END);
        assert(cut.drop_first() =~= tail.subrange(0, n - 1));
        assert(tail[n - 2] == rest[n - 1]);
        assert forall|j: int| 0 <= j < n - 2 implies tail[j] != END by {
            assert(tail[j] == rest[j + 1]);
        }
        if pending {
            if x == ESC_END {
                lemma_unstuffed_stops_at_sentinel(tail, acc.push(END), false, n - 1);
            } else if x == ESC_ESC {
                lemma_unstuffed_stops_at_sentinel(tail, acc.push(ESC), false, n - 1);
            }
        } else if x == ESC {
            lemma_unstuffed_stops_at_sentinel(tail, acc, true, n - 1);
        } else {
            lemma_unstuffed_stops_at_sentinel(tail, acc.push(x), false, n - 1);
        }
    }
}

/// Sentinels before the frame are passed over.
proof fn lemma_unstuffed_first_frame(raw: Seq<u8>, n: int)
    requires
        closes_frame(raw, n),
        forall|m: int| 0 <= m < n ==> !closes_frame(raw, m),
    ensures
        unstuffed(raw, Seq::empty(), false) == unstuffed(raw.subrange(0, n), Seq::empty(), false),
        unstuffed(raw, Seq::empty(), false) != Some(Seq::<u8>::empty()),
    decreases n,
{
    let cut = raw.subrange(0, n);
    let i = choose|i: int| 0 <= i < n - 1 && #[trigger] raw[i] != END;
    assert(cut.first() == raw.first());
    if raw.first() == END {
        let tail = raw.drop_first();
        assert(cut.drop_first() =~= tail.subrange(0, n - 1));
        assert(tail[i - 1] == raw[i]);
        assert(closes_frame(tail, n - 1));
        assert forall|m: int| 0 <= m < n - 1 implies !closes_frame(tail, m) by {
            if closes_frame(tail, m) {
                let k = choose|k: int| 0 <= k < m - 1 && #[trigger] tail[k] != END;
                assert(raw[k + 1] == tail[k]);
                assert(raw[m] == tail[m - 1]);
                assert(closes_frame(raw, m + 1));
            }
        }
        lemma_unstuffed_first_frame(tail, n - 1);
    } else {
        assert forall|j: int| 0 <= j < n - 1 implies raw[j] != END by {
            if raw[j] == END {
                assert(raw[0] != END);
                assert(closes_frame(raw, j + 1));
            }
        }
        lemma_unstuffed_stops_at_sentinel(raw, Seq::empty(), false, n);
    }
}

/// What `frame_end` cuts off decodes as the whole does, and is never taken
/// for a frame that was cut short.
pub proof fn lemma_frame_end_keeps_the_frame(raw: Seq<u8>, n: int)
    requires
        closes_frame(raw, n),
        forall|m: int| 0 <= m < n ==> !closes_frame(raw, m),
    ensures
        decoded(raw.subrange(0, n)) == decoded(raw),
        decoded(raw) != Err::<Seq<u8>, FramingError>(FramingError::Truncated),
{
    lemma_unstuffed_first_frame(raw, n);
    match unstuffed(raw, Seq::empty(), false) {
        Some(payload) => {
            if payload.len() == 0 {
                assert(payload =~= Seq::<u8>::empty());
            }
        },
        None => {},
    }
}

/// The frame of a payload that is not empty ends where `frame_end` says.
pub proof fn lemma_encoded_ends_at_its_sentinel(payload: Seq<u8>)
    requires
        payload.len() > 0,
    ensures
        closes_frame(encoded(payload), encoded(payload).len() as int),
        forall|m: int| 0 <= m < encoded(payload).len() ==> !closes_frame(encoded(payload), m),
{
    let frame = encoded(payload);
    lemma_escaped_has_no_sentinel(payload);
    let inner = escaped(payload);
    assert(inner.len() > 0) by {
        assert(inner =~= escape_byte(payload.first()) + escaped(payload.drop_first()));
    }
    assert(frame.len() == inner.len() + 2);
    assert(frame[0] == END);
    assert forall|j: int| 1 <= j < frame.len() - 1 implies frame[j] != END by {
        assert(frame[j] == inner[j - 1]);
    }
    assert(frame[1] != END);
    assert(frame[frame.len() - 1] == END);
    assert(closes_frame(frame, frame.len() as int));
    assert forall|m: int| 0 <= m < frame.len() implies !closes_frame(frame, m) by {
        if closes_frame(frame, m) {
            assert(m - 1 == 0);
        }
    }
}

/// No byte of an escaped payload is the sentinel.
pub proof fn lemma_escaped_has_no_sentinel(payload: Seq<u8>)
    ensures
        forall|j: int| 0 <= j < escaped(payload).len() ==> escaped(payload)[j] != END,
    decreases payload.len(),
{
    if payload.len() > 0 {
        lemma_escaped_has_no_sentinel(payload.drop_first());
        let head = escape_byte(payload.first());
        let tail = escaped(payload.drop_first());
        assert forall|j: int| 0 <= j < escaped(payload).len() implies escaped(payload)[j]
            != END by {
            if j >= head.len() {
                assert(escaped(payload)[j] == tail[j - head.len()]);
            }
        }
    }
}

} // verus!
