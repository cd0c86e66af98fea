//! The wire format of records, as mathematics.
//!
//! A buffer is a run of frames. Each frame is a four-byte big-endian length
//! followed by that many payload bytes; nothing may follow the last frame.

use vstd::prelude::*;
use vstd::arithmetic::div_mod::{lemma_fundamental_div_mod, lemma_fundamental_div_mod_converse};
use crate::error::StageError;

verus! {

/// The number that four bytes spell in big-endian order.
pub open spec fn be_value(b0: u8, b1: u8, b2: u8, b3: u8) -> int {
    b0 * 0x100_0000 + b1 * 0x1_0000 + b2 * 0x100 + b3
}

/// The payload length declared by the header at the front of `buf`.
pub open spec fn declared_len(buf: Seq<u8>) -> int
    recommends
        buf.len() >= 4,
{
    be_value(buf[0], buf[1], buf[2], buf[3])
}

/// The four header bytes that declare a payload of `len` bytes.
#[verifier::opaque]
pub open spec fn header(len: int) -> Seq<u8>
    recommends
        0 <= len <= u32::MAX,
{
    seq![
        (len / 0x100_0000) as u8,
        (len / 0x1_0000 % 0x100) as u8,
        (len / 0x100 % 0x100) as u8,
        (len % 0x100) as u8,
    ]
}

/// The frame that carries `payload`.
pub open spec fn frame(payload: Seq<u8>) -> Seq<u8>
    recommends
        payload.len() <= u32::MAX,
{
    header(payload.len() as int) + payload
}

/// The buffer that carries `records`, in order, and nothing else.
pub open spec fn wire(records: Seq<Seq<u8>>) -> Seq<u8>
    decreases records.len(),
{
    if records.len() == 0 {
        Seq::empty()
    } else {
        frame(records.first()) + wire(records.drop_first())
    }
}

/// Whether every record is short enough for a header to declare its length.
pub open spec fn framable(records: Seq<Seq<u8>>) -> bool {
    forall|i: int| 0 <= i < records.len() ==> (#[trigger] records[i]).len() <= u32::MAX
}

/// `records` followed by what `rest` decodes to; a failure in `rest` is the
/// failure of the whole.
pub open spec fn after(records: Seq<Seq<u8>>, rest: Result<Seq<Seq<u8>>, StageError>) -> Result<
    Seq<Seq<u8>>,
    StageError,
> {
    match rest {
        Ok(more) => Ok(records + more),
        Err(e) => Err(e),
    }
}

/// What decoding `buf` gives: its records in order, or the first violation of
/// the frame format.
///
/// Fewer than four bytes hold no header: none is a clean end, one to three are
/// trailing bytes. A header that declares more than the bytes behind it is a
/// truncated record.
pub open spec fn parse_frames(buf: Seq<u8>) -> Result<Seq<Seq<u8>>, StageError>
    decreases buf.len(),
{
    if buf.len() == 0 {
        Ok(Seq::empty())
    } else if buf.len() < 4 {
        Err(StageError::TrailingBytes { count: buf.len() as usize })
    } else {
        let len = declared_len(buf);
        let body = buf.subrange(4, buf.len() as int);
        if len > body.len() {
            Err(StageError::TruncatedRecord { expected: len as u32, remaining: body.len() as usize })
        } else {
            after(seq![body.subrange(0, len)], parse_frames(body.subrange(len, body.len() as int)))
        }
    }
}

/// The number that four digits below 256 spell gives those digits back under
/// division and remainder.
proof fn lemma_digits_of_value(d0: int, d1: int, d2: int, d3: int)
    requires
        0 <= d0 < 0x100,
        0 <= d1 < 0x100,
        0 <= d2 < 0x100,
        0 <= d3 < 0x100,
    ensures
        ({
            let value = d0 * 0x100_0000 + d1 * 0x1_0000 + d2 * 0x100 + d3;
            &&& 0 <= value <= u32::MAX
            &&& value / 0x100_0000 == d0
            &&& value / 0x1_0000 % 0x100 == d1
            &&& value / 0x100 % 0x100 == d2
            &&& value % 0x100 == d3
        }),
{
    let value = d0 * 0x100_0000 + d1 * 0x1_0000 + d2 * 0x100 + d3;
    lemma_fundamental_div_mod_converse(
        value,
        0x100_0000,
        d0,
        d1 * 0x1_0000 + d2 * 0x100 + d3,
    );
    lemma_fundamental_div_mod_converse(value, 0x1_0000, d0 * 0x100 + d1, d2 * 0x100 + d3);
    lemma_fundamental_div_mod_converse(d0 * 0x100 + d1, 0x100, d0, d1);
    lemma_fundamental_div_mod_converse(value, 0x100, d0 * 0x1_0000 + d1 * 0x100 + d2, d3);
    lemma_fundamental_div_mod_converse(d0 * 0x1_0000 + d1 * 0x100 + d2, 0x100, d0 * 0x100 + d1, d2);
}

/// A header spells the length it was made from.
pub proof fn lemma_header_declares(len: int)
    requires
        0 <= len <= u32::MAX,
    ensures
        header(len).len() == 4,
        declared_len(header(len)) == len,
{
    reveal(header);
    let low = len / 0x100;
    let mid = low / 0x100;
    let d0 = mid / 0x100;
    let d1 = mid % 0x100;
    let d2 = low % 0x100;
    let d3 = len % 0x100;
    lemma_fundamental_div_mod(len, 0x100);
    lemma_fundamental_div_mod(low, 0x100);
    lemma_fundamental_div_mod(mid, 0x100);
    assert(len == d0 * 0x100_0000 + d1 * 0x1_0000 + d2 * 0x100 + d3);
    lemma_digits_of_value(d0, d1, d2, d3);
}

/// The first four bytes of a buffer are the header of the length they declare.
pub proof fn lemma_declared_header(buf: Seq<u8>)
    requires
        buf.len() >= 4,
    ensures
        0 <= declared_len(buf) <= u32::MAX,
        header(declared_len(buf)) == buf.subrange(0, 4),
{
    reveal(header);
    lemma_digits_of_value(buf[0] as int, buf[1] as int, buf[2] as int, buf[3] as int);
}

/// Where the header at the front of a buffer declares no more than the
/// bytes behind it, the buffer starts with the frame of those bytes.
pub proof fn lemma_front_is_frame(buf: Seq<u8>)
    requires
        buf.len() >= 4,
        declared_len(buf) <= buf.len() - 4,
    ensures
        frame(buf.subrange(4, 4 + declared_len(buf))) == buf.subrange(0, 4 + declared_len(buf)),
{
    let len = declared_len(buf);
    lemma_declared_header(buf);
    assert(buf.subrange(0, 4) + buf.subrange(4, 4 + len) == buf.subrange(0, 4 + len));
}

/// Appending one record to the records appends its frame to the buffer.
pub proof fn lemma_wire_push(records: Seq<Seq<u8>>, last: Seq<u8>)
    ensures
        wire(records.push(last)) == wire(records) + frame(last),
    decreases records.len(),
{
    let all = records.push(last);
    if records.len() == 0 {
        assert(all.drop_first() == Seq::<Seq<u8>>::empty());
        assert(wire(all.drop_first()) == Seq::<u8>::empty());
        assert(wire(all) == frame(last) + Seq::<u8>::empty());
    } else {
        assert(all.first() == records.first());
        assert(all.drop_first() == records.drop_first().push(last));
        lemma_wire_push(records.drop_first(), last);
        assert(wire(all) == frame(records.first()) + (wire(records.drop_first()) + frame(last)));
    }
}

/// Decoding reads the frames at the front of a buffer and goes on with what
/// follows them: a buffer that starts with the frames of `records` decodes
/// to `records` followed by whatever the rest decodes to.
pub proof fn lemma_parse_after_frames(records: Seq<Seq<u8>>, rest: Seq<u8>)
    requires
        framable(records),
    ensures
        parse_frames(wire(records) + rest) == after(records, parse_frames(rest)),
    decreases records.len(),
{
    if records.len() == 0 {
        assert(wire(records) + rest == rest);
        if let Ok(more) = parse_frames(rest) {
            assert(records + more == more);
        }
    } else {
        let head = records.first();
        let tail = records.drop_first();
        let buf = wire(records) + rest;
        let len = head.len() as int;
        assert(head == records[0]);
        assert(framable(tail)) by {
            assert forall|i: int| 0 <= i < tail.len() implies (#[trigger] tail[i]).len()
                <= u32::MAX by {
                assert(tail[i] == records[i + 1]);
            }
        }
        lemma_header_declares(len);
        assert(buf.subrange(0, 4) == header(len));
        assert(declared_len(buf) == len) by {
            assert(buf[0] == header(len)[0]);
            assert(buf[1] == header(len)[1]);
            assert(buf[2] == header(len)[2]);
            assert(buf[3] == header(len)[3]);
        }
        let body = buf.subrange(4, buf.len() as int);
        assert(body == head + (wire(tail) + rest));
        assert(body.subrange(0, len) == head);
        assert(body.subrange(len, body.len() as int) == wire(tail) + rest);
        lemma_parse_after_frames(tail, rest);
        if let Ok(more) = parse_frames(rest) {
            assert(seq![head] + (tail + more) == records + more);
        }
    }
}

/// Framing round trip: the buffer that carries any records decodes to those
/// records, byte for byte and in order.
pub proof fn lemma_round_trip(records: Seq<Seq<u8>>)
    requires
        framable(records),
    ensures
        parse_frames(wire(records)) == Ok::<Seq<Seq<u8>>, StageError>(records),
{
    lemma_parse_after_frames(records, Seq::empty());
    assert(wire(records) + Seq::<u8>::empty() == wire(records));
    assert(records + Seq::<Seq<u8>>::empty() == records);
}

/// A buffer decodes to records only if it is exactly the frames of those
/// records: the frames fill the buffer with no gap and nothing left over.
pub proof fn lemma_decoded_fills_buffer(buf: Seq<u8>, records: Seq<Seq<u8>>)
    requires
        parse_frames(buf) == Ok::<Seq<Seq<u8>>, StageError>(records),
    ensures
        framable(records),
        wire(records) == buf,
    decreases buf.len(),
{
    if buf.len() != 0 {
        let len = declared_len(buf);
        let body = buf.subrange(4, buf.len() as int);
        let head = body.subrange(0, len);
        let rest = body.subrange(len, body.len() as int);
        let more = parse_frames(rest)->Ok_0;
        assert(records == seq![head] + more);
        lemma_decoded_fills_buffer(rest, more);
        assert(framable(records)) by {
            assert forall|i: int| 0 <= i < records.len() implies (#[trigger] records[i]).len()
                <= u32::MAX by {
                if i > 0 {
                    assert(records[i] == more[i - 1]);
                }
            }
        }
        assert(wire(records) == frame(head) + wire(more)) by {
            assert(records.first() == head);
            assert(records.drop_first() == more);
        }
        assert(frame(head) == buf.subrange(0, 4 + len)) by {
            lemma_front_is_frame(buf);
            assert(head == buf.subrange(4, 4 + len));
        }
        assert(buf.subrange(0, 4 + len) + rest == buf);
    }
}

/// A buffer decodes to `records` exactly when it is the buffer that carries
/// them and each of them fits a frame.
pub proof fn lemma_decodes_exactly_its_wire(buf: Seq<u8>, records: Seq<Seq<u8>>)
    ensures
        parse_frames(buf) == Ok::<Seq<Seq<u8>>, StageError>(records) <==> framable(records)
            && wire(records) == buf,
{
    if parse_frames(buf) == Ok::<Seq<Seq<u8>>, StageError>(records) {
        lemma_decoded_fills_buffer(buf, records);
    }
    if framable(records) {
        lemma_round_trip(records);
    }
}

/// Input too short for a header: no bytes decode to no records, one to three
/// bytes are reported as trailing, with their exact count.
pub proof fn lemma_short_input(buf: Seq<u8>)
    requires
        buf.len() < 4,
    ensures
        buf.len() == 0 ==> parse_frames(buf) == Ok::<Seq<Seq<u8>>, StageError>(Seq::empty()),
        buf.len() > 0 ==> parse_frames(buf) == Err::<Seq<Seq<u8>>, StageError>(
            StageError::TrailingBytes { count: buf.len() as usize },
        ),
{
}

/// A last frame that is cut short: after any complete frames, a header that
/// declares more bytes than follow it fails the whole buffer as truncated,
/// with the declared length and the count of bytes that do follow.
pub proof fn lemma_truncated_last_frame(records: Seq<Seq<u8>>, declared: u32, tail: Seq<u8>)
    requires
        framable(records),
        tail.len() < declared,
    ensures
        parse_frames(wire(records) + (header(declared as int) + tail)) == Err::<
            Seq<Seq<u8>>,
            StageError,
        >(StageError::TruncatedRecord { expected: declared, remaining: tail.len() as usize }),
{
    let last = header(declared as int) + tail;
    lemma_parse_after_frames(records, last);
    lemma_header_declares(declared as int);
    assert(declared_len(last) == declared) by {
        assert(last[0] == header(declared as int)[0]);
        assert(last[1] == header(declared as int)[1]);
        assert(last[2] == header(declared as int)[2]);
        assert(last[3] == header(declared as int)[3]);
    }
    assert(last.subrange(4, last.len() as int) == tail);
}

/// Stray bytes at the end: after any complete frames, one to three extra
/// bytes fail the whole buffer as trailing, with their count.
pub proof fn lemma_trailing_bytes(records: Seq<Seq<u8>>, extra: Seq<u8>)
    requires
        framable(records),
        1 <= extra.len() <= 3,
    ensures
        parse_frames(wire(records) + extra) == Err::<Seq<Seq<u8>>, StageError>(
            StageError::TrailingBytes { count: extra.len() as usize },
        ),
{
    lemma_parse_after_frames(records, extra);
}

} // verus!
