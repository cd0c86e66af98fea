//! The stage that decodes framed records, and the encoder that matches it.

use vstd::prelude::*;
use vstd::slice::{slice_subrange, slice_to_vec};
use crate::error::StageError;
use crate::stage::Stage;
use crate::wire::{
    after, declared_len, framable, frame, header, lemma_round_trip, lemma_wire_push, parse_frames,
    wire,
};

verus! {

/// An opaque run of bytes taken from a frame.
pub type Record = Vec<u8>;

/// The mathematical content of a decoding result.
pub open spec fn decoded(result: Result<Vec<Record>, StageError>) -> Result<
    Seq<Seq<u8>>,
    StageError,
> {
    match result {
        Ok(records) => Ok(records.deep_view()),
        Err(e) => Err(e),
    }
}

/// Reads the header that starts at `at`.
fn read_header(buf: &Vec<u8>, at: usize) -> (len: u32)
    requires
        at + 4 <= buf.len(),
    ensures
        len == declared_len(buf@.subrange(at as int, buf.len() as int)),
{
    let b0: u32 = buf[at] as u32;
    let b1: u32 = buf[at + 1] as u32;
    let b2: u32 = buf[at + 2] as u32;
    let b3: u32 = buf[at + 3] as u32;
    b0 * 0x100_0000 + b1 * 0x1_0000 + b2 * 0x100 + b3
}

/// Splits a buffer into the records that its frames carry.
pub struct RecordParserStage;

impl Stage<Vec<u8>, Vec<Record>> for RecordParserStage {
    open spec fn yields(&self, input: Vec<u8>, result: Result<Vec<Record>, StageError>) -> bool {
        decoded(result) == parse_frames(input@)
    }

    /// Decodes every frame of `input`, in order.
    ///
    /// Fails with `TruncatedRecord` at the first header that declares more
    /// than the bytes behind it, and with `TrailingBytes` when one to three
    /// bytes follow the last frame.
    fn run(&self, input: Vec<u8>) -> (result: Result<Vec<Record>, StageError>)
        ensures
            decoded(result) == parse_frames(input@),
            input@.len() == 0 ==> decoded(result) == Ok::<Seq<Seq<u8>>, StageError>(Seq::empty()),
            0 < input@.len() < 4 ==> result == Err::<Vec<Record>, StageError>(
                StageError::TrailingBytes { count: input.len() },
            ),
    {
        let n: usize = input.len();
        let mut records: Vec<Record> = Vec::new();
        let mut at: usize = 0;
        proof {
            assert(input@.subrange(0, n as int) == input@);
            assert(records.deep_view() == Seq::<Seq<u8>>::empty());
            if let Ok(all) = parse_frames(input@) {
                assert(Seq::<Seq<u8>>::empty() + all == all);
            }
        }
        while n - at >= 4
            invariant
                n == input.len(),
                at <= n,
                parse_frames(input@) == after(
                    records.deep_view(),
                    parse_frames(input@.subrange(at as int, n as int)),
                ),
            decreases n - at,
        {
            let ghost rest = input@.subrange(at as int, n as int);
            let ghost so_far = records.deep_view();
            let len: u32 = read_header(&input, at);
            at += 4;
            if len as usize > n - at {
                return Err(StageError::TruncatedRecord { expected: len, remaining: n - at });
            }
            let payload = slice_to_vec(slice_subrange(input.as_slice(), at, at + len as usize));
            at += len as usize;
            records.push(payload);
            proof {
                let body = rest.subrange(4, rest.len() as int);
                assert(body.subrange(0, len as int) == payload@);
                assert(body.subrange(len as int, body.len() as int) == input@.subrange(
                    at as int,
                    n as int,
                ));
                assert(payload.deep_view() == payload@);
                assert(records.deep_view() == so_far + seq![payload@]);
                let tail = parse_frames(input@.subrange(at as int, n as int));
                assert(after(so_far, after(seq![payload@], tail)) == after(
                    records.deep_view(),
                    tail,
                )) by {
                    if let Ok(more) = tail {
                        assert(so_far + (seq![payload@] + more) == (so_far + seq![payload@])
                            + more);
                    }
                }
            }
        }
        if at != n {
            return Err(StageError::TrailingBytes { count: n - at });
        }
        proof {
            assert(records.deep_view() + Seq::<Seq<u8>>::empty() == records.deep_view());
        }
        Ok(records)
    }
}

/// Appends the frame that carries `payload` to `buf`.
fn push_frame(buf: &mut Vec<u8>, payload: &Record)
    requires
        payload.len() <= u32::MAX,
    ensures
        final(buf)@ == old(buf)@ + frame(payload@),
{
    let len: usize = payload.len();
    buf.push((len / 0x100_0000) as u8);
    buf.push((len / 0x1_0000 % 0x100) as u8);
    buf.push((len / 0x100 % 0x100) as u8);
    buf.push((len % 0x100) as u8);
    assert(buf@ == old(buf)@ + header(len as int)) by {
        reveal(header);
    }
    let mut k: usize = 0;
    while k < len
        invariant
            len == payload.len(),
            k <= len,
            buf@ == old(buf)@ + header(len as int) + payload@.subrange(0, k as int),
        decreases len - k,
    {
        buf.push(payload[k]);
        k += 1;
    }
    assert(payload@.subrange(0, len as int) == payload@);
    assert(buf@ == old(buf)@ + (header(len as int) + payload@));
}

/// Encodes `records` as one buffer of frames, in order.
///
/// Gives `None` exactly when some record is longer than a header can declare.
/// Decoding the buffer gives the records back.
pub fn encode_frames(records: &Vec<Record>) -> (out: Option<Vec<u8>>)
    ensures
        out is Some <==> framable(records.deep_view()),
        out matches Some(buf) ==> buf@ == wire(records.deep_view()) && parse_frames(buf@) == Ok::<
            Seq<Seq<u8>>,
            StageError,
        >(records.deep_view()),
{
    let mut buf: Vec<u8> = Vec::new();
    let mut i: usize = 0;
    let ghost all = records.deep_view();
    while i < records.len()
        invariant
            i <= records.len(),
            all == records.deep_view(),
            framable(all.take(i as int)),
            buf@ == wire(all.take(i as int)),
        decreases records.len() - i,
    {
        let payload = &records[i];
        proof {
            assert(all[i as int] == payload@);
            assert(all.take(i + 1) == all.take(i as int).push(payload@));
        }
        if payload.len() > 0xFFFF_FFFF {
            return None;
        }
        push_frame(&mut buf, payload);
        proof {
            lemma_wire_push(all.take(i as int), payload@);
        }
        i += 1;
    }
    proof {
        assert(all.take(i as int) == all);
        lemma_round_trip(all);
    }
    Some(buf)
}

} // verus!
