//! Frame codec: length-prefixed framing over a reliable byte stream.
//!
//! One frame is a 4-byte unsigned big-endian length prefix equal to the
//! payload length, followed by exactly the payload bytes. Zero-length
//! payloads are legal. The transport reads and writes happen outside this
//! crate; here stand the exact bytes of a frame and the exact parse of one.

use crate::bytes::{
    be_bytes, from_be, lemma_be_bytes_len, lemma_from_be_be_bytes, pow256, push_be4, read_be4,
};
use vstd::prelude::*;

verus! {

broadcast use vstd::std_specs::vec::group_vec_axioms;

/// The stream ended before a whole frame arrived: an orderly peer close,
/// not a malformed frame.
#[derive(Clone, Copy, Debug, PartialEq, Eq, Structural)]
pub enum FrameError {
    CleanEof,
}

/// The bytes of one frame carrying `payload`.
pub open spec fn frame_enc(payload: Seq<u8>) -> Seq<u8> {
    be_bytes(payload.len(), 4) + payload
}

/// Parsing one frame from the front of a finished stream: the payload and
/// how many bytes of the stream it took. `None` when the stream ends before
/// the prefix or before the payload completes.
pub open spec fn frame_parse(b: Seq<u8>) -> Option<(Seq<u8>, int)> {
    if b.len() < 4 {
        None
    } else {
        let n = from_be(b.subrange(0, 4));
        if b.len() < 4 + n {
            None
        } else {
            Some((b.subrange(4, 4 + n as int), 4 + n as int))
        }
    }
}

/// Build the frame that carries `payload`.
pub fn encode_frame(payload: &Vec<u8>) -> (r: Vec<u8>)
    requires
        payload.len() <= u32::MAX,
    ensures
        r@ == frame_enc(payload@),
{
    let mut out: Vec<u8> = Vec::new();
    push_be4(&mut out, payload.len() as u32);
    out.extend_from_slice(payload.as_slice());
    proof {
        assert(out@ =~= frame_enc(payload@));
    }
    out
}

/// Parse the frame that starts at `start` in `buf`. On success returns the
/// payload and the position right after the frame.
pub fn decode_frame(buf: &Vec<u8>, start: usize) -> (r: Result<(Vec<u8>, usize), FrameError>)
    requires
        start <= buf.len(),
    ensures
        match r {
            Ok(p) => p.1 <= buf.len() && frame_parse(buf@.subrange(start as int, buf@.len() as int))
                == Some((p.0@, p.1 - start)),
            Err(e) => e == FrameError::CleanEof && frame_parse(
                buf@.subrange(start as int, buf@.len() as int),
            ) is None,
        },
{
    let ghost tail = buf@.subrange(start as int, buf@.len() as int);
    if buf.len() - start < 4 {
        return Err(FrameError::CleanEof);
    }
    let n32 = read_be4(buf, start);
    proof {
        assert(tail.subrange(0, 4) =~= buf@.subrange(start as int, start as int + 4));
    }
    let n = n32 as usize;
    if buf.len() - start - 4 < n {
        return Err(FrameError::CleanEof);
    }
    let mut payload: Vec<u8> = Vec::new();
    let mut i: usize = 0;
    while i < n
        invariant
            i <= n,
            start + 4 + n <= buf.len(),
            payload@ == buf@.subrange(start as int + 4, start as int + 4 + i as int),
        decreases n - i,
    {
        payload.push(buf[start + 4 + i]);
        i = i + 1;
        proof {
            assert(payload@ =~= buf@.subrange(start as int + 4, start as int + 4 + i as int));
        }
    }
    proof {
        assert(payload@ =~= tail.subrange(4, 4 + n as int));
    }
    Ok((payload, start + 4 + n))
}

/// Law: the frame written for any payload parses back to exactly that
/// payload, consuming the whole frame. Lengths up to the 4-byte prefix's
/// range are covered, zero included.
pub proof fn lemma_frame_round_trip(payload: Seq<u8>)
    requires
        payload.len() <= u32::MAX,
    ensures
        frame_parse(frame_enc(payload)) == Some((payload, 4 + payload.len() as int)),
{
    let f = frame_enc(payload);
    lemma_be_bytes_len(payload.len(), 4);
    assert(f.subrange(0, 4) =~= be_bytes(payload.len(), 4));
    assert(pow256(4) == 0x100000000) by {
        reveal_with_fuel(pow256, 5);
    }
    lemma_from_be_be_bytes(payload.len(), 4);
    assert(f.subrange(4, 4 + payload.len() as int) =~= payload);
}

} // verus!
