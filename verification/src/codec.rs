//! Length-prefixed framing of message payloads.
//!
//! Every message travels as one frame: the payload preceded by its length
//! as four little-endian bytes.  Framing is transport agnostic; the caller
//! reads and writes the bytes, this module defines and checks their shape.

use vstd::bytes::*;
use vstd::prelude::*;
use vstd::slice::*;

verus! {

/// Why a byte sequence failed to decode as a frame or as a message.
#[derive(Clone, Copy, PartialEq, Eq, Structural, Debug)]
pub enum DecodeError {
    /// The bytes end before the announced or required length.
    Truncated,
    /// A variant tag is none of the known ones.
    InvalidTag,
    /// Bytes follow the end of a complete value.
    TrailingBytes,
}

/// The largest payload a frame can carry: its length must fit the
/// four-byte prefix.
pub const MAX_FRAME_PAYLOAD: u64 = 0xFFFF_FFFF;

/// A frame: the payload preceded by its length as four little-endian
/// bytes.
pub open spec fn spec_frame(payload: Seq<u8>) -> Seq<u8> {
    spec_u32_to_le_bytes(payload.len() as u32) + payload
}

/// Frame decoding: the length prefix must match the remaining bytes
/// exactly.
pub open spec fn spec_unframe(b: Seq<u8>) -> Result<Seq<u8>, DecodeError> {
    if b.len() < 4 {
        Err(DecodeError::Truncated)
    } else {
        let n = spec_u32_from_le_bytes(b.subrange(0, 4)) as int;
        if b.len() - 4 < n {
            Err(DecodeError::Truncated)
        } else if b.len() - 4 > n {
            Err(DecodeError::TrailingBytes)
        } else {
            Ok(b.skip(4))
        }
    }
}

/// Unframing inverts framing for every payload that fits a frame.
pub proof fn lemma_frame_round_trip(payload: Seq<u8>)
    requires
        payload.len() <= MAX_FRAME_PAYLOAD,
    ensures
        spec_unframe(spec_frame(payload)) == Ok::<Seq<u8>, DecodeError>(payload),
{
    lemma_auto_spec_u32_to_from_le_bytes();
    let b = spec_frame(payload);
    assert(b.subrange(0, 4) =~= spec_u32_to_le_bytes(payload.len() as u32));
    assert(b.skip(4) =~= payload);
}

/// Prefix the payload with its length, making one frame.
pub fn encode_frame(payload: Vec<u8>) -> (r: Vec<u8>)
    requires
        payload@.len() <= MAX_FRAME_PAYLOAD,
    ensures
        r@ == spec_frame(payload@),
{
    let mut out = u32_to_le_bytes(payload.len() as u32);
    let mut p = payload;
    out.append(&mut p);
    out
}

/// Check the length prefix and strip it, returning the payload.
pub fn unframe(b: &[u8]) -> (r: Result<Vec<u8>, DecodeError>)
    ensures
        match r {
            Ok(p) => spec_unframe(b@) == Ok::<Seq<u8>, DecodeError>(p@),
            Err(e) => spec_unframe(b@) == Err::<Seq<u8>, DecodeError>(e),
        },
{
    let len: usize = b.len();
    if len < 4 {
        return Err(DecodeError::Truncated);
    }
    let n = u32_from_le_bytes(slice_subrange(b, 0, 4));
    if ((len - 4) as u64) < (n as u64) {
        return Err(DecodeError::Truncated);
    }
    if ((len - 4) as u64) > (n as u64) {
        return Err(DecodeError::TrailingBytes);
    }
    let payload = slice_to_vec(slice_subrange(b, 4, len));
    proof {
        assert(b@.subrange(4, len as int) =~= b@.skip(4));
    }
    Ok(payload)
}

} // verus!
