//! The length-prefixed frame codec of the wire protocol: every message is a
//! big-endian `u32` length followed by that many payload bytes.
use crate::format::extend;
use crate::wire::{be_u32, get_u32, lemma_be_u32_roundtrip, put_u32, read_be_u32};
use vstd::prelude::*;

verus! {

/// The size of the length prefix of a frame.
pub const FRAME_PREFIX_SIZE: usize = 4;

/// Frames payloads for the wire and reads frame prefixes back.
pub struct ValueCodec;

/// The bytes of the frame that carries `payload`: its length, kept to 32
/// bits, then the payload.
pub open spec fn frame_bytes(payload: Seq<u8>) -> Seq<u8> {
    be_u32(payload.len() as u32) + payload
}

impl ValueCodec {
    /// The frame that carries `payload`.
    pub fn encode_frame(payload: &[u8]) -> (frame: Vec<u8>)
        ensures
            frame@ == frame_bytes(payload@),
    {
        let mut buf: Vec<u8> = Vec::new();
        put_u32(&mut buf, payload.len() as u32);
        extend(&mut buf, payload);
        buf
    }

    /// The payload length that a frame prefix announces.
    pub fn frame_len(prefix: &[u8]) -> (len: u32)
        requires
            prefix@.len() >= FRAME_PREFIX_SIZE,
        ensures
            len == read_be_u32(prefix@, 0),
    {
        get_u32(prefix, 0)
    }
}

/// Framing reads back: the prefix of the frame of a payload that fits in 32
/// bits announces the payload's length, and the payload follows it.
pub proof fn law_frame_roundtrip(payload: Seq<u8>)
    requires
        payload.len() <= u32::MAX,
    ensures
        read_be_u32(frame_bytes(payload), 0) == payload.len(),
        frame_bytes(payload).subrange(
            FRAME_PREFIX_SIZE as int,
            frame_bytes(payload).len() as int,
        ) == payload,
{
    let f = frame_bytes(payload);
    assert(f.subrange(0, 4) =~= be_u32(payload.len() as u32));
    lemma_be_u32_roundtrip(payload.len() as u32, f, 0);
    assert(f.subrange(4, f.len() as int) =~= payload);
}

} // verus!
