//! Frames: a value's layout and its checksum, COBS-encoded and terminated by
//! a zero byte.

use vstd::prelude::*;
use crate::bytes::{le_bytes, lemma_le_bytes_injective, push_u32, read_u32};
use crate::checksum::{checksum, crc32_cksum};
use crate::cobs::{
    cobs_decode,
    cobs_frame,
    lemma_encode_len_short,
    lemma_frame_round_trip,
    lemma_frame_zero_only_at_end,
    max_frame_len,
};
use crate::protocol::{MAX_WIRE_LEN, Wire};

verus! {

/// Number of checksum bytes after a value's layout.
pub const CRC_LEN: usize = 4;

/// The byte that ends every frame.
pub const SENTINEL: u8 = 0;

/// Room for the frame of any `Command` or `Response`: the longest layout,
/// its checksum, one COBS code byte and the terminator.
pub const FRAME_CAPACITY: usize = MAX_WIRE_LEN + CRC_LEN + 2;

/// Encoding failed: the output buffer cannot hold the frame.
#[derive(Clone, Copy, Debug, PartialEq, Eq, Structural)]
pub enum SerializationError {
    BufferTooSmall,
}

/// Why a received frame was rejected.
#[derive(Clone, Copy, Debug, PartialEq, Eq, Structural)]
pub enum DeserError {
    /// The frame is well formed but the checksum it carries does not match.
    CrcError,
    /// The frame is not a COBS encoding of a value's layout followed by four
    /// checksum bytes.
    ParseError,
}

/// What a frame carries: the layout of `v` and its checksum.
pub open spec fn payload_of<T: Wire>(v: T) -> Seq<u8> {
    v.wire() + le_bytes(crc32_cksum(v.wire()))
}

/// The frame of `v`, terminator included.
pub open spec fn frame_of<T: Wire>(v: T) -> Seq<u8> {
    cobs_frame(payload_of(v))
}

/// Whether decoded bytes `d` are a layout followed by four checksum bytes.
pub open spec fn is_split<T: Wire>(d: Seq<u8>) -> bool {
    exists|p: (T, u32)| d == #[trigger] (p.0.wire() + le_bytes(p.1))
}

/// The value and the checksum that decoded bytes `d` carry, when
/// `is_split::<T>(d)`.
pub open spec fn split<T: Wire>(d: Seq<u8>) -> (T, u32) {
    choose|p: (T, u32)| d == #[trigger] (p.0.wire() + le_bytes(p.1))
}

/// The verdict on decoded bytes `d`: the value they carry when they are a
/// layout followed by its checksum.
pub open spec fn payload_verdict<T: Wire>(d: Seq<u8>) -> Result<T, DeserError> {
    if is_split::<T>(d) {
        let p = split::<T>(d);
        if p.1 == crc32_cksum(p.0.wire()) {
            Ok(p.0)
        } else {
            Err(DeserError::CrcError)
        }
    } else {
        Err(DeserError::ParseError)
    }
}

/// The verdict on received bytes `b`.
pub open spec fn decoded<T: Wire>(b: Seq<u8>) -> Result<T, DeserError> {
    match cobs_decode(b) {
        None => Err(DeserError::ParseError),
        Some(d) => payload_verdict::<T>(d),
    }
}

proof fn lemma_payload_verdict<T: Wire>(d: Seq<u8>, v: T, c: u32)
    requires
        d == v.wire() + le_bytes(c),
    ensures
        payload_verdict::<T>(d) == (if c == crc32_cksum(v.wire()) {
            Ok::<T, DeserError>(v)
        } else {
            Err(DeserError::CrcError)
        }),
{
    let w = (v, c);
    assert(d == #[trigger] (w.0.wire() + le_bytes(w.1)));
    assert(exists|p: (T, u32)| d == #[trigger] (p.0.wire() + le_bytes(p.1)));
    let p = split::<T>(d);
    let (v2, c2) = p;
    assert(v.wire() =~= d.subrange(0, v.wire().len() as int));
    assert(v2.wire() =~= d.subrange(0, v2.wire().len() as int));
    T::lemma_prefix_unique(v, v2, d);
    assert(le_bytes(c) =~= le_bytes(c2)) by {
        assert(le_bytes(c) =~= d.subrange(v.wire().len() as int, d.len() as int));
        assert(le_bytes(c2) =~= d.subrange(v.wire().len() as int, d.len() as int));
    }
    lemma_le_bytes_injective(c, c2);
}

/// Writes the frame of `t` at the start of `out_buf` and returns its length.
///
/// Fails, leaving `out_buf` as it was, when `out_buf` is shorter than the
/// worst-case frame for the layout and checksum of `t`.
pub fn serialize_crc_cobs<T: Wire>(t: &T, out_buf: &mut [u8]) -> (r: Result<
    usize,
    SerializationError,
>)
    ensures
        final(out_buf)@.len() == old(out_buf)@.len(),
        match r {
            Ok(n) => {
                &&& old(out_buf)@.len() >= max_frame_len(payload_of(*t).len())
                &&& n == frame_of(*t).len()
                &&& n <= old(out_buf)@.len()
                &&& final(out_buf)@.subrange(0, n as int) == frame_of(*t)
            },
            Err(_) => {
                &&& old(out_buf)@.len() < max_frame_len(payload_of(*t).len())
                &&& final(out_buf)@ == old(out_buf)@
            },
        },
{
    let mut payload: Vec<u8> = Vec::new();
    t.write_wire(&mut payload);
    let crc = checksum(payload.as_slice());
    push_u32(&mut payload, crc);
    proof {
        t.lemma_wire_len();
        assert(payload@ =~= payload_of(*t));
    }
    if out_buf.len() < corncobs::max_encoded_len(payload.len()) {
        return Err(SerializationError::BufferTooSmall);
    }
    let n = corncobs::encode_buf(payload.as_slice(), out_buf);
    assert(final(out_buf)@.subrange(0, n as int) =~= frame_of(*t));
    Ok(n)
}

/// Decodes the frame at the start of `in_buf`, in place, and returns the
/// value it carries.
pub fn deserialize_crc_cobs<T: Wire>(in_buf: &mut [u8]) -> (r: Result<T, DeserError>)
    ensures
        final(in_buf)@.len() == old(in_buf)@.len(),
        r == decoded::<T>(old(in_buf)@),
{
    let n = match corncobs::decode_in_place(in_buf) {
        Ok(n) => n,
        Err(_) => {
            return Err(DeserError::ParseError);
        },
    };
    let ghost d = in_buf@.subrange(0, n as int);
    assert(cobs_decode(old(in_buf)@) == Some(d));
    let (t, used) = match T::read_wire(in_buf) {
        Some(x) => x,
        None => {
            assert forall|p: (T, u32)| d != #[trigger] (p.0.wire() + le_bytes(p.1)) by {
                if d == p.0.wire() + le_bytes(p.1) {
                    assert(p.0.wire() =~= in_buf@.subrange(0, p.0.wire().len() as int));
                }
            }
            return Err(DeserError::ParseError);
        },
    };
    if used > n || n - used != CRC_LEN {
        assert forall|p: (T, u32)| d != #[trigger] (p.0.wire() + le_bytes(p.1)) by {
            if d == p.0.wire() + le_bytes(p.1) {
                assert(p.0.wire() =~= in_buf@.subrange(0, p.0.wire().len() as int));
                T::lemma_prefix_unique(p.0, t, in_buf@);
            }
        }
        return Err(DeserError::ParseError);
    }
    let carried = read_u32(in_buf, used);
    let computed = checksum(vstd::slice::slice_subrange(in_buf, 0, used));
    proof {
        assert(t.wire() =~= in_buf@.subrange(0, used as int));
        assert(d =~= t.wire() + le_bytes(carried));
        lemma_payload_verdict::<T>(d, t, carried);
    }
    if carried != computed {
        return Err(DeserError::CrcError);
    }
    Ok(t)
}

/// The frame of any value fits in `FRAME_CAPACITY` bytes, and so does the
/// worst case that the encoder asks room for.
pub proof fn lemma_frame_fits<T: Wire>(v: T)
    ensures
        max_frame_len(payload_of(v).len()) <= FRAME_CAPACITY,
        frame_of(v).len() == payload_of(v).len() + 2,
        frame_of(v).len() <= FRAME_CAPACITY,
{
    v.lemma_wire_len();
    let len = payload_of(v).len();
    assert(4 <= len <= FRAME_CAPACITY - 2);
    assert((len + 253) / 254 == 1) by (nonlinear_arith)
        requires
            4 <= len <= 21,
    ;
    lemma_encode_len_short(payload_of(v));
}

/// Decoding the frame of a value gives the value back, whatever bytes follow
/// the frame's terminator.
pub proof fn lemma_round_trip<T: Wire>(v: T, tail: Seq<u8>)
    ensures
        decoded::<T>(frame_of(v) + tail) == Ok::<T, DeserError>(v),
{
    lemma_frame_round_trip(payload_of(v), tail);
    lemma_payload_verdict::<T>(payload_of(v), v, crc32_cksum(v.wire()));
}

/// A frame holds the sentinel only as its last byte.
pub proof fn lemma_sentinel_only_at_end<T: Wire>(v: T)
    ensures
        frame_of(v).len() >= 2,
        frame_of(v).last() == SENTINEL,
        forall|i: int| 0 <= i < frame_of(v).len() - 1 ==> frame_of(v)[i] != SENTINEL,
{
    lemma_frame_zero_only_at_end(payload_of(v));
}

/// Received bytes are accepted as a value only when they decode to that
/// value's layout followed by that layout's own checksum; any corruption that
/// is accepted must therefore leave a layout and a matching checksum.
pub proof fn lemma_accepted_only_with_matching_checksum<T: Wire>(b: Seq<u8>, v: T)
    requires
        decoded::<T>(b) == Ok::<T, DeserError>(v),
    ensures
        cobs_decode(b) == Some(payload_of(v)),
{
    let d = cobs_decode(b)->Some_0;
    let p = split::<T>(d);
    lemma_payload_verdict::<T>(d, p.0, p.1);
}

} // verus!
