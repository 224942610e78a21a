//! Consistent Overhead Byte Stuffing, as done by `corncobs`.
//!
//! An encoded message holds no zero byte; a single zero byte after it marks
//! the end of the frame.

use vstd::prelude::*;

verus! {

#[verifier::external_type_specification]
#[verifier::external_body]
pub struct ExCobsError(corncobs::CobsError);

/// Number of leading non-zero bytes of `s`.
pub open spec fn nonzero_prefix_len(s: Seq<u8>) -> nat
    decreases s.len(),
{
    if s.len() == 0 || s[0] == 0 {
        0
    } else {
        1 + nonzero_prefix_len(s.drop_first())
    }
}

/// Length of the first block of `s`: its leading non-zero bytes, at most 254.
pub open spec fn block_len(s: Seq<u8>) -> nat {
    let k = nonzero_prefix_len(s);
    if k < 254 {
        k
    } else {
        254
    }
}

/// The COBS encoding of `s`, without the terminating zero.
///
/// Each block of `k` non-zero bytes is written as the code byte `k + 1` and
/// the block. A block shorter than 254 bytes stands for itself followed by a
/// zero, except at the very end; a block of 254 bytes (code 255) implies no
/// zero.
pub open spec fn cobs_encode(s: Seq<u8>) -> Seq<u8>
    decreases s.len(),
{
    let k = block_len(s);
    if k >= s.len() {
        seq![(s.len() + 1) as u8] + s
    } else if k == 254 {
        seq![255u8] + s.subrange(0, 254) + cobs_encode(s.subrange(254, s.len() as int))
    } else {
        seq![(k + 1) as u8] + s.subrange(0, k as int) + cobs_encode(
            s.subrange(k as int + 1, s.len() as int),
        )
    }
}

/// A complete frame: the encoding of `s` and the terminating zero.
pub open spec fn cobs_frame(s: Seq<u8>) -> Seq<u8> {
    cobs_encode(s).push(0)
}

/// What decoding `b` yields: blocks are read up to the first zero code byte
/// or the end of `b`, whichever comes first. `None` when a block claims more
/// bytes than remain.
pub open spec fn cobs_decode(b: Seq<u8>) -> Option<Seq<u8>>
    decreases b.len(),
{
    if b.len() == 0 || b[0] == 0 {
        Some(Seq::empty())
    } else {
        let n = b[0] as int - 1;
        if b.len() < 1 + n {
            None
        } else {
            let data = b.subrange(1, 1 + n);
            let rest = b.subrange(1 + n, b.len() as int);
            if rest.len() == 0 || rest[0] == 0 {
                Some(data)
            } else {
                match cobs_decode(rest) {
                    None => None,
                    Some(d) => if n == 254 {
                        Some(data + d)
                    } else {
                        Some(data.push(0) + d)
                    },
                }
            }
        }
    }
}

/// The worst-case size of a frame for a message of `raw_len` bytes,
/// terminator included.
pub open spec fn max_frame_len(raw_len: nat) -> nat {
    raw_len + (if raw_len == 0 {
        1
    } else {
        ((raw_len + 253) / 254) as nat
    }) + 1
}

/// Relies on `corncobs::max_encoded_len`, which computes the bound above.
pub assume_specification[ corncobs::max_encoded_len ](raw_len: usize) -> (r: usize)
    requires
        raw_len <= usize::MAX / 2,
    ensures
        r == max_frame_len(raw_len as nat),
;

/// Relies on `corncobs::encode_buf`: it writes the frame of `bytes` at the
/// start of `output`, leaves the rest of `output` as it was, and returns the
/// frame's length. It asserts that `output` has room for the worst case.
pub assume_specification[ corncobs::encode_buf ](bytes: &[u8], output: &mut [u8]) -> (r: usize)
    requires
        old(output)@.len() >= max_frame_len(bytes@.len()),
    ensures
        r == cobs_frame(bytes@).len(),
        r <= old(output)@.len(),
        final(output)@ == cobs_frame(bytes@) + old(output)@.subrange(r as int, old(output)@.len() as int),
;

/// Relies on `corncobs::decode_in_place`: it decodes the blocks of `bytes`
/// up to the first zero code byte, writes the result at the start of `bytes`
/// and returns its length, or fails when a block runs past the end.
pub assume_specification[ corncobs::decode_in_place ](bytes: &mut [u8]) -> (r: Result<
    usize,
    corncobs::CobsError,
>)
    ensures
        final(bytes)@.len() == old(bytes)@.len(),
        r is Ok <==> cobs_decode(old(bytes)@) is Some,
        r is Ok ==> {
            let d = cobs_decode(old(bytes)@)->Some_0;
            &&& r->Ok_0 == d.len()
            &&& d.len() <= old(bytes)@.len()
            &&& final(bytes)@.subrange(0, d.len() as int) == d
        },
;

proof fn lemma_nonzero_prefix(s: Seq<u8>)
    ensures
        nonzero_prefix_len(s) <= s.len(),
        forall|i: int| 0 <= i < nonzero_prefix_len(s) ==> s[i] != 0,
        nonzero_prefix_len(s) < s.len() ==> s[nonzero_prefix_len(s) as int] == 0,
    decreases s.len(),
{
    if s.len() > 0 && s[0] != 0 {
        lemma_nonzero_prefix(s.drop_first());
        assert forall|i: int| 0 <= i < nonzero_prefix_len(s) implies s[i] != 0 by {
            if i > 0 {
                assert(s[i] == s.drop_first()[i - 1]);
            }
        }
    }
}

/// An encoding is never empty and holds no zero byte.
pub proof fn lemma_encode_nonzero(s: Seq<u8>)
    ensures
        cobs_encode(s).len() >= 1,
        forall|i: int| 0 <= i < cobs_encode(s).len() ==> cobs_encode(s)[i] != 0,
    decreases s.len(),
{
    lemma_nonzero_prefix(s);
    let k = block_len(s);
    let e = cobs_encode(s);
    if k >= s.len() {
        assert forall|i: int| 0 <= i < e.len() implies e[i] != 0 by {
            if i > 0 {
                assert(e[i] == s[i - 1]);
            }
        }
    } else {
        let head = if k == 254 {
            254int
        } else {
            k as int
        };
        let t = if k == 254 {
            s.subrange(254, s.len() as int)
        } else {
            s.subrange(k as int + 1, s.len() as int)
        };
        lemma_encode_nonzero(t);
        assert(e == seq![(head + 1) as u8] + s.subrange(0, head) + cobs_encode(t));
        assert forall|i: int| 0 <= i < e.len() implies e[i] != 0 by {
            if 0 < i <= head {
                assert(e[i] == s[i - 1]);
            } else if i > head {
                assert(e[i] == cobs_encode(t)[i - head - 1]);
            }
        }
    }
}

/// Decoding an encoding gives back the message, whatever follows the
/// encoding once a zero byte (or nothing) comes next.
pub proof fn lemma_decode_encode(s: Seq<u8>, r: Seq<u8>)
    requires
        r.len() == 0 || r[0] == 0,
    ensures
        cobs_decode(cobs_encode(s) + r) == Some(s),
    decreases s.len(),
{
    lemma_nonzero_prefix(s);
    let k = block_len(s);
    let b = cobs_encode(s) + r;
    if k >= s.len() {
        assert(b.subrange(1, 1 + s.len() as int) =~= s);
        assert(b.subrange(1 + s.len() as int, b.len() as int) =~= r);
    } else {
        let head = if k == 254 {
            254int
        } else {
            k as int
        };
        let t = if k == 254 {
            s.subrange(254, s.len() as int)
        } else {
            s.subrange(k as int + 1, s.len() as int)
        };
        lemma_decode_encode(t, r);
        lemma_encode_nonzero(t);
        assert(b =~= seq![(head + 1) as u8] + s.subrange(0, head) + (cobs_encode(t) + r));
        assert(b.subrange(1, 1 + head) =~= s.subrange(0, head));
        assert(b.subrange(1 + head, b.len() as int) =~= cobs_encode(t) + r);
        assert((cobs_encode(t) + r)[0] == cobs_encode(t)[0]);
        if k == 254 {
            assert(s.subrange(0, head) + t =~= s);
        } else {
            assert(s.subrange(0, head).push(0) + t =~= s);
        }
    }
}

/// A frame decodes to its message, whatever bytes follow it.
pub proof fn lemma_frame_round_trip(s: Seq<u8>, tail: Seq<u8>)
    ensures
        cobs_decode(cobs_frame(s) + tail) == Some(s),
{
    lemma_decode_encode(s, seq![0u8] + tail);
    assert(cobs_frame(s) + tail =~= cobs_encode(s) + (seq![0u8] + tail));
}

/// A message shorter than one full block grows by one code byte.
pub proof fn lemma_encode_len_short(s: Seq<u8>)
    requires
        s.len() < 254,
    ensures
        cobs_encode(s).len() == s.len() + 1,
    decreases s.len(),
{
    lemma_nonzero_prefix(s);
    let k = block_len(s);
    if k < s.len() {
        lemma_encode_len_short(s.subrange(k as int + 1, s.len() as int));
    }
}

/// A frame holds the zero byte only as its last byte.
pub proof fn lemma_frame_zero_only_at_end(s: Seq<u8>)
    ensures
        cobs_frame(s).len() >= 2,
        cobs_frame(s).last() == 0,
        forall|i: int| 0 <= i < cobs_frame(s).len() - 1 ==> cobs_frame(s)[i] != 0,
{
    lemma_encode_nonzero(s);
    assert forall|i: int| 0 <= i < cobs_frame(s).len() - 1 implies cobs_frame(s)[i] != 0 by {
        assert(cobs_frame(s)[i] == cobs_encode(s)[i]);
    }
}

} // verus!
