//! Fixed-width little-endian integers, as laid out on the wire.

use vstd::prelude::*;

verus! {

/// The four bytes of `v`, least significant first.
pub open spec fn le_bytes(v: u32) -> Seq<u8> {
    seq![
        (v & 0xff) as u8,
        ((v >> 8) & 0xff) as u8,
        ((v >> 16) & 0xff) as u8,
        ((v >> 24) & 0xff) as u8,
    ]
}

/// Distinct integers have distinct encodings.
pub proof fn lemma_le_bytes_injective(a: u32, b: u32)
    requires
        le_bytes(a) == le_bytes(b),
    ensures
        a == b,
{
    assert(le_bytes(a)[0] == le_bytes(b)[0]);
    assert(le_bytes(a)[1] == le_bytes(b)[1]);
    assert(le_bytes(a)[2] == le_bytes(b)[2]);
    assert(le_bytes(a)[3] == le_bytes(b)[3]);
    assert((a & 0xff) as u8 == (b & 0xff) as u8 && ((a >> 8) & 0xff) as u8 == ((b >> 8) & 0xff) as u8
        && ((a >> 16) & 0xff) as u8 == ((b >> 16) & 0xff) as u8 && ((a >> 24) & 0xff) as u8 == ((b
        >> 24) & 0xff) as u8 ==> a == b) by (bit_vector);
}

/// Relies on `ssmarshal::serialize` for a `u32`: it writes the value's four
/// bytes, least significant first, into a buffer that has room for them.
#[verifier::external_body]
fn u32_to_le(v: u32) -> (r: [u8; 4])
    ensures
        r@ == le_bytes(v),
{
    let mut b = [0u8; 4];
    let _ = ssmarshal::serialize(&mut b, &v);
    b
}

/// Reads the integer whose wire form starts at `at`.
///
/// Relies on `ssmarshal::deserialize` for a `u32`: it reads the first four
/// bytes of its input, least significant first.
#[verifier::external_body]
pub(crate) fn read_u32(buf: &[u8], at: usize) -> (r: u32)
    requires
        at + 4 <= buf@.len(),
    ensures
        le_bytes(r) == buf@.subrange(at as int, at + 4),
{
    match ssmarshal::deserialize::<u32>(&buf[at..]) {
        Ok((v, _)) => v,
        Err(_) => 0,
    }
}

/// Appends the wire form of `v` to `out`.
pub fn push_u32(out: &mut Vec<u8>, v: u32)
    ensures
        final(out)@ == old(out)@ + le_bytes(v),
{
    let b = u32_to_le(v);
    out.push(b[0]);
    out.push(b[1]);
    out.push(b[2]);
    out.push(b[3]);
    assert(final(out)@ =~= old(out)@ + le_bytes(v));
}

} // verus!
