//! Little-endian `u32` fields, read and written through `byteorder`.

use byteorder::{LittleEndian, ReadBytesExt, WriteBytesExt};
use vstd::prelude::*;

verus! {

/// The four bytes of `v`, least significant first.
pub open spec fn le_bytes(v: u32) -> Seq<u8> {
    seq![
        (v % 256) as u8,
        ((v / 256) % 256) as u8,
        ((v / 65536) % 256) as u8,
        ((v / 16777216) % 256) as u8,
    ]
}

/// The number that the first four bytes of `b` hold, least significant first.
pub open spec fn le_value(b: Seq<u8>) -> int
    recommends
        b.len() >= 4,
{
    b[0] + 256 * b[1] + 65536 * b[2] + 16777216 * b[3]
}

/// Reading back the four bytes of `v` gives `v`.
pub proof fn lemma_le_roundtrip(v: u32)
    ensures
        le_bytes(v).len() == 4,
        le_value(le_bytes(v)) == v,
{
    let b = le_bytes(v);
    assert(b[0] == v % 256);
    assert(b[1] == (v / 256) % 256);
    assert(b[2] == (v / 65536) % 256);
    assert(b[3] == (v / 16777216) % 256);
    assert(v % 256 + 256 * ((v / 256) % 256) + 65536 * ((v / 65536) % 256) + 16777216 * ((v
        / 16777216) % 256) == v) by (nonlinear_arith)
        requires
            0 <= v < 0x1_0000_0000,
    ;
}

/// Appends `v` to `out`, least significant byte first, with byteorder's
/// `WriteBytesExt::write_u32::<LittleEndian>`. That call writes the four bytes
/// of `LittleEndian::write_u32` with `write_all`, which on a `Vec<u8>` appends
/// them and never fails.
#[verifier::external_body]
pub(crate) fn push_u32_le(out: &mut Vec<u8>, v: u32)
    ensures
        final(out)@ == old(out)@ + le_bytes(v),
{
    let _ = out.write_u32::<LittleEndian>(v);
}

/// Reads a `u32` from the front of `bytes`, least significant byte first, with
/// byteorder's `ReadBytesExt::read_u32::<LittleEndian>`. That call takes four
/// bytes with `read_exact`, which on a slice fails exactly when fewer than four
/// bytes are left; the error becomes `None`.
#[verifier::external_body]
pub(crate) fn read_u32_le(bytes: &[u8]) -> (r: Option<u32>)
    ensures
        r is Some <==> bytes@.len() >= 4,
        r matches Some(v) ==> v == le_value(bytes@),
{
    let mut reader = bytes;
    reader.read_u32::<LittleEndian>().ok()
}

} // verus!
