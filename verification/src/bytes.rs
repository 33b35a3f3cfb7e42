//! Numbers as bytes, least significant byte first.

use vstd::prelude::*;

verus! {

/// The two bytes of `n`, least significant first.
pub open spec fn le_bytes_u16(n: u16) -> Seq<u8> {
    seq![(n % 256) as u8, (n / 256) as u8]
}

/// The four bytes of `n`, least significant first.
pub open spec fn le_bytes_u32(n: u32) -> Seq<u8> {
    seq![
        (n % 256) as u8,
        (n / 256 % 256) as u8,
        (n / 65536 % 256) as u8,
        (n / 16777216) as u8,
    ]
}

/// The two bytes of `n` in two's complement, least significant first.
pub open spec fn le_bytes_i16(n: i16) -> Seq<u8> {
    if n < 0 {
        le_bytes_u16((n + 65536) as u16)
    } else {
        le_bytes_u16(n as u16)
    }
}

/// `WriteBytesExt::write_u16::<LittleEndian>` of the byteorder crate, on a
/// byte vector. The vector grows by the two bytes of `n`, low byte first;
/// writing to a vector does not fail.
#[verifier::external_body]
pub(crate) fn write_u16_le(out: &mut Vec<u8>, n: u16)
    ensures
        final(out)@ == old(out)@ + le_bytes_u16(n),
{
    let _ = byteorder::WriteBytesExt::write_u16::<byteorder::LittleEndian>(out, n);
}

/// `WriteBytesExt::write_u32::<LittleEndian>` of the byteorder crate, on a
/// byte vector. The vector grows by the four bytes of `n`, low byte first;
/// writing to a vector does not fail.
#[verifier::external_body]
pub(crate) fn write_u32_le(out: &mut Vec<u8>, n: u32)
    ensures
        final(out)@ == old(out)@ + le_bytes_u32(n),
{
    let _ = byteorder::WriteBytesExt::write_u32::<byteorder::LittleEndian>(out, n);
}

/// `WriteBytesExt::write_i16::<LittleEndian>` of the byteorder crate, on a
/// byte vector. The vector grows by the two bytes of `n` in two's
/// complement, low byte first; writing to a vector does not fail.
#[verifier::external_body]
pub(crate) fn write_i16_le(out: &mut Vec<u8>, n: i16)
    ensures
        final(out)@ == old(out)@ + le_bytes_i16(n),
{
    let _ = byteorder::WriteBytesExt::write_i16::<byteorder::LittleEndian>(out, n);
}

} // verus!
