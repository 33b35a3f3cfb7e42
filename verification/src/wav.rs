//! The WAVE image of a waveform: a RIFF header for mono 16-bit PCM, then the
//! samples, every number least significant byte first.

use crate::bytes::{
    le_bytes_i16, le_bytes_u16, le_bytes_u32, write_i16_le, write_u16_le, write_u32_le,
};
use vstd::prelude::*;

verus! {

/// The format tag of linear PCM.
pub const FORMAT_PCM: u16 = 1;

/// The channels of the image: one.
pub const CHANNELS: u16 = 1;

/// The bits of one sample.
pub const BITS_PER_SAMPLE: u16 = 16;

/// The bytes of the samples, one after the other.
pub open spec fn sample_bytes(samples: Seq<i16>) -> Seq<u8>
    decreases samples.len(),
{
    if samples.len() == 0 {
        Seq::empty()
    } else {
        sample_bytes(samples.drop_last()) + le_bytes_i16(samples.last())
    }
}

/// The 44 bytes that precede the samples.
pub open spec fn wav_header(rate: u32, count: nat) -> Seq<u8> {
    seq![0x52u8, 0x49, 0x46, 0x46] + le_bytes_u32((36 + 2 * count) as u32) + seq![
        0x57u8,
        0x41,
        0x56,
        0x45,
    ] + seq![0x66u8, 0x6d, 0x74, 0x20] + le_bytes_u32(16) + le_bytes_u16(FORMAT_PCM)
        + le_bytes_u16(CHANNELS) + le_bytes_u32(rate) + le_bytes_u32((rate * 2) as u32)
        + le_bytes_u16(2) + le_bytes_u16(BITS_PER_SAMPLE) + seq![0x64u8, 0x61, 0x74, 0x61]
        + le_bytes_u32((2 * count) as u32)
}

/// The whole image: header, then samples.
pub open spec fn wav_image(rate: u32, samples: Seq<i16>) -> Seq<u8> {
    wav_header(rate, samples.len()) + sample_bytes(samples)
}

/// Appends the WAVE image of `samples`, played at `rate` samples a second,
/// to `out`. The sizes in the header are 32-bit fields, so the image must
/// stay below four gigabytes and the byte rate, twice `rate`, must fit too.
pub fn write_wav(rate: u32, samples: &[i16], out: &mut Vec<u8>)
    requires
        36 + 2 * samples@.len() <= u32::MAX,
        2 * rate <= u32::MAX,
    ensures
        final(out)@ == old(out)@ + wav_image(rate, samples@),
{
    let bits_per_sample: u16 = BITS_PER_SAMPLE;
    let num_channels: u16 = CHANNELS;
    let bytes_per_sample: u16 = bits_per_sample / 8;
    assert(bytes_per_sample == 2);
    let count: u32 = samples.len() as u32;
    assert(count == samples@.len() && count * bytes_per_sample == 2 * count);
    let data_size: u32 = count * bytes_per_sample as u32;
    out.push(0x52);
    out.push(0x49);
    out.push(0x46);
    out.push(0x46);
    write_u32_le(out, 36 + data_size);
    out.push(0x57);
    out.push(0x41);
    out.push(0x56);
    out.push(0x45);
    out.push(0x66);
    out.push(0x6d);
    out.push(0x74);
    out.push(0x20);
    write_u32_le(out, 16);
    write_u16_le(out, FORMAT_PCM);
    write_u16_le(out, num_channels);
    write_u32_le(out, rate);
    write_u32_le(out, rate * num_channels as u32 * bytes_per_sample as u32);
    write_u16_le(out, num_channels * bytes_per_sample);
    write_u16_le(out, bits_per_sample);
    out.push(0x64);
    out.push(0x61);
    out.push(0x74);
    out.push(0x61);
    write_u32_le(out, data_size);
    assert(out@ =~= old(out)@ + wav_header(rate, samples@.len()));
    let mut i: usize = 0;
    while i < samples.len()
        invariant
            i <= samples.len(),
            out@ == old(out)@ + wav_header(rate, samples@.len()) + sample_bytes(
                samples@.take(i as int),
            ),
        decreases samples.len() - i,
    {
        write_i16_le(out, samples[i]);
        i += 1;
        assert(samples@.take(i as int).drop_last() =~= samples@.take(i - 1));
        assert(out@ =~= old(out)@ + wav_header(rate, samples@.len()) + sample_bytes(
            samples@.take(i as int),
        ));
    }
    assert(samples@.take(i as int) =~= samples@);
    assert(out@ =~= old(out)@ + wav_image(rate, samples@));
}

} // verus!
