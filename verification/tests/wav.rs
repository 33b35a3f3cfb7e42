use ltc_modulate::wav::write_wav;

fn header(rate: [u8; 4], byte_rate: [u8; 4], riff_size: [u8; 4], data_size: [u8; 4]) -> Vec<u8> {
    let mut h = Vec::new();
    h.extend_from_slice(b"RIFF");
    h.extend_from_slice(&riff_size);
    h.extend_from_slice(b"WAVE");
    h.extend_from_slice(b"fmt ");
    h.extend_from_slice(&[16, 0, 0, 0]);
    h.extend_from_slice(&[1, 0]);
    h.extend_from_slice(&[1, 0]);
    h.extend_from_slice(&rate);
    h.extend_from_slice(&byte_rate);
    h.extend_from_slice(&[2, 0]);
    h.extend_from_slice(&[16, 0]);
    h.extend_from_slice(b"data");
    h.extend_from_slice(&data_size);
    h
}

#[test]
fn wav_of_no_samples_is_the_header() {
    let mut out = Vec::new();
    write_wav(44100, &[], &mut out);
    assert_eq!(out.len(), 44);
    assert_eq!(
        out,
        header([0x44, 0xac, 0, 0], [0x88, 0x58, 0x01, 0], [36, 0, 0, 0], [0, 0, 0, 0])
    );
}

#[test]
fn wav_of_five_samples() {
    let mut out = Vec::new();
    write_wav(44100, &[0, 1, -1, 32767, -32768], &mut out);
    let mut expected =
        header([0x44, 0xac, 0, 0], [0x88, 0x58, 0x01, 0], [46, 0, 0, 0], [10, 0, 0, 0]);
    expected.extend_from_slice(&[0x00, 0x00, 0x01, 0x00, 0xff, 0xff, 0xff, 0x7f, 0x00, 0x80]);
    assert_eq!(out, expected);
}

#[test]
fn wav_samples_are_little_endian() {
    let mut out = Vec::new();
    write_wav(8000, &[0x1234, -0x1234, 256, -256], &mut out);
    assert_eq!(&out[44..], &[0x34, 0x12, 0xcc, 0xed, 0x00, 0x01, 0x00, 0xff]);
}

#[test]
fn wav_sizes_use_all_four_bytes() {
    let samples = vec![7i16; 70000];
    let mut out = Vec::new();
    write_wav(0x0102_0304, &samples, &mut out);
    assert_eq!(out.len(), 44 + 140000);
    assert_eq!(&out[4..8], &[0x04, 0x23, 0x02, 0x00]);
    assert_eq!(&out[24..28], &[0x04, 0x03, 0x02, 0x01]);
    assert_eq!(&out[28..32], &[0x08, 0x06, 0x04, 0x02]);
    assert_eq!(&out[40..44], &[0xe0, 0x22, 0x02, 0x00]);
    assert_eq!(&out[44..46], &[7, 0]);
}

#[test]
fn wav_is_appended_to_what_is_there() {
    let mut out = vec![9u8, 8, 7];
    write_wav(48000, &[-2], &mut out);
    assert_eq!(&out[..3], &[9, 8, 7]);
    let mut expected =
        header([0x80, 0xbb, 0, 0], [0x00, 0x77, 0x01, 0], [38, 0, 0, 0], [2, 0, 0, 0]);
    expected.extend_from_slice(&[0xfe, 0xff]);
    assert_eq!(&out[3..], &expected[..]);
    write_wav(48000, &[], &mut out);
    assert_eq!(out.len(), 3 + 46 + 44);
}

#[test]
fn wav_at_the_highest_rate_that_fits() {
    let mut out = Vec::new();
    write_wav(0x7fff_ffff, &[], &mut out);
    assert_eq!(&out[24..28], &[0xff, 0xff, 0xff, 0x7f]);
    assert_eq!(&out[28..32], &[0xfe, 0xff, 0xff, 0xff]);
}

#[test]
fn wav_writes_every_sample_value_in_two_bytes() {
    let samples: Vec<i16> = (i16::MIN..=i16::MAX).collect();
    let mut out = Vec::new();
    write_wav(44100, &samples, &mut out);
    assert_eq!(out.len(), 44 + 2 * 65536);
    assert_eq!(&out[4..8], &(36u32 + 131072).to_le_bytes());
    assert_eq!(&out[40..44], &131072u32.to_le_bytes());
    for (i, sample) in samples.iter().enumerate() {
        assert_eq!(&out[44 + 2 * i..46 + 2 * i], &sample.to_le_bytes(), "{}", sample);
    }
}

#[test]
fn wav_writes_rates_in_four_bytes() {
    for rate in [0u32, 1, 255, 256, 8000, 44100, 65535, 65536, 16777215, 16777216, 2147483647] {
        let mut out = Vec::new();
        write_wav(rate, &[], &mut out);
        assert_eq!(&out[24..28], &rate.to_le_bytes());
        assert_eq!(&out[28..32], &(rate * 2).to_le_bytes());
    }
}
