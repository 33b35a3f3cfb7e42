use ltc_modulate::config::ProtocolVersion;
use ltc_modulate::frame::{bits_of_bytes, frame_bytes, FrameLayout};

fn layout() -> FrameLayout {
    FrameLayout { start_of_frame: vec![0xaa, 0x55, 0x42], update_marker: vec![0x5a] }
}

#[test]
fn version_numbers() {
    assert_eq!(ProtocolVersion::V1.number(), 1);
    assert_eq!(ProtocolVersion::V2.number(), 2);
}

#[test]
fn frame_bytes_of_the_first_version() {
    let bytes = frame_bytes(&layout(), ProtocolVersion::V1, false, 7, b"HI", 0xdead_beef);
    assert_eq!(bytes, vec![0xaa, 0x55, 0x42, 1, b'H', b'I']);
}

#[test]
fn frame_bytes_of_the_second_version() {
    let bytes = frame_bytes(&layout(), ProtocolVersion::V2, false, 0x0102, b"HI", 0xdead_beef);
    assert_eq!(
        bytes,
        vec![0xaa, 0x55, 0x42, 2, 0x02, 0x01, b'H', b'I', 0xef, 0xbe, 0xad, 0xde]
    );
}

#[test]
fn frame_bytes_of_an_update() {
    let v1 = frame_bytes(&layout(), ProtocolVersion::V1, true, 0, b"HI", 1);
    assert_eq!(v1, vec![0xaa, 0x55, 0x42, 1, b'H', b'I', 0x5a]);
    let v2 = frame_bytes(&layout(), ProtocolVersion::V2, true, 1, b"HI", 1);
    assert_eq!(v2, vec![0xaa, 0x55, 0x42, 2, 1, 0, b'H', b'I', 0x5a, 1, 0, 0, 0]);
}

#[test]
fn frame_bytes_count_the_index_modulo_65536() {
    let last = frame_bytes(&layout(), ProtocolVersion::V2, false, 65535, &[], 0);
    assert_eq!(last, vec![0xaa, 0x55, 0x42, 2, 0xff, 0xff, 0, 0, 0, 0]);
    let wrapped = frame_bytes(&layout(), ProtocolVersion::V2, false, 65536 + 3, &[], 0);
    assert_eq!(wrapped, vec![0xaa, 0x55, 0x42, 2, 3, 0, 0, 0, 0, 0]);
}

#[test]
fn frame_bytes_with_empty_markers() {
    let bare = FrameLayout { start_of_frame: vec![], update_marker: vec![] };
    assert_eq!(frame_bytes(&bare, ProtocolVersion::V1, true, 0, &[9], 0), vec![1, 9]);
}

#[test]
fn bits_go_out_least_significant_first() {
    assert_eq!(
        bits_of_bytes(&[0x01]),
        vec![true, false, false, false, false, false, false, false]
    );
    assert_eq!(
        bits_of_bytes(&[0x80]),
        vec![false, false, false, false, false, false, false, true]
    );
    assert_eq!(
        bits_of_bytes(&[0xa5, 0xff]),
        vec![
            true, false, true, false, false, true, false, true, true, true, true, true, true,
            true, true, true,
        ]
    );
    assert_eq!(bits_of_bytes(&[]), Vec::<bool>::new());
}

#[test]
fn bits_give_every_byte_back() {
    let bytes: Vec<u8> = (0..=255).collect();
    let bits = bits_of_bytes(&bytes);
    assert_eq!(bits.len(), 8 * 256);
    for (i, byte) in bytes.iter().enumerate() {
        let mut value = 0u8;
        for k in 0..8 {
            if bits[8 * i + k] {
                value |= 1 << k;
            }
        }
        assert_eq!(value, *byte);
    }
}

#[test]
fn frame_bytes_write_index_and_hash_least_significant_byte_first() {
    for (index, hash) in [(0usize, 0u32), (1, 1), (255, 255), (256, 256), (0xabcd, 0x0123_4567)] {
        let bytes = frame_bytes(&layout(), ProtocolVersion::V2, false, index, &[], hash);
        assert_eq!(&bytes[4..6], &(index as u16).to_le_bytes());
        assert_eq!(&bytes[6..10], &hash.to_le_bytes());
    }
    let bytes = frame_bytes(&layout(), ProtocolVersion::V2, false, 0, &[], u32::MAX);
    assert_eq!(&bytes[6..10], &[0xff, 0xff, 0xff, 0xff]);
}
