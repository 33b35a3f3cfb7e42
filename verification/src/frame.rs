//! Frames: how a packet is written as bytes for a receiver, and how bytes
//! go out as bits.

use crate::bytes::{le_bytes_u16, le_bytes_u32, write_u16_le, write_u32_le};
use crate::config::ProtocolVersion;
use vstd::prelude::*;

verus! {

/// The bytes that the receiver fixes.
#[derive(Debug, PartialEq, Eq)]
pub struct FrameLayout {
    /// The marker that opens every frame.
    pub start_of_frame: Vec<u8>,
    /// The marker of a firmware update.
    pub update_marker: Vec<u8>,
}

/// The frame of one packet as bytes. Every frame opens with the marker and
/// the number of the version and carries its packet. The second version
/// adds the packet's index to the header, in two bytes and counted modulo
/// 65536, and closes the frame with the hash of the packet's bytes, in four
/// bytes; both go least significant byte first. A firmware update is marked
/// behind the packet.
pub open spec fn frame_image(
    layout: FrameLayout,
    version: ProtocolVersion,
    update: bool,
    index: nat,
    packet: Seq<u8>,
    hash: u32,
) -> Seq<u8> {
    layout.start_of_frame@ + seq![version.number_of()] + (match version {
        ProtocolVersion::V1 => Seq::<u8>::empty(),
        ProtocolVersion::V2 => le_bytes_u16((index % 65536) as u16),
    }) + packet + (if update {
        layout.update_marker@
    } else {
        Seq::<u8>::empty()
    }) + (match version {
        ProtocolVersion::V1 => Seq::<u8>::empty(),
        ProtocolVersion::V2 => le_bytes_u32(hash),
    })
}

/// Writes the frame of one packet. The hash is that of the packet's bytes,
/// as the receiver computes it; a frame of the first version carries none
/// and does not look at it.
pub fn frame_bytes(
    layout: &FrameLayout,
    version: ProtocolVersion,
    update: bool,
    index: usize,
    packet: &[u8],
    hash: u32,
) -> (bytes: Vec<u8>)
    ensures
        bytes@ == frame_image(*layout, version, update, index as nat, packet@, hash),
{
    let mut bytes: Vec<u8> = Vec::new();
    bytes.extend_from_slice(layout.start_of_frame.as_slice());
    bytes.push(version.number());
    if let ProtocolVersion::V2 = version {
        write_u16_le(&mut bytes, (index % 65536) as u16);
    }
    bytes.extend_from_slice(packet);
    if update {
        bytes.extend_from_slice(layout.update_marker.as_slice());
    }
    if let ProtocolVersion::V2 = version {
        write_u32_le(&mut bytes, hash);
    }
    assert(bytes@ =~= frame_image(*layout, version, update, index as nat, packet@, hash));
    bytes
}

/// A frame of the second version is that of the first with the index put
/// behind the version and the hash put at the end, and is six bytes longer;
/// the frame of an update is longer by its marker.
pub proof fn lemma_frame_len(
    layout: FrameLayout,
    version: ProtocolVersion,
    update: bool,
    index: nat,
    packet: Seq<u8>,
    hash: u32,
)
    ensures
        frame_image(layout, version, update, index, packet, hash).len()
            == layout.start_of_frame@.len() + 1 + packet.len() + (if update {
            layout.update_marker@.len()
        } else {
            0
        }) + (match version {
            ProtocolVersion::V1 => 0nat,
            ProtocolVersion::V2 => 6nat,
        }),
{
}

/// The eight bits of a byte, the least significant first.
pub open spec fn bits_of_byte(byte: u8) -> Seq<bool> {
    seq![
        byte % 2 == 1,
        byte / 2 % 2 == 1,
        byte / 4 % 2 == 1,
        byte / 8 % 2 == 1,
        byte / 16 % 2 == 1,
        byte / 32 % 2 == 1,
        byte / 64 % 2 == 1,
        byte / 128 % 2 == 1,
    ]
}

/// The bits of bytes, byte after byte.
pub open spec fn bits_of(bytes: Seq<u8>) -> Seq<bool>
    decreases bytes.len(),
{
    if bytes.len() == 0 {
        Seq::empty()
    } else {
        bits_of(bytes.drop_last()) + bits_of_byte(bytes.last())
    }
}

/// One for a set bit, nothing for a clear one.
pub open spec fn bit_value(bit: bool) -> nat {
    if bit {
        1
    } else {
        0
    }
}

/// The number that eight bits stand for, the least significant first.
pub open spec fn byte_of_bits(bits: Seq<bool>) -> nat
    recommends
        bits.len() == 8,
{
    bit_value(bits[0]) + 2 * bit_value(bits[1]) + 4 * bit_value(bits[2]) + 8 * bit_value(bits[3])
        + 16 * bit_value(bits[4]) + 32 * bit_value(bits[5]) + 64 * bit_value(bits[6]) + 128
        * bit_value(bits[7])
}

/// A number below 256 is the sum of its eight binary digits, each at its
/// weight.
proof fn lemma_binary_digits(b: int)
    requires
        0 <= b < 256,
    ensures
        b == b % 2 + 2 * (b / 2 % 2) + 4 * (b / 4 % 2) + 8 * (b / 8 % 2) + 16 * (b / 16 % 2) + 32
            * (b / 32 % 2) + 64 * (b / 64 % 2) + 128 * (b / 128 % 2),
{
    let q1 = b / 2;
    let q2 = q1 / 2;
    let q3 = q2 / 2;
    let q4 = q3 / 2;
    let q5 = q4 / 2;
    let q6 = q5 / 2;
    let q7 = q6 / 2;
    assert(q2 == b / 4);
    assert(q3 == b / 8);
    assert(q4 == b / 16);
    assert(q5 == b / 32);
    assert(q6 == b / 64);
    assert(q7 == b / 128);
    assert(q7 < 2);
    assert(b == 2 * q1 + b % 2);
    assert(q1 == 2 * q2 + q1 % 2);
    assert(q2 == 2 * q3 + q2 % 2);
    assert(q3 == 2 * q4 + q3 % 2);
    assert(q4 == 2 * q5 + q4 % 2);
    assert(q5 == 2 * q6 + q5 % 2);
    assert(q6 == 2 * q7 + q6 % 2);
    assert(q7 == q7 % 2);
}

/// The bits of a byte give the byte back.
pub proof fn lemma_byte_of_bits(byte: u8)
    ensures
        byte_of_bits(bits_of_byte(byte)) == byte,
{
    lemma_binary_digits(byte as int);
}

/// Bytes go out as eight bits each, in order: the bits of the byte at place
/// `i` stand at the places from `8 * i` on.
pub proof fn lemma_bits(bytes: Seq<u8>, i: int)
    requires
        0 <= i < bytes.len(),
    ensures
        bits_of(bytes).len() == 8 * bytes.len(),
        bits_of(bytes).subrange(8 * i, 8 * i + 8) == bits_of_byte(bytes[i]),
    decreases bytes.len(),
{
    let head = bytes.drop_last();
    lemma_bits_len(head);
    lemma_bits_len(bytes);
    if i < head.len() {
        lemma_bits(head, i);
        assert(head[i] == bytes[i]);
        assert(bits_of(bytes).subrange(8 * i, 8 * i + 8) =~= bits_of(head).subrange(
            8 * i,
            8 * i + 8,
        ));
    } else {
        assert(bits_of(bytes).subrange(8 * i, 8 * i + 8) =~= bits_of_byte(bytes.last()));
    }
}

/// Eight bits go out for every byte.
pub proof fn lemma_bits_len(bytes: Seq<u8>)
    ensures
        bits_of(bytes).len() == 8 * bytes.len(),
    decreases bytes.len(),
{
    if bytes.len() > 0 {
        lemma_bits_len(bytes.drop_last());
    }
}

/// Appends the eight bits of one byte.
fn push_bits(bits: &mut Vec<bool>, byte: u8)
    ensures
        final(bits)@ == old(bits)@ + bits_of_byte(byte),
{
    bits.push(byte % 2 == 1);
    bits.push(byte / 2 % 2 == 1);
    bits.push(byte / 4 % 2 == 1);
    bits.push(byte / 8 % 2 == 1);
    bits.push(byte / 16 % 2 == 1);
    bits.push(byte / 32 % 2 == 1);
    bits.push(byte / 64 % 2 == 1);
    bits.push(byte / 128 % 2 == 1);
    assert(bits@ =~= old(bits)@ + bits_of_byte(byte));
}

/// Writes bytes as the symbols that are sent: eight for every byte, the
/// least significant bit first.
pub fn bits_of_bytes(bytes: &[u8]) -> (bits: Vec<bool>)
    ensures
        bits@ == bits_of(bytes@),
{
    let mut bits: Vec<bool> = Vec::new();
    let mut i: usize = 0;
    while i < bytes.len()
        invariant
            i <= bytes.len(),
            bits@ == bits_of(bytes@.take(i as int)),
        decreases bytes.len() - i,
    {
        let byte: u8 = bytes[i];
        push_bits(&mut bits, byte);
        i += 1;
        proof {
            let done = bytes@.take(i as int);
            assert(done.drop_last() =~= bytes@.take(i - 1));
            assert(done.last() == byte);
        }
    }
    assert(bytes@.take(i as int) =~= bytes@);
    bits
}

} // verus!
