//! Frames on the wire: decoding, checksums, numbers of variable length.

use bytes::Bytes;
use rust_im::protocol::codec::FrameDecoder;
use rust_im::protocol::crc32::{checksum, Crc32};
use rust_im::protocol::error::ProtocolError;
use rust_im::protocol::flags;
use rust_im::protocol::frame::{Cmd, Frame};
use rust_im::protocol::varint::{
    decode_u64, encode_i64, encode_u64, encoded_len, zigzag_decode, zigzag_encode, VarIntDecoder,
    MAX_VARINT_LEN,
};
use rust_im::protocol::{MAGIC, VERSION};

fn msg_frame(seq: u64, payload: &[u8]) -> Frame {
    Frame::new(Cmd::Msg, seq, 0, Bytes::copy_from_slice(payload))
}

fn next_number(state: &mut u64) -> u64 {
    *state = state.wrapping_mul(6_364_136_223_846_793_005).wrapping_add(1_442_695_040_888_963_407);
    *state >> 11
}

#[test]
fn single_frame_roundtrip() {
    let frame = msg_frame(42, b"hello rust-im");
    let mut decoder = FrameDecoder::new();
    let frames = decoder.decode(&frame.encode()).unwrap();
    assert_eq!(frames, vec![frame]);
}

#[test]
fn byte_by_byte_is_immune_to_half_packets() {
    let frame = msg_frame(u64::MAX, b"half-packet-proof");
    let wire = frame.encode();

    let mut decoder = FrameDecoder::new();
    let mut got: Vec<Frame> = Vec::new();
    for (i, byte) in wire.iter().enumerate() {
        let frames = decoder.decode(std::slice::from_ref(byte)).unwrap();
        if i + 1 < wire.len() {
            assert!(frames.is_empty(), "no frame before the last byte");
        } else {
            got = frames;
        }
    }
    assert_eq!(got, vec![frame]);
    assert!(decoder.decode(&[]).unwrap().is_empty(), "nothing is left");
}

#[test]
fn two_frames_in_one_chunk() {
    let a = Frame::new(Cmd::Ping, 1, 0, Bytes::new());
    let b = msg_frame(2, b"second");
    let mut wire = a.encode().to_vec();
    wire.extend_from_slice(&b.encode());

    let mut decoder = FrameDecoder::new();
    let frames = decoder.decode(&wire).unwrap();
    assert_eq!(frames, vec![a, b]);
}

#[test]
fn flags_survive_roundtrip() {
    let mut frame = msg_frame(7, b"x");
    frame.flags = flags::COMPRESSED | flags::ENCRYPTED;
    let mut decoder = FrameDecoder::new();
    let frames = decoder.decode(&frame.encode()).unwrap();
    assert_eq!(frames[0].flags, 0b0000_0011);
}

#[test]
fn bad_magic_is_rejected() {
    let mut wire = msg_frame(1, b"hi").encode().to_vec();
    wire[0] = 0x00;
    let mut decoder = FrameDecoder::new();
    assert!(matches!(decoder.decode(&wire), Err(ProtocolError::BadMagic { .. })));
}

#[test]
fn unsupported_version_is_rejected() {
    let mut wire = msg_frame(1, b"hi").encode().to_vec();
    wire[2] = VERSION + 1;
    let mut decoder = FrameDecoder::new();
    assert!(matches!(decoder.decode(&wire), Err(ProtocolError::UnsupportedVersion { .. })));
}

#[test]
fn unknown_command_is_rejected() {
    let mut wire = msg_frame(1, b"hi").encode().to_vec();
    wire[3] = 0xEE;
    let mut decoder = FrameDecoder::new();
    assert!(matches!(decoder.decode(&wire), Err(ProtocolError::UnknownCommand { got: 0xEE })));
}

#[test]
fn frame_too_large_rejected_before_allocation() {
    let frame = msg_frame(1, &[0u8; 100]);
    let mut decoder = FrameDecoder::with_max_frame_len(8);
    assert!(matches!(
        decoder.decode(&frame.encode()),
        Err(ProtocolError::FrameTooLarge { got: 100, max: 8 })
    ));
}

#[test]
fn crc_corruption_is_detected() {
    let mut wire = msg_frame(9, b"integrity").encode().to_vec();
    *wire.last_mut().expect("not empty") ^= 0x01;
    let mut decoder = FrameDecoder::new();
    assert!(matches!(decoder.decode(&wire), Err(ProtocolError::CrcMismatch { .. })));
}

#[test]
fn payload_corruption_is_detected() {
    let mut wire = msg_frame(9, b"integrity").encode().to_vec();
    wire[8] ^= 0x01;
    let mut decoder = FrameDecoder::new();
    assert!(matches!(decoder.decode(&wire), Err(ProtocolError::CrcMismatch { .. })));
}

#[test]
fn truncated_frame_yields_nothing() {
    let wire = msg_frame(3, b"abc").encode();
    let mut decoder = FrameDecoder::new();
    assert!(decoder.decode(&wire[..wire.len() - 1]).unwrap().is_empty());
    assert_eq!(decoder.decode(&wire[wire.len() - 1..]).unwrap().len(), 1);
}

#[test]
fn empty_decode_call_is_harmless() {
    let mut decoder = FrameDecoder::new();
    assert!(decoder.decode(&[]).unwrap().is_empty());
}

/// A frame comes back wherever the bytes are split.
#[test]
fn split_point_does_not_matter() {
    let mut state: u64 = 7;
    for round in 0..40u64 {
        let seq = next_number(&mut state).wrapping_mul(round);
        let ack = next_number(&mut state);
        let len = (next_number(&mut state) % 50) as usize;
        let payload: Vec<u8> = (0..len).map(|_| next_number(&mut state) as u8).collect();
        let frame = Frame::new(Cmd::Msg, seq, ack, Bytes::from(payload));
        let wire = frame.encode();
        for split in 0..wire.len() {
            let mut decoder = FrameDecoder::new();
            assert!(decoder.decode(&wire[..split]).unwrap().is_empty());
            assert_eq!(decoder.decode(&wire[split..]).unwrap(), vec![frame.clone()]);
        }
    }
}

/// Two frames in three chunks come back in order.
#[test]
fn two_frames_come_back_from_three_chunks() {
    let a = Frame::new(Cmd::Msg, 1, 0, Bytes::from_static(b"first"));
    let b = Frame::new(Cmd::MsgAck, 2, 1, Bytes::from_static(b"the second one"));
    let mut wire = a.encode().to_vec();
    wire.extend_from_slice(&b.encode());
    for s1 in 0..wire.len() {
        for s2 in s1..wire.len() {
            let mut decoder = FrameDecoder::new();
            let mut got: Vec<Frame> = Vec::new();
            got.extend(decoder.decode(&wire[..s1]).unwrap());
            got.extend(decoder.decode(&wire[s1..s2]).unwrap());
            got.extend(decoder.decode(&wire[s2..]).unwrap());
            assert_eq!(got, vec![a.clone(), b.clone()]);
        }
    }
}

/// A frame whose payload is exactly as long as allowed is accepted.
#[test]
fn frame_at_the_limit_is_accepted() {
    let frame = msg_frame(1, &[7u8; 8]);
    let mut decoder = FrameDecoder::with_max_frame_len(8);
    assert_eq!(decoder.decode(&frame.encode()).unwrap(), vec![frame]);
}

#[test]
fn errors_carry_what_was_seen() {
    let mut wire = msg_frame(1, b"hi").encode().to_vec();
    wire[0] = 0x12;
    wire[1] = 0x34;
    let mut decoder = FrameDecoder::new();
    assert_eq!(
        decoder.decode(&wire),
        Err(ProtocolError::BadMagic { expected: 0x494D, got: 0x1234 })
    );
    let mut wire = msg_frame(1, b"hi").encode().to_vec();
    wire[2] = 9;
    let mut decoder = FrameDecoder::default();
    assert_eq!(
        decoder.decode(&wire),
        Err(ProtocolError::UnsupportedVersion { got: 9, supported: 1 })
    );
}

/// A number of eleven bytes in a frame is an error.
#[test]
fn overlong_number_in_a_frame_is_rejected() {
    let mut wire = vec![0x49, 0x4D, 1, 3, 0];
    wire.extend_from_slice(&[0xFF; 11]);
    let mut decoder = FrameDecoder::new();
    assert!(matches!(decoder.decode(&wire), Err(ProtocolError::VarintTooLong { .. })));
}

/// The checksum that zlib and PNG use.
#[test]
fn standard_checksums() {
    assert_eq!(checksum(b"123456789"), 0xCBF4_3926);
    assert_eq!(checksum(b""), 0x0000_0000);
    assert_eq!(checksum(b"a"), 0xE8B7_BE43);
    assert_eq!(checksum(b"abc"), 0x3524_41C2);
}

#[test]
fn incremental_equals_oneshot() {
    let data = b"the quick brown fox jumps over the lazy dog";
    let mut c = Crc32::new();
    for chunk in data.chunks(7) {
        c.update(chunk);
    }
    assert_eq!(c.finish(), checksum(data));
}

#[test]
fn detects_single_bit_flip_and_reorder() {
    let data = b"hello world";
    let good = checksum(data);

    let mut corrupted = data.to_vec();
    corrupted[3] ^= 0x01;
    assert_ne!(checksum(&corrupted), good);

    let mut reordered = data.to_vec();
    reordered.swap(0, 10);
    assert_ne!(checksum(&reordered), good);
}

/// The checksum changes with the last byte.
#[test]
fn checksum_changes_with_the_last_byte() {
    for n in 1..20usize {
        let bytes: Vec<u8> = (0..n).map(|i| (i * 37) as u8).collect();
        let mut other = bytes.clone();
        other[n - 1] = other[n - 1].wrapping_add(1);
        assert_ne!(checksum(&bytes), checksum(&other));
    }
}

#[test]
fn display_messages_are_helpful() {
    let e = ProtocolError::BadMagic { expected: 0x494D, got: 0x1234 };
    assert!(e.to_text().contains("494d"), "{}", e.to_text());

    let e = ProtocolError::FrameTooLarge { got: 999, max: 100 };
    assert!(e.to_text().contains("999"));
}

/// An empty frame, byte by byte.
#[test]
fn wire_layout_of_an_empty_frame() {
    let frame = Frame::new(Cmd::Ping, 1, 0, Bytes::new());
    let bytes = frame.encode();
    assert_eq!(bytes.len(), frame.encoded_len());
    assert_eq!(bytes.len(), 12);
    assert_eq!(&bytes[0..2], &[0x49, 0x4D]);
    assert_eq!(bytes[2], VERSION);
    assert_eq!(bytes[3], Cmd::Ping.to_byte());
    assert_eq!(bytes[4], 0);
    assert_eq!(bytes[5], 1);
    assert_eq!(bytes[6], 0);
    assert_eq!(bytes[7], 0);
    let expect = checksum(&bytes[..8]);
    assert_eq!(&bytes[8..12], &expect.to_be_bytes());
}

#[test]
fn large_seq_takes_varint_space() {
    let frame = Frame::new(Cmd::Msg, u64::MAX, 300, Bytes::new());
    let bytes = frame.encode();
    assert_eq!(bytes.len(), 22);
    assert_eq!(frame.encoded_len(), 22);
}

#[test]
fn cmd_roundtrip() {
    for cmd in [
        Cmd::Handshake,
        Cmd::HandshakeAck,
        Cmd::Ping,
        Cmd::Pong,
        Cmd::Msg,
        Cmd::MsgAck,
        Cmd::SyncReq,
        Cmd::SyncResp,
    ] {
        assert_eq!(Cmd::try_from(cmd.to_byte()), Ok(cmd));
    }
    assert!(matches!(Cmd::try_from(0xFF), Err(ProtocolError::UnknownCommand { got: 0xFF })));
}

#[test]
fn magic_is_im() {
    assert_eq!(MAGIC, 0x494D);
    assert_eq!(VERSION, 1);
}

/// Numbers as the textbook has them.
#[test]
fn varint_textbook_values() {
    let cases: &[(u64, &[u8])] = &[
        (0, &[0x00]),
        (1, &[0x01]),
        (127, &[0x7F]),
        (128, &[0x80, 0x01]),
        (300, &[0xAC, 0x02]),
        (16_383, &[0xFF, 0x7F]),
        (u64::MAX, &[0xFF, 0xFF, 0xFF, 0xFF, 0xFF, 0xFF, 0xFF, 0xFF, 0xFF, 0x01]),
    ];
    for &(value, expect) in cases {
        let mut buf = Vec::new();
        assert_eq!(encode_u64(value, &mut buf), expect.len(), "value={value}");
        assert_eq!(&buf, expect, "value={value}");
        assert_eq!(encoded_len(value), expect.len());

        let (got, used) = decode_u64(&buf).expect("a whole number can be read");
        assert_eq!(got, value);
        assert_eq!(used, expect.len());
    }
}

#[test]
fn zigzag_known_values() {
    assert_eq!(zigzag_encode(0), 0);
    assert_eq!(zigzag_encode(-1), 1);
    assert_eq!(zigzag_encode(1), 2);
    assert_eq!(zigzag_encode(-2), 3);
    assert_eq!(zigzag_encode(i64::MAX), u64::MAX - 1);
    assert_eq!(zigzag_encode(i64::MIN), u64::MAX);
    assert_eq!(zigzag_decode(u64::MAX), i64::MIN);
}

#[test]
fn truncated_varint_returns_none() {
    assert_eq!(decode_u64(&[0x80]), None);
    assert_eq!(decode_u64(&[]), None);
}

#[test]
fn varint_too_long_is_rejected() {
    let mut dec = VarIntDecoder::default();
    for _ in 0..MAX_VARINT_LEN {
        assert!(dec.push(0xFF).is_ok(), "ten bytes are no error");
    }
    assert!(matches!(dec.push(0xFF), Err(ProtocolError::VarintTooLong { .. })));
}

/// Numbers come back, signed ones too.
#[test]
fn numbers_come_back() {
    let mut state: u64 = 99;
    for shift in 0..64u32 {
        let v = next_number(&mut state).wrapping_mul(0x9E37_79B9_7F4A_7C15) >> shift;
        let mut buf = Vec::new();
        let n = encode_u64(v, &mut buf);
        assert_eq!(n, buf.len());
        assert_eq!(n, encoded_len(v));
        assert_eq!(decode_u64(&buf), Some((v, n)));
        let signed = v as i64;
        assert_eq!(zigzag_decode(zigzag_encode(signed)), signed);
        let mut buf = Vec::new();
        let n = encode_i64(signed, &mut buf);
        assert_eq!(decode_u64(&buf), Some((zigzag_encode(signed), n)));
    }
}
