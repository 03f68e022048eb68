//! The bodies of frames.

use bytes::Bytes;
use rust_im::protocol::error::ProtocolError;
use rust_im::protocol::flags;
use rust_im::protocol::frame::Cmd;
use rust_im::protocol::payload::{
    Handshake, HandshakeAck, Msg, MsgAck, Payload, SyncReq, SyncResp,
};
use rust_im::protocol::varint;

#[test]
fn roundtrip_all_payloads() {
    let handshake = Handshake { user_id: 42, token: "secret-token-你好".into() };
    assert_eq!(Handshake::decode(&handshake.encode()).unwrap(), handshake);

    let ack = HandshakeAck::accepted(12345678901234567890);
    assert_eq!(HandshakeAck::decode(&ack.encode()).unwrap(), ack);
    let rejected = HandshakeAck::rejected("bad token");
    assert_eq!(HandshakeAck::decode(&rejected.encode()).unwrap(), rejected);
    assert!(!rejected.is_accepted());

    let msg = Msg {
        from: 1,
        to: 2,
        msg_id: u64::MAX,
        content: Bytes::from_static(b"hello, \xE4\xB8\x96\xE7\x95\x8C"),
    };
    assert_eq!(Msg::decode(&msg.encode()).unwrap(), msg);

    let sync_resp = SyncResp {
        messages: vec![
            msg.clone(),
            Msg { from: 3, to: 4, msg_id: 5, content: Bytes::new() },
        ],
    };
    assert_eq!(SyncResp::decode(&sync_resp.encode()).unwrap(), sync_resp);
    let empty = SyncResp { messages: vec![] };
    assert_eq!(SyncResp::decode(&empty.encode()).unwrap(), empty);
}

#[test]
fn frame_roundtrip_via_trait() {
    let msg = Msg { from: 7, to: 8, msg_id: 9, content: Bytes::from_static(b"via-frame") };
    let frame = msg.encode_frame(3, 0);
    assert_eq!(frame.cmd, Cmd::Msg);
    assert_eq!(frame.seq, 3);
    assert_eq!(Msg::decode_frame(&frame).unwrap(), msg);
}

#[test]
fn cmd_mismatch_is_rejected() {
    let frame = Msg { from: 1, to: 2, msg_id: 3, content: Bytes::new() }.encode_frame(1, 0);
    assert!(matches!(
        Handshake::decode_frame(&frame),
        Err(ProtocolError::UnknownCommand { got: 0x05 })
    ));
}

#[test]
fn truncated_payload_is_rejected() {
    let handshake = Handshake { user_id: 42, token: "token".into() };
    let wire = handshake.encode();
    for cut in 0..wire.len() {
        assert!(
            matches!(
                Handshake::decode(&wire[..cut]),
                Err(ProtocolError::PayloadTooShort { .. })
            ),
            "cut to {cut} bytes"
        );
    }
}

#[test]
fn trailing_bytes_are_rejected() {
    let mut wire = MsgAck { msg_id: 1 }.encode().to_vec();
    wire.extend_from_slice(&[0xDE, 0xAD]);
    assert!(matches!(MsgAck::decode(&wire), Err(ProtocolError::TrailingBytes { extra: 2 })));
}

#[test]
fn invalid_utf8_is_rejected() {
    let mut wire = Vec::new();
    varint::encode_u64(1, &mut wire);
    varint::encode_u64(2, &mut wire);
    wire.extend_from_slice(&[0xFF, 0xFE]);
    assert!(matches!(Handshake::decode(&wire), Err(ProtocolError::InvalidUtf8)));
}

#[test]
fn small_ids_stay_compact() {
    let hs = Handshake { user_id: 1, token: String::new() };
    assert_eq!(hs.encode().len(), 2);
}

#[test]
fn msg_roundtrip_property() {
    let mut state: u64 = 3;
    for round in 0..200u32 {
        state = state.wrapping_mul(6_364_136_223_846_793_005).wrapping_add(round as u64);
        let len = (state >> 57) as usize;
        let msg = Msg {
            from: state >> (round % 64),
            to: state.rotate_left(17),
            msg_id: state.rotate_left(31) >> (round % 13),
            content: Bytes::from((0..len).map(|i| (i as u64 ^ state) as u8).collect::<Vec<u8>>()),
        };
        assert_eq!(Msg::decode(&msg.encode()).unwrap(), msg);
    }
}

#[test]
fn sync_resp_batch_roundtrip() {
    let messages: Vec<Msg> = (0..500u64)
        .map(|i| Msg {
            from: 1,
            to: 2,
            msg_id: 1000 + i,
            content: Bytes::from(format!("offline-{i}")),
        })
        .collect();
    let resp = SyncResp { messages };
    let decoded = SyncResp::decode(&resp.encode()).unwrap();
    assert_eq!(decoded.messages.len(), 500);
    assert_eq!(decoded.messages[499].msg_id, 1499);
}

#[test]
fn payload_survives_flagged_frame() {
    let mut frame = Msg { from: 1, to: 2, msg_id: 3, content: Bytes::from_static(b"flagged") }
        .encode_frame(1, 0);
    frame.flags = flags::COMPRESSED;
    let decoded = Msg::decode_frame(&frame).unwrap();
    assert_eq!(decoded.content, Bytes::from_static(b"flagged"));
}

/// The bytes of a message.
#[test]
fn msg_bytes() {
    let msg = Msg { from: 1, to: 300, msg_id: 3, content: Bytes::from_static(b"ab") };
    assert_eq!(&msg.encode()[..], &[1, 0xAC, 2, 3, 2, b'a', b'b']);
}

#[test]
fn sync_request_comes_back() {
    let req = SyncReq { since: 77 };
    assert_eq!(SyncReq::decode(&req.encode()).unwrap(), req);
}

/// Every body that is cut off is refused as too short.
#[test]
fn every_cut_off_body_is_too_short() {
    fn cut<P: Payload>(wire: Vec<u8>) {
        for n in 0..wire.len() {
            assert!(
                matches!(P::decode(&wire[..n]), Err(ProtocolError::PayloadTooShort { .. })),
                "cut to {n} bytes"
            );
        }
    }
    let msg = Msg { from: 300, to: 2, msg_id: u64::MAX, content: Bytes::from_static(b"hello") };
    cut::<Handshake>(Handshake { user_id: 42, token: "你好".into() }.encode().to_vec());
    cut::<HandshakeAck>(HandshakeAck::accepted(1 << 40).encode().to_vec());
    cut::<HandshakeAck>(HandshakeAck::rejected("no").encode().to_vec());
    cut::<Msg>(msg.encode().to_vec());
    cut::<SyncReq>(SyncReq { since: 1 << 20 }.encode().to_vec());
    cut::<SyncResp>(SyncResp { messages: vec![msg.clone(), msg] }.encode().to_vec());
}
