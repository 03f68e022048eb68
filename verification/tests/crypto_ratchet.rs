//! Keys that change with every message.

use rust_im::crypto::error::CryptoError;
use rust_im::crypto::primitives::{SecretBytes, PublicKey};
use rust_im::crypto::ratchet::{Header, RatchetMessage, RatchetState, HEADER_LEN, MAX_SKIP};
use rust_im::crypto::skipped::SkippedKeys;
use rust_im::crypto::KEY_LEN;


fn session_pair() -> (RatchetState, RatchetState) {
    let bob_spk = SecretBytes::random();
    let sk = [0x42u8; KEY_LEN];
    let alice = RatchetState::init_initiator(sk, bob_spk.public_key());
    let bob = RatchetState::init_responder(sk, bob_spk);
    (alice, bob)
}

#[test]
fn alternating_conversation_roundtrips() {
    let (mut alice, mut bob) = session_pair();

    for round in 0..5u32 {
        let a2b = format!("alice -> bob #{round}");
        let msg = alice.encrypt(a2b.as_bytes()).unwrap();
        assert_eq!(bob.decrypt(&msg).unwrap(), a2b.as_bytes());

        let b2a = format!("bob -> alice #{round}");
        let msg = bob.encrypt(b2a.as_bytes()).unwrap();
        assert_eq!(alice.decrypt(&msg).unwrap(), b2a.as_bytes());
    }
}

#[test]
fn burst_of_messages_on_one_chain() {
    let (mut alice, mut bob) = session_pair();

    let msgs: Vec<_> = (0..5)
        .map(|i| alice.encrypt(format!("burst #{i}").as_bytes()).unwrap())
        .collect();
    for (i, msg) in msgs.iter().enumerate() {
        assert_eq!(msg.header.n, i as u32);
        assert_eq!(bob.decrypt(msg).unwrap(), format!("burst #{i}").as_bytes());
    }
}

#[test]
fn out_of_order_delivery_is_tolerated() {
    let (mut alice, mut bob) = session_pair();

    let msgs: Vec<_> = (0..3)
        .map(|i| alice.encrypt(format!("ooo #{i}").as_bytes()).unwrap())
        .collect();

    assert_eq!(bob.decrypt(&msgs[2]).unwrap(), b"ooo #2");
    assert_eq!(bob.decrypt(&msgs[0]).unwrap(), b"ooo #0");
    assert_eq!(bob.decrypt(&msgs[1]).unwrap(), b"ooo #1");
}

#[test]
fn tampered_ciphertext_is_rejected() {
    let (mut alice, mut bob) = session_pair();

    let msg = alice.encrypt(b"secret").unwrap();
    let mut wire = msg.encode();
    let last = wire.len() - 1;
    wire[last] ^= 0x01;
    let bad = RatchetMessage::decode(&wire).unwrap();
    assert!(matches!(bob.decrypt(&bad), Err(CryptoError::Ratchet(_))));
}

#[test]
fn tampered_header_is_rejected() {
    let (mut alice, mut bob) = session_pair();

    let msg = alice.encrypt(b"secret").unwrap();
    let mut wire = msg.encode();
    wire[37] ^= 0x01;
    let bad = RatchetMessage::decode(&wire).unwrap();
    assert!(matches!(bob.decrypt(&bad), Err(CryptoError::Ratchet(_))));
}

#[test]
fn wrong_session_cannot_decrypt() {
    let (mut alice, _bob) = session_pair();
    let carol_spk = SecretBytes::random();
    let mut carol = RatchetState::init_responder([0x99u8; KEY_LEN], carol_spk);

    let msg = alice.encrypt(b"for bob only").unwrap();
    assert!(matches!(carol.decrypt(&msg), Err(CryptoError::Ratchet(_))));
}

#[test]
fn ciphertexts_are_unique_per_message() {
    let (mut alice, _bob) = session_pair();

    let cts: Vec<Vec<u8>> = (0..10)
        .map(|_| alice.encrypt(b"same plaintext").unwrap().ciphertext)
        .collect();
    for i in 0..cts.len() {
        for j in i + 1..cts.len() {
            assert_ne!(cts[i], cts[j], "第 {i} 与 {j} 条密文不应相同");
        }
    }
}

#[test]
fn excessive_skip_is_rejected() {
    let (mut alice, mut bob) = session_pair();

    let mut last = None;
    for _ in 0..(MAX_SKIP + 5) {
        last = Some(alice.encrypt(b"x").unwrap());
    }
    let err = bob.decrypt(&last.expect("循环必然赋值"));
    assert!(
        matches!(&err, Err(CryptoError::Ratchet(msg)) if msg.contains("MAX_SKIP")),
        "应报告 MAX_SKIP 拒绝，实际: {err:?}"
    );
}

#[test]
fn message_codec_roundtrip() {
    let (mut alice, _bob) = session_pair();
    let msg = alice.encrypt(b"codec").unwrap();
    let decoded = RatchetMessage::decode(&msg.encode()).unwrap();
    assert_eq!(decoded, msg);
}

#[test]
fn short_input_rejected_in_decode() {
    assert!(RatchetMessage::decode(b"tiny").is_err());
}

/// With fixed secrets both sides are determined.
#[test]
fn fixed_secrets_give_fixed_messages() {
    let pair = || {
        let bob_spk = SecretBytes::from_bytes([7; 32]);
        let alice = RatchetState::init_initiator([0x42; 32], bob_spk.public_key());
        let bob = RatchetState::init_responder([0x42; 32], bob_spk);
        (alice, bob)
    };
    let (mut alice, mut bob) = pair();
    let (mut alice2, _) = pair();
    let one = alice.encrypt_with(b"hello", SecretBytes::from_bytes([9; 32])).unwrap();
    let two = alice2.encrypt_with(b"hello", SecretBytes::from_bytes([9; 32])).unwrap();
    assert_eq!(one, two);
    assert_eq!(one.ciphertext.len(), 5 + 16);
    assert_eq!(one.header.dh, SecretBytes::from_bytes([9; 32]).public_key());
    assert_eq!(bob.decrypt_with(&one, SecretBytes::from_bytes([1; 32])).unwrap(), b"hello");
}

/// A message that was read is not read again.
#[test]
fn replayed_message_is_refused() {
    let (mut alice, mut bob) = session_pair();
    let msg = alice.encrypt(b"once").unwrap();
    assert_eq!(bob.decrypt(&msg).unwrap(), b"once");
    assert!(matches!(bob.decrypt(&msg), Err(CryptoError::Ratchet(_))));
}

/// A message of an old chain is still read after the chain was replaced.
#[test]
fn message_of_an_old_chain_is_read() {
    let (mut alice, mut bob) = session_pair();
    let first = alice.encrypt(b"first").unwrap();
    let late = alice.encrypt(b"late").unwrap();
    assert_eq!(bob.decrypt(&first).unwrap(), b"first");
    let reply = bob.encrypt(b"reply").unwrap();
    assert_eq!(alice.decrypt(&reply).unwrap(), b"reply");
    let next = alice.encrypt(b"next").unwrap();
    assert_eq!(next.header.prev_chain_len, 2);
    assert_eq!(bob.decrypt(&next).unwrap(), b"next");
    assert_eq!(bob.decrypt(&late).unwrap(), b"late");
}

/// The bytes of a message: the key, two numbers, and the ciphertext.
#[test]
fn message_bytes() {
    let msg = RatchetMessage {
        header: Header {
            dh: PublicKey::from_bytes([5; 32]),
            prev_chain_len: 1,
            n: 0x0203,
        },
        ciphertext: vec![8, 9],
    };
    let wire = msg.encode();
    assert_eq!(wire.len(), HEADER_LEN + 2);
    assert_eq!(&wire[..32], &[5; 32]);
    assert_eq!(&wire[32..], &[0, 0, 0, 1, 0, 0, 2, 3, 8, 9]);
}

/// A key that was kept is handed out once.
#[test]
fn kept_key_is_handed_out_once() {
    let mut keys = SkippedKeys::new();
    let remote = PublicKey::from_bytes([3; 32]);
    keys.put(&remote, 4, SecretBytes::from_bytes([1; 32]));
    assert!(keys.take(&remote, 5).is_none());
    assert!(keys.take(&PublicKey::from_bytes([2; 32]), 4).is_none());
    assert_eq!(keys.take(&remote, 4).unwrap().expose(), [1; 32]);
    assert!(keys.take(&remote, 4).is_none());
}

/// A side says whether it can read and write.
#[test]
fn readiness_is_told() {
    let (mut alice, mut bob) = session_pair();
    assert!(alice.ready_to_encrypt());
    assert!(!bob.ready_to_encrypt());
    let msg = alice.encrypt(b"first").unwrap();
    assert!(bob.ready_to_decrypt(&msg.header));
    let (fresh, _) = session_pair();
    assert!(!fresh.ready_to_decrypt(&msg.header));
    bob.decrypt(&msg).unwrap();
    assert!(bob.ready_to_encrypt());
    assert!(bob.ready_to_decrypt(&msg.header));
    let far = Header { dh: msg.header.dh, prev_chain_len: 0, n: u32::MAX };
    assert!(bob.ready_to_decrypt(&far));
}
