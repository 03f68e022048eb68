//! A first key for two who are never online together.

use rust_im::crypto::error::CryptoError;
use rust_im::crypto::primitives::{PublicKey, SecretBytes, Signature, VerifyingKey};
use rust_im::crypto::ratchet::RatchetState;
use rust_im::crypto::tls::{
    authority_request, rcgen_error, server_names, server_request, CertHolder, TlsMaterial,
};
use rust_im::crypto::x3dh::{
    initiate, initiate_with, respond, IdentityKeyPair, OneTimePreKey, PreKeyBundle, SignedPreKey,
    X3dhInitiation,
};
use rust_im::crypto::KEY_LEN;


struct BobShelf {
    identity: IdentityKeyPair,
    spk: SignedPreKey,
    opk: OneTimePreKey,
}

impl BobShelf {
    fn new() -> Self {
        let identity = IdentityKeyPair::generate();
        let spk = SignedPreKey::generate(&identity, 1);
        let opk = OneTimePreKey::generate(7);
        Self { identity, spk, opk }
    }

    fn bundle(&self) -> PreKeyBundle {
        PreKeyBundle {
            identity: self.identity.public(),
            signed_pre_key: self.spk.bundle_part(),
            one_time_pre_key: Some((self.opk.key_id, self.opk.public)),
        }
    }
}

#[test]
fn both_sides_derive_same_session_key() {
    let alice = IdentityKeyPair::generate();
    let bob = BobShelf::new();

    let (sk_a, initiation) = initiate(&alice, &bob.bundle()).unwrap();
    let sk_b = respond(&bob.identity, &bob.spk, Some(&bob.opk), &initiation).unwrap();

    assert_eq!(sk_a.expose(), sk_b.expose(), "X3DH 两侧必须收敛到同一 SK");
}

#[test]
fn session_keys_are_fresh_per_initiation() {
    let alice = IdentityKeyPair::generate();
    let bob = BobShelf::new();
    let (sk1, _) = initiate(&alice, &bob.bundle()).unwrap();
    let (sk2, _) = initiate(&alice, &bob.bundle()).unwrap();
    assert_ne!(sk1.expose(), sk2.expose());
}

#[test]
fn tampered_spk_signature_is_rejected() {
    let alice = IdentityKeyPair::generate();
    let bob = BobShelf::new();

    let mallory = IdentityKeyPair::generate();
    let fake_spk = SignedPreKey::generate(&mallory, 1);
    let forged = PreKeyBundle {
        identity: bob.identity.public(),
        signed_pre_key: fake_spk.bundle_part(),
        one_time_pre_key: Some((7, bob.opk.public)),
    };

    assert!(matches!(initiate(&alice, &forged), Err(CryptoError::BadSignature)));
}

#[test]
fn flipped_spk_public_is_rejected() {
    let alice = IdentityKeyPair::generate();
    let bob = BobShelf::new();
    let (id, public, signature) = bob.spk.bundle_part();
    let mut flipped = [0u8; 32];
    flipped.copy_from_slice(&public.to_bytes());
    flipped[0] ^= 0xFF;
    let bundle = PreKeyBundle {
        identity: bob.identity.public(),
        signed_pre_key: (id, PublicKey::from_bytes(flipped), signature),
        one_time_pre_key: None,
    };
    assert!(matches!(initiate(&alice, &bundle), Err(CryptoError::BadSignature)));
}

#[test]
fn stale_pre_key_id_is_rejected() {
    let alice = IdentityKeyPair::generate();
    let bob = BobShelf::new();

    let (_, mut initiation) = initiate(&alice, &bob.bundle()).unwrap();
    initiation.signed_pre_key_id += 1;
    let err = respond(&bob.identity, &bob.spk, Some(&bob.opk), &initiation);
    assert!(matches!(err, Err(CryptoError::Ratchet(_))));
}

#[test]
fn initiation_codec_roundtrip() {
    let alice = IdentityKeyPair::generate();
    let bob = BobShelf::new();

    let (_, initiation) = initiate(&alice, &bob.bundle()).unwrap();
    let decoded = X3dhInitiation::decode(&initiation.encode()).unwrap();
    assert_eq!(decoded, initiation);

    let bundle = PreKeyBundle {
        identity: bob.identity.public(),
        signed_pre_key: bob.spk.bundle_part(),
        one_time_pre_key: None,
    };
    let (_, initiation3) = initiate(&alice, &bundle).unwrap();
    let decoded3 = X3dhInitiation::decode(&initiation3.encode()).unwrap();
    assert_eq!(decoded3, initiation3);
    assert!(decoded3.one_time_pre_key_id.is_none());
}

#[test]
fn triple_dh_without_opk_still_converges() {
    let alice = IdentityKeyPair::generate();
    let bob = BobShelf::new();
    let bundle = PreKeyBundle {
        identity: bob.identity.public(),
        signed_pre_key: bob.spk.bundle_part(),
        one_time_pre_key: None,
    };
    let (sk_a, initiation) = initiate(&alice, &bundle).unwrap();
    let sk_b = respond(&bob.identity, &bob.spk, None, &initiation).unwrap();
    assert_eq!(sk_a.expose(), sk_b.expose());
}

#[test]
fn display_is_informative() {
    let e = CryptoError::BadSignature;
    assert!(e.to_text().contains("signature"));
}

#[test]
fn key_len_is_32() {
    assert_eq!(KEY_LEN, 32);
}

#[test]
fn generate_and_build_configs() {
    let material = TlsMaterial::generate_demo().unwrap();
    assert!(material.server_config().is_ok(), "服务端配置应构造成功");
    assert!(material.client_config().is_ok(), "客户端配置应构造成功");
}

#[test]
fn pem_has_armor() {
    let material = TlsMaterial::generate_demo().unwrap();
    let ca_pem = material.ca_cert_pem();
    assert!(ca_pem.starts_with("-----BEGIN CERTIFICATE-----"), "PEM 应有标准头: {ca_pem}");
    assert!(ca_pem.contains("-----END CERTIFICATE-----"), "PEM 应有标准尾");
}

#[test]
fn materials_are_random() {
    let a = TlsMaterial::generate_demo().unwrap();
    let b = TlsMaterial::generate_demo().unwrap();
    assert_ne!(a.ca_cert_pem(), b.ca_cert_pem(), "CA 证书应逐次随机");
}

/// What the certificate of the server is for.
#[test]
fn names_of_the_server() {
    assert!(server_names().iter().any(|n| n == "localhost"));
    let material = TlsMaterial::generate_demo().unwrap();
    assert!(material.server_cert_pem().starts_with("-----BEGIN CERTIFICATE-----"));
    assert_ne!(material.server_cert_pem(), material.ca_cert_pem());
}

/// The agreed key starts a conversation.
#[test]
fn agreed_key_starts_a_conversation() {
    let alice = IdentityKeyPair::generate();
    let bob = BobShelf::new();
    let (sk_a, initiation) = initiate(&alice, &bob.bundle()).unwrap();
    let sk_b = respond(&bob.identity, &bob.spk, Some(&bob.opk), &initiation).unwrap();
    let mut a = RatchetState::init_initiator(sk_a.expose(), bob.spk.public);
    let mut b = RatchetState::init_responder(sk_b.expose(), bob.spk.ratchet_secret());
    let msg = a.encrypt(b"hello").unwrap();
    assert_eq!(b.decrypt(&msg).unwrap(), b"hello");
    let msg = b.encrypt(b"hi").unwrap();
    assert_eq!(a.decrypt(&msg).unwrap(), b"hi");
}

/// With fixed secrets the agreement is determined.
#[test]
fn fixed_secrets_agree() {
    let secret = |n: u8| SecretBytes::from_bytes([n; 32]);
    let alice = IdentityKeyPair::from_secrets(secret(1), secret(2));
    let bob = IdentityKeyPair::from_secrets(secret(3), secret(4));
    let spk = SignedPreKey::from_secret(&bob, 9, secret(5));
    let bundle = PreKeyBundle {
        identity: bob.public(),
        signed_pre_key: spk.bundle_part(),
        one_time_pre_key: None,
    };
    let (one, initiation) = initiate_with(&alice, &bundle, secret(6)).unwrap();
    let (two, _) = initiate_with(&alice, &bundle, secret(6)).unwrap();
    assert_eq!(one.expose(), two.expose());
    assert_eq!(initiation.ephemeral, secret(6).public_key());
    assert_eq!(respond(&bob, &spk, None, &initiation).unwrap().expose(), one.expose());
}

/// A one-time key that is missing, or is another, is an error.
#[test]
fn missing_one_time_key_is_an_error() {
    let alice = IdentityKeyPair::generate();
    let bob = BobShelf::new();
    let (_, initiation) = initiate(&alice, &bob.bundle()).unwrap();
    assert!(matches!(
        respond(&bob.identity, &bob.spk, None, &initiation),
        Err(CryptoError::Ratchet(_))
    ));
    let other = OneTimePreKey::generate(8);
    assert!(matches!(
        respond(&bob.identity, &bob.spk, Some(&other), &initiation),
        Err(CryptoError::Ratchet(_))
    ));
}

/// Bytes that are too short are no initiation.
#[test]
fn short_initiation_is_refused() {
    assert!(X3dhInitiation::decode(&[0; 10]).is_err());
}

/// The public key of a known secret, and what two secrets share.
#[test]
fn known_agreement() {
    let alice = SecretBytes::from_bytes([
        0x77, 0x07, 0x6d, 0x0a, 0x73, 0x18, 0xa5, 0x7d, 0x3c, 0x16, 0xc1, 0x72, 0x51, 0xb2, 0x66,
        0x45, 0xdf, 0x4c, 0x2f, 0x87, 0xeb, 0xc0, 0x99, 0x2a, 0xb1, 0x77, 0xfb, 0xa5, 0x1d, 0xb9,
        0x2c, 0x2a,
    ]);
    let expected = [
        0x85, 0x20, 0xf0, 0x09, 0x89, 0x30, 0xa7, 0x54, 0x74, 0x8b, 0x7d, 0xdc, 0xb4, 0x3e, 0xf7,
        0x5a, 0x0d, 0xbf, 0x3a, 0x0d, 0x26, 0x38, 0x1a, 0xf4, 0xeb, 0xa4, 0xa9, 0x8e, 0xaa, 0x9b,
        0x4e, 0x6a,
    ];
    assert_eq!(alice.public_key().to_bytes(), expected);
    let bob = SecretBytes::from_bytes([3; 32]);
    assert_eq!(
        alice.diffie_hellman(&bob.public_key()).expose(),
        bob.diffie_hellman(&alice.public_key()).expose()
    );
    assert!(alice.public_key().same(&PublicKey::from_bytes(expected)));
}

/// A signature holds for its message and its key only.
#[test]
fn signature_holds_for_its_message() {
    let bob = IdentityKeyPair::from_secrets(
        SecretBytes::from_bytes([3; 32]),
        SecretBytes::from_bytes([4; 32]),
    );
    let spk = SignedPreKey::from_secret(&bob, 9, SecretBytes::from_bytes([5; 32]));
    let mut message = 9u32.to_be_bytes().to_vec();
    message.extend_from_slice(&spk.public.to_bytes());
    let bundle = PreKeyBundle {
        identity: bob.public(),
        signed_pre_key: spk.bundle_part(),
        one_time_pre_key: None,
    };
    let (_, initiation) = initiate(&bob, &bundle).unwrap();
    let mut bytes = [0u8; 32];
    bytes.copy_from_slice(&initiation.encode()[33..65]);
    let key = VerifyingKey::from_bytes(bytes).unwrap();
    assert_eq!(key.to_bytes(), bytes);
    assert!(key.verify(&message, &spk.signature));
    assert!(!key.verify(b"another", &spk.signature));
    let mut bytes = spk.signature.to_bytes();
    bytes[0] ^= 1;
    assert!(!key.verify(&message, &Signature::from_bytes(bytes)));
}

/// The texts of the errors.
#[test]
fn texts_of_the_errors() {
    assert!(CryptoError::Ratchet("gone".to_string()).to_text().contains("gone"));
    assert!(CryptoError::Rcgen("bad".to_string()).to_text().contains("bad"));
    assert!(CryptoError::Rustls("bad".to_string()).to_text().contains("bad"));
}

/// An error of the certificate maker is passed on with its text.
#[test]
fn maker_errors_keep_their_text() {
    assert_eq!(rcgen_error(rcgen::Error::Time), CryptoError::Rcgen("Time error".to_string()));
    assert_eq!(
        rcgen_error(rcgen::Error::RingKeyRejected("odd".to_string())).to_text(),
        "certificate generation failed: Key rejected by ring: odd",
    );
}

/// What the certificates are asked for.
#[test]
fn certificates_are_asked_for() {
    assert_eq!(authority_request().common_name, "rust-im demo CA");
    assert_eq!(authority_request().names, vec!["rust-im demo CA".to_string()]);
    assert_eq!(server_request().common_name, "localhost");
    assert_eq!(server_request().names, server_names());
    assert_eq!(authority_request().holder, CertHolder::Authority);
    assert_eq!(server_request().holder, CertHolder::Subject);
}

/// The material is made of the certificates and the key that are handed in, and a
/// server cannot be configured with the key of another certificate.
#[test]
fn material_holds_what_it_is_made_of() {
    let ca_key = rcgen::KeyPair::generate().unwrap();
    let ca = rcgen::CertificateParams::new(vec!["ca".to_string()]).unwrap();
    let ca = ca.self_signed(&ca_key).unwrap();
    let key = rcgen::KeyPair::generate().unwrap();
    let leaf = rcgen::CertificateParams::new(vec!["localhost".to_string()]).unwrap();
    let leaf = leaf.signed_by(&key, &ca, &ca_key).unwrap();
    let material = TlsMaterial::material_of(&ca, &leaf, &key);
    assert_eq!(material.ca_cert_pem(), ca.pem());
    assert_eq!(material.server_cert_pem(), leaf.pem());
    assert!(material.server_config().is_ok());
    assert!(material.client_config().is_ok());
    let odd = TlsMaterial::material_of(&ca, &ca, &key);
    match odd.server_config() {
        Err(CryptoError::Rustls(text)) => assert!(text.contains("KeyMismatch"), "{text}"),
        _ => panic!("the key is not the authority's"),
    }
}

/// The signing key of a known secret.
#[test]
fn known_signing_key() {
    let secret = SecretBytes::from_bytes([
        0x9d, 0x61, 0xb1, 0x9d, 0xef, 0xfd, 0x5a, 0x60, 0xba, 0x84, 0x4a, 0xf4, 0x92, 0xec, 0x2c,
        0xc4, 0x44, 0x49, 0xc5, 0x69, 0x7b, 0x32, 0x69, 0x19, 0x70, 0x3b, 0xac, 0x03, 0x1c, 0xae,
        0x7f, 0x60,
    ]);
    let public = [
        0xd7, 0x5a, 0x98, 0x01, 0x82, 0xb1, 0x0a, 0xb7, 0xd5, 0x4b, 0xfe, 0xd3, 0xc9, 0x64, 0x07,
        0x3a, 0x0e, 0xe1, 0x72, 0xf3, 0xda, 0xa6, 0x23, 0x25, 0xaf, 0x02, 0x1a, 0x68, 0xf7, 0x07,
        0x51, 0x1a,
    ];
    let alice = IdentityKeyPair::from_secrets(secret, SecretBytes::from_bytes([2; 32]));
    let bob = BobShelf::new();
    let (_, initiation) = initiate(&alice, &bob.bundle()).unwrap();
    assert_eq!(&initiation.encode()[33..65], &public);
    assert_eq!(
        &initiation.encode()[1..33],
        &SecretBytes::from_bytes([2; 32]).public_key().to_bytes()
    );
}

/// The agreed key is derived: it is none of the secrets that go into it.
#[test]
fn agreed_key_is_derived() {
    let secret = |n: u8| SecretBytes::from_bytes([n; 32]);
    let alice = IdentityKeyPair::from_secrets(secret(1), secret(2));
    let bob = IdentityKeyPair::from_secrets(secret(3), secret(4));
    let spk = SignedPreKey::from_secret(&bob, 9, secret(5));
    let bundle = PreKeyBundle {
        identity: bob.public(),
        signed_pre_key: spk.bundle_part(),
        one_time_pre_key: None,
    };
    let (key, _) = initiate_with(&alice, &bundle, secret(6)).unwrap();
    for (a, b) in [(2, 5), (6, 4), (6, 5)] {
        assert_ne!(key.expose(), secret(a).diffie_hellman(&secret(b).public_key()).expose());
    }
}
