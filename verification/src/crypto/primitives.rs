//! Keys as plain bytes, and the cryptographic functions that the protocols are
//! built from.

use aes_gcm::aead::{Aead, KeyInit};
use ed25519_dalek::{Signer, Verifier};
use hkdf::hmac::Mac;
use rand::RngCore;
use vstd::prelude::*;

verus! {

// ---------------------------------------------------------------------------
// The outside functions
// ---------------------------------------------------------------------------

/// The X25519 public key of a secret.
pub uninterp spec fn x25519_public(secret: Seq<u8>) -> Seq<u8>;

/// The X25519 shared secret of a secret and a public key.
pub uninterp spec fn x25519_shared(secret: Seq<u8>, public: Seq<u8>) -> Seq<u8>;

/// The Ed25519 public key of a secret.
pub uninterp spec fn ed25519_public(secret: Seq<u8>) -> Seq<u8>;

/// The Ed25519 signature of a message.
pub uninterp spec fn ed25519_sign(secret: Seq<u8>, message: Seq<u8>) -> Seq<u8>;

/// Whether an Ed25519 signature of a message is good for a public key.
pub uninterp spec fn ed25519_verify(public: Seq<u8>, message: Seq<u8>, signature: Seq<u8>) -> bool;

/// Whether bytes are an Ed25519 public key.
pub uninterp spec fn ed25519_key_ok(public: Seq<u8>) -> bool;

/// HKDF with SHA-256: extraction with an optional salt, then expansion to `len`
/// bytes.
pub uninterp spec fn hkdf_sha256(
    salt: Option<Seq<u8>>,
    ikm: Seq<u8>,
    info: Seq<u8>,
    len: nat,
) -> Seq<u8>;

/// HMAC with SHA-256.
pub uninterp spec fn hmac_sha256(key: Seq<u8>, message: Seq<u8>) -> Seq<u8>;

/// AES-256-GCM encryption: the ciphertext with its tag.
pub uninterp spec fn aes_gcm_seal(
    key: Seq<u8>,
    nonce: Seq<u8>,
    aad: Seq<u8>,
    plaintext: Seq<u8>,
) -> Option<Seq<u8>>;

/// AES-256-GCM decryption: the plaintext, if the tag is right.
pub uninterp spec fn aes_gcm_open(
    key: Seq<u8>,
    nonce: Seq<u8>,
    aad: Seq<u8>,
    ciphertext: Seq<u8>,
) -> Option<Seq<u8>>;

/// What an optional vector holds.
pub open spec fn optional_bytes(v: Option<Vec<u8>>) -> Option<Seq<u8>> {
    match v {
        Some(bytes) => Some(bytes@),
        None => None,
    }
}

/// What an optional slice holds.
pub open spec fn optional_slice(v: Option<&[u8]>) -> Option<Seq<u8>> {
    match v {
        Some(slice) => Some(slice@),
        None => None,
    }
}

/// The longest text that AES-GCM encrypts.
pub const GCM_MAX_LEN: u64 = 0x10_0000_0000;

/// The length of the tag behind a ciphertext.
pub const TAG_LEN: usize = 16;

/// `x25519_dalek::PublicKey::from(&StaticSecret)`: the public key of a secret.
#[verifier::external_body]
fn x25519_public_key(secret: &[u8; 32]) -> (r: [u8; 32])
    ensures
        r@ == x25519_public(secret@),
{
    x25519_dalek::PublicKey::from(&x25519_dalek::StaticSecret::from(*secret)).to_bytes()
}

/// `x25519_dalek::StaticSecret::diffie_hellman`: the shared secret. Both sides
/// get the same one: if `public` belongs to a secret, that secret gets it from
/// the public key of this one.
#[verifier::external_body]
fn x25519_agree(secret: &[u8; 32], public: &[u8; 32]) -> (r: [u8; 32])
    ensures
        r@ == x25519_shared(secret@, public@),
        forall|other: Seq<u8>|
            other.len() == 32 && #[trigger] x25519_public(other) == public@ ==> r@ == x25519_shared(
                other,
                x25519_public(secret@),
            ),
{
    let secret = x25519_dalek::StaticSecret::from(*secret);
    secret.diffie_hellman(&x25519_dalek::PublicKey::from(*public)).to_bytes()
}

/// `ed25519_dalek::SigningKey::verifying_key`: the public key of a secret, which
/// is a well-formed one.
#[verifier::external_body]
fn ed25519_public_key(secret: &[u8; 32]) -> (r: [u8; 32])
    ensures
        r@ == ed25519_public(secret@),
        ed25519_key_ok(r@),
{
    ed25519_dalek::SigningKey::from_bytes(secret).verifying_key().to_bytes()
}

/// `ed25519_dalek::SigningKey::sign`: the signature of a message, which is good
/// for the public key of the secret.
#[verifier::external_body]
fn ed25519_signature(secret: &[u8; 32], message: &[u8]) -> (r: [u8; 64])
    ensures
        r@ == ed25519_sign(secret@, message@),
        ed25519_verify(ed25519_public(secret@), message@, r@),
{
    ed25519_dalek::SigningKey::from_bytes(secret).sign(message).to_bytes()
}

/// `ed25519_dalek::VerifyingKey::verify`: whether a signature is good; it is not
/// where the key is not a well-formed one.
#[verifier::external_body]
fn ed25519_check(public: &[u8; 32], message: &[u8], signature: &[u8; 64]) -> (r: bool)
    ensures
        r == ed25519_verify(public@, message@, signature@),
{
    let signature = ed25519_dalek::Signature::from_bytes(signature);
    match ed25519_dalek::VerifyingKey::from_bytes(public) {
        Ok(key) => key.verify(message, &signature).is_ok(),
        Err(_) => false,
    }
}

/// `ed25519_dalek::VerifyingKey::from_bytes`: whether bytes are a public key.
#[verifier::external_body]
fn ed25519_well_formed(public: &[u8; 32]) -> (r: bool)
    ensures
        r == ed25519_key_ok(public@),
{
    ed25519_dalek::VerifyingKey::from_bytes(public).is_ok()
}

/// `hkdf::Hkdf::new` and `expand`: `len` bytes derived from the input. More than
/// 255 blocks of 32 bytes cannot be had.
#[verifier::external_body]
pub(crate) fn hkdf_derive(salt: Option<&[u8]>, ikm: &[u8], info: &[u8], len: usize) -> (r: Vec<u8>)
    requires
        len <= 255 * 32,
    ensures
        r@ == hkdf_sha256(optional_slice(salt), ikm@, info@, len as nat),
        r@.len() == len,
{
    let mut okm = vec![0u8; len];
    hkdf::Hkdf::<sha2::Sha256>::new(salt, ikm).expand(info, &mut okm).expect("length in range");
    okm
}

/// `hmac::Hmac<Sha256>`: the code of a message under a key of any length.
#[verifier::external_body]
fn hmac_code(key: &[u8], message: &[u8]) -> (r: [u8; 32])
    ensures
        r@ == hmac_sha256(key@, message@),
{
    let mut mac = <hkdf::hmac::Hmac<sha2::Sha256> as Mac>::new_from_slice(key).expect("any length");
    mac.update(message);
    mac.finalize().into_bytes().into()
}

/// `aes_gcm::Aes256Gcm::encrypt`: fails only on a text or associated data over
/// the limit; the ciphertext is longer than the text by the tag.
#[verifier::external_body]
fn aes_gcm_encrypt(key: &[u8; 32], nonce: &[u8; 12], aad: &[u8], text: &[u8]) -> (r: Option<Vec<u8>>)
    ensures
        optional_bytes(r) == aes_gcm_seal(key@, nonce@, aad@, text@),
        r is Some == (text@.len() <= GCM_MAX_LEN && aad@.len() <= GCM_MAX_LEN),
        r is Some ==> r->Some_0@.len() == text@.len() + TAG_LEN,
{
    let cipher = aes_gcm::Aes256Gcm::new(key.into());
    cipher.encrypt(nonce.into(), aes_gcm::aead::Payload { msg: text, aad }).ok()
}

/// `aes_gcm::Aes256Gcm::decrypt`: gives back what was encrypted under the same
/// key, nonce and associated data.
#[verifier::external_body]
fn aes_gcm_decrypt(key: &[u8; 32], nonce: &[u8; 12], aad: &[u8], sealed: &[u8]) -> (r: Option<
    Vec<u8>,
>)
    ensures
        optional_bytes(r) == aes_gcm_open(key@, nonce@, aad@, sealed@),
        forall|text: Seq<u8>| #[trigger]
            aes_gcm_seal(key@, nonce@, aad@, text) == Some(sealed@) ==> r is Some && r->Some_0@
                == text,
{
    let cipher = aes_gcm::Aes256Gcm::new(key.into());
    cipher.decrypt(nonce.into(), aes_gcm::aead::Payload { msg: sealed, aad }).ok()
}

/// `rand::rngs::OsRng::fill_bytes`: thirty-two bytes from the operating system.
/// Nothing is said of them.
#[verifier::external_body]
fn random_bytes() -> (r: [u8; 32]) {
    let mut bytes = [0u8; 32];
    rand::rngs::OsRng.fill_bytes(&mut bytes);
    bytes
}

/// `zeroize::Zeroize::zeroize` on an array: every byte is overwritten with zero.
#[verifier::external_body]
fn wipe(bytes: &mut [u8; 32])
    ensures
        forall|i: int| 0 <= i < 32 ==> final(bytes)@[i] == 0,
    opens_invariants none
    no_unwind
{
    zeroize::Zeroize::zeroize(bytes)
}

// ---------------------------------------------------------------------------
// Arrays
// ---------------------------------------------------------------------------

/// Thirty-two bytes of `src` from `at` on.
pub(crate) fn array_at(src: &[u8], at: usize) -> (r: [u8; 32])
    requires
        at + 32 <= src@.len(),
    ensures
        r@ == src@.subrange(at as int, at + 32),
{
    let mut out: [u8; 32] = [0u8; 32];
    let mut i: usize = 0;
    while i < 32
        invariant
            i <= 32,
            at + 32 <= src.len(),
            src.len() == src@.len(),
            out@.len() == 32,
            forall|k: int| 0 <= k < i ==> out@[k] == src@[at + k],
        decreases 32 - i,
    {
        out[i] = src[at + i];
        i = i + 1;
    }
    assert(out@ =~= src@.subrange(at as int, at + 32));
    out
}

/// Twelve bytes of `src` from `at` on.
fn nonce_at(src: &[u8], at: usize) -> (r: [u8; 12])
    requires
        at + 12 <= src@.len(),
    ensures
        r@ == src@.subrange(at as int, at + 12),
{
    let mut out: [u8; 12] = [0u8; 12];
    let mut i: usize = 0;
    while i < 12
        invariant
            i <= 12,
            at + 12 <= src.len(),
            src.len() == src@.len(),
            out@.len() == 12,
            forall|k: int| 0 <= k < i ==> out@[k] == src@[at + k],
        decreases 12 - i,
    {
        out[i] = src[at + i];
        i = i + 1;
    }
    assert(out@ =~= src@.subrange(at as int, at + 12));
    out
}

/// Whether two arrays hold the same bytes.
fn arrays_equal(a: &[u8; 32], b: &[u8; 32]) -> (r: bool)
    ensures
        r == (a@ == b@),
{
    let mut i: usize = 0;
    while i < 32
        invariant
            i <= 32,
            forall|k: int| 0 <= k < i ==> a@[k] == b@[k],
        decreases 32 - i,
    {
        if a[i] != b[i] {
            return false;
        }
        i = i + 1;
    }
    assert(a@ =~= b@);
    true
}

// ---------------------------------------------------------------------------
// Keys
// ---------------------------------------------------------------------------

/// Thirty-two secret bytes, overwritten when they are dropped.
pub struct SecretBytes {
    bytes: [u8; 32],
}

impl Drop for SecretBytes {
    fn drop(&mut self)
        opens_invariants none
        no_unwind
    {
        wipe(&mut self.bytes);
    }
}

impl View for SecretBytes {
    type V = Seq<u8>;

    closed spec fn view(&self) -> Seq<u8> {
        self.bytes@
    }
}

impl SecretBytes {
    /// Keeps the bytes.
    pub fn from_bytes(bytes: [u8; 32]) -> (r: Self)
        ensures
            r@ == bytes@,
            r@.len() == 32,
    {
        SecretBytes { bytes }
    }

    /// Fresh bytes from the operating system.
    #[must_use]
    pub fn random() -> (r: Self)
        ensures
            r@.len() == 32,
    {
        SecretBytes { bytes: random_bytes() }
    }

    /// A copy of the bytes.
    #[must_use]
    pub fn expose(&self) -> (r: [u8; 32])
        ensures
            r@ == self@,
    {
        self.bytes
    }

    /// Another keeper of the same bytes.
    pub(crate) fn duplicate(&self) -> (r: Self)
        ensures
            r@ == self@,
            r@.len() == 32,
    {
        SecretBytes { bytes: self.bytes }
    }

    /// The X25519 public key of the bytes as a secret.
    #[must_use]
    pub fn public_key(&self) -> (r: PublicKey)
        ensures
            r@ == x25519_public(self@),
    {
        PublicKey { bytes: x25519_public_key(&self.bytes) }
    }

    /// The X25519 shared secret with the owner of a public key. If the key
    /// belongs to a secret, that secret gets the same from this one's key.
    #[must_use]
    pub fn diffie_hellman(&self, public: &PublicKey) -> (r: SecretBytes)
        ensures
            r@ == x25519_shared(self@, public@),
            r@.len() == 32,
            forall|other: Seq<u8>|
                other.len() == 32 && #[trigger] x25519_public(other) == public@ ==> r@
                    == x25519_shared(other, x25519_public(self@)),
    {
        SecretBytes { bytes: x25519_agree(&self.bytes, &public.bytes) }
    }

    /// The Ed25519 public key of the bytes as a secret.
    pub(crate) fn verifying_key(&self) -> (r: [u8; 32])
        ensures
            r@ == ed25519_public(self@),
            ed25519_key_ok(r@),
    {
        ed25519_public_key(&self.bytes)
    }

    /// The Ed25519 signature of a message under the bytes as a secret.
    pub(crate) fn sign(&self, message: &[u8]) -> (r: Signature)
        ensures
            r@ == ed25519_sign(self@, message@),
            ed25519_verify(ed25519_public(self@), message@, r@),
    {
        Signature { bytes: ed25519_signature(&self.bytes, message) }
    }

    /// The HMAC of a single byte under the bytes as a key.
    pub(crate) fn hmac_byte(&self, input: u8) -> (r: SecretBytes)
        ensures
            r@ == hmac_sha256(self@, seq![input]),
            r@.len() == 32,
    {
        let message: [u8; 1] = [input];
        assert(message@ =~= seq![input]);
        SecretBytes { bytes: hmac_code(self.bytes.as_slice(), message.as_slice()) }
    }

    /// The bytes as a slice.
    pub(crate) fn as_slice(&self) -> (r: &[u8])
        ensures
            r@ == self@,
    {
        self.bytes.as_slice()
    }

    /// Encrypts under the bytes as an AES-256 key.
    pub(crate) fn seal(&self, nonce: &[u8], aad: &[u8], text: &[u8]) -> (r: Option<Vec<u8>>)
        requires
            nonce@.len() == 12,
        ensures
            optional_bytes(r) == aes_gcm_seal(self@, nonce@, aad@, text@),
            r is Some == (text@.len() <= GCM_MAX_LEN && aad@.len() <= GCM_MAX_LEN),
            r is Some ==> r->Some_0@.len() == text@.len() + TAG_LEN,
    {
        let n = nonce_at(nonce, 0);
        assert(n@ =~= nonce@);
        aes_gcm_encrypt(&self.bytes, &n, aad, text)
    }

    /// Decrypts under the bytes as an AES-256 key.
    pub(crate) fn open(&self, nonce: &[u8], aad: &[u8], sealed: &[u8]) -> (r: Option<Vec<u8>>)
        requires
            nonce@.len() == 12,
        ensures
            optional_bytes(r) == aes_gcm_open(self@, nonce@, aad@, sealed@),
            forall|text: Seq<u8>| #[trigger]
                aes_gcm_seal(self@, nonce@, aad@, text) == Some(sealed@) ==> r is Some
                    && r->Some_0@ == text,
    {
        let n = nonce_at(nonce, 0);
        assert(n@ =~= nonce@);
        aes_gcm_decrypt(&self.bytes, &n, aad, sealed)
    }
}

/// An X25519 public key.
#[derive(Clone, Copy, Debug, PartialEq, Eq)]
pub struct PublicKey {
    bytes: [u8; 32],
}

impl View for PublicKey {
    type V = Seq<u8>;

    closed spec fn view(&self) -> Seq<u8> {
        self.bytes@
    }
}

impl PublicKey {
    /// The key of these bytes.
    #[must_use]
    pub fn from_bytes(bytes: [u8; 32]) -> (r: Self)
        ensures
            r@ == bytes@,
            r@.len() == 32,
    {
        PublicKey { bytes }
    }

    /// The bytes of the key.
    #[must_use]
    pub fn to_bytes(&self) -> (r: [u8; 32])
        ensures
            r@ == self@,
            self@.len() == 32,
    {
        self.bytes
    }

    /// Whether two keys are the same.
    #[must_use]
    pub fn same(&self, other: &PublicKey) -> (r: bool)
        ensures
            r == (self@ == other@),
    {
        arrays_equal(&self.bytes, &other.bytes)
    }

    /// A key has thirty-two bytes.
    pub proof fn law_length(&self)
        ensures
            self@.len() == 32,
    {
    }
}

/// An Ed25519 public key.
#[derive(Clone, Copy, Debug, PartialEq, Eq)]
pub struct VerifyingKey {
    bytes: [u8; 32],
}

impl View for VerifyingKey {
    type V = Seq<u8>;

    closed spec fn view(&self) -> Seq<u8> {
        self.bytes@
    }
}

impl VerifyingKey {
    /// The bytes are those of a key.
    #[verifier::type_invariant]
    spec fn well_formed(self) -> bool {
        ed25519_key_ok(self.bytes@)
    }

    /// The key of a secret.
    pub(crate) fn of(secret: &SecretBytes) -> (r: Self)
        ensures
            r@ == ed25519_public(secret@),
            ed25519_key_ok(r@),
            r@.len() == 32,
    {
        VerifyingKey { bytes: secret.verifying_key() }
    }

    /// The key of these bytes, if they are one.
    #[must_use]
    pub fn from_bytes(bytes: [u8; 32]) -> (r: Option<Self>)
        ensures
            match r {
                Some(k) => ed25519_key_ok(bytes@) && k@ == bytes@,
                None => !ed25519_key_ok(bytes@),
            },
    {
        if ed25519_well_formed(&bytes) {
            Some(VerifyingKey { bytes })
        } else {
            None
        }
    }

    /// The bytes of the key.
    #[must_use]
    pub fn to_bytes(&self) -> (r: [u8; 32])
        ensures
            r@ == self@,
            self@.len() == 32,
            ed25519_key_ok(self@),
    {
        proof {
            use_type_invariant(self);
        }
        self.bytes
    }

    /// Whether a signature of a message is good for the key.
    #[must_use]
    pub fn verify(&self, message: &[u8], signature: &Signature) -> (r: bool)
        ensures
            r == ed25519_verify(self@, message@, signature@),
    {
        ed25519_check(&self.bytes, message, &signature.bytes)
    }
}

/// An Ed25519 signature.
#[derive(Clone, Copy, Debug, PartialEq, Eq)]
pub struct Signature {
    bytes: [u8; 64],
}

impl View for Signature {
    type V = Seq<u8>;

    closed spec fn view(&self) -> Seq<u8> {
        self.bytes@
    }
}

impl Signature {
    /// The signature of these bytes.
    #[must_use]
    pub fn from_bytes(bytes: [u8; 64]) -> (r: Self)
        ensures
            r@ == bytes@,
    {
        Signature { bytes }
    }

    /// The bytes of the signature.
    #[must_use]
    pub fn to_bytes(&self) -> (r: [u8; 64])
        ensures
            r@ == self@,
    {
        self.bytes
    }
}

} // verus!
