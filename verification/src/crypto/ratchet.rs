//! The double ratchet: every message has a key of its own, and every round trip
//! renews the root from which the keys come.

use vstd::prelude::*;
use vstd::utf8::encode_utf8;
use crate::crypto::error::{CryptoError, CryptoErrorModel, ratchet_error};
use crate::crypto::primitives::{
    GCM_MAX_LEN, PublicKey, SecretBytes, TAG_LEN, aes_gcm_open, aes_gcm_seal, array_at,
    hkdf_derive, hkdf_sha256, hmac_sha256, x25519_public, x25519_shared,
};
use crate::crypto::skipped::{SkippedKeys};
use crate::octets::{
    be32_bytes, be32_value, copy_range, get_be32, law_be32_round_trip, put_be32, put_slice,
};
use crate::text::{decimal, push_decimal};

verus! {

/// How many messages of one chain may be passed over at once.
pub const MAX_SKIP: u32 = 100;

/// The length of a message header.
pub const HEADER_LEN: usize = 40;

/// What a root derivation is for.
pub const ROOT_INFO: &'static str = "im-e2ee-ratchet-root-v1";

/// What a message key derivation is for.
pub const MSG_KEY_INFO: &'static str = "im-e2ee-message-key-v1";

// ---------------------------------------------------------------------------
// Key derivation
// ---------------------------------------------------------------------------

/// The next root and the start of a new chain.
pub open spec fn root_step(root: Seq<u8>, shared: Seq<u8>) -> (Seq<u8>, Seq<u8>) {
    let okm = hkdf_sha256(Some(root), shared, encode_utf8(ROOT_INFO@), 64);
    (okm.subrange(0, 32), okm.subrange(32, 64))
}

/// The key of the message at a link of a chain.
pub open spec fn link_key(link: Seq<u8>) -> Seq<u8> {
    hmac_sha256(link, seq![1u8])
}

/// The next link of a chain.
pub open spec fn next_link(link: Seq<u8>) -> Seq<u8> {
    hmac_sha256(link, seq![2u8])
}

/// The link `n` steps along a chain.
pub open spec fn link_after(link: Seq<u8>, n: nat) -> Seq<u8>
    decreases n,
{
    if n == 0 {
        link
    } else {
        next_link(link_after(link, (n - 1) as nat))
    }
}

/// The key of message `n` of a chain.
pub open spec fn message_key(chain: Seq<u8>, n: nat) -> Seq<u8> {
    link_key(link_after(chain, n))
}

/// The cipher key and the nonce of a message.
pub open spec fn expanded(key: Seq<u8>) -> (Seq<u8>, Seq<u8>) {
    let okm = hkdf_sha256(None, key, encode_utf8(MSG_KEY_INFO@), 44);
    (okm.subrange(0, 32), okm.subrange(32, 44))
}

/// A text encrypted under a message key, bound to a header.
pub open spec fn sealed(key: Seq<u8>, text: Seq<u8>, header: HeaderModel) -> Option<Seq<u8>> {
    aes_gcm_seal(expanded(key).0, expanded(key).1, header_bytes(header), text)
}

/// A ciphertext decrypted under a message key, bound to a header.
pub open spec fn opened(key: Seq<u8>, ciphertext: Seq<u8>, header: HeaderModel) -> Option<Seq<u8>> {
    aes_gcm_open(expanded(key).0, expanded(key).1, header_bytes(header), ciphertext)
}

proof fn lemma_link_after_add(link: Seq<u8>, m: nat, n: nat)
    ensures
        link_after(link_after(link, m), n) == link_after(link, m + n),
    decreases n,
{
    if n > 0 {
        lemma_link_after_add(link, m, (n - 1) as nat);
        assert((m + n - 1) as nat == m + (n - 1) as nat);
    }
}

/// Derives the next root and the start of a new chain.
fn kdf_rk(root: &SecretBytes, shared: &SecretBytes) -> (r: (SecretBytes, SecretBytes))
    ensures
        r.0@ == root_step(root@, shared@).0,
        r.1@ == root_step(root@, shared@).1,
{
    let okm = hkdf_derive(Some(root.as_slice()), shared.as_slice(), ROOT_INFO.as_bytes(), 64);
    let rk = array_at(okm.as_slice(), 0);
    let ck = array_at(okm.as_slice(), 32);
    (SecretBytes::from_bytes(rk), SecretBytes::from_bytes(ck))
}

/// Derives the key of the message at a link.
fn kdf_ck_mk(link: &SecretBytes) -> (r: SecretBytes)
    ensures
        r@ == link_key(link@),
{
    link.hmac_byte(1)
}

/// Derives the next link.
fn kdf_ck_next(link: &SecretBytes) -> (r: SecretBytes)
    ensures
        r@ == next_link(link@),
{
    link.hmac_byte(2)
}

/// Derives the cipher key and the nonce of a message.
fn expand_msg_key(key: &SecretBytes) -> (r: (SecretBytes, Vec<u8>))
    ensures
        r.0@ == expanded(key@).0,
        r.1@ == expanded(key@).1,
        r.1@.len() == 12,
{
    let okm = hkdf_derive(None, key.as_slice(), MSG_KEY_INFO.as_bytes(), 44);
    let cipher_key = array_at(okm.as_slice(), 0);
    let nonce = copy_range(okm.as_slice(), 32, 44);
    (SecretBytes::from_bytes(cipher_key), nonce)
}

/// Encrypts a text, bound to a header.
fn seal(key: &SecretBytes, text: &[u8], header: &Header) -> (r: Result<Vec<u8>, CryptoError>)
    ensures
        match sealed(key@, text@, header@) {
            Some(ciphertext) => r is Ok && r->Ok_0@ == ciphertext,
            None => r is Err && r->Err_0@ == CryptoErrorModel::Ratchet("AES-GCM 加密失败"@),
        },
        r is Ok == (text@.len() <= GCM_MAX_LEN),
        r is Ok ==> r->Ok_0@.len() == text@.len() + TAG_LEN,
{
    let (cipher_key, nonce) = expand_msg_key(key);
    let aad = header.encode();
    match cipher_key.seal(nonce.as_slice(), aad.as_slice(), text) {
        Some(ciphertext) => Ok(ciphertext),
        None => Err(ratchet_error("AES-GCM 加密失败")),
    }
}

/// What is said of a message that does not authenticate.
pub open spec fn forgery_text() -> Seq<char> {
    "GCM 认证失败：密文或头被篡改/错投会话"@
}

/// Decrypts a ciphertext, bound to a header.
fn open(key: &SecretBytes, ciphertext: &[u8], header: &Header) -> (r: Result<Vec<u8>, CryptoError>)
    ensures
        result_model(r) == opened_result(key@, ciphertext@, header@),
        forall|text: Seq<u8>| #[trigger]
            sealed(key@, text, header@) == Some(ciphertext@) ==> r is Ok && r->Ok_0@ == text,
{
    let (cipher_key, nonce) = expand_msg_key(key);
    let aad = header.encode();
    match cipher_key.open(nonce.as_slice(), aad.as_slice(), ciphertext) {
        Some(text) => Ok(text),
        None => Err(ratchet_error("GCM 认证失败：密文或头被篡改/错投会话")),
    }
}

/// What decrypting under a message key returns.
pub open spec fn opened_result(
    key: Seq<u8>,
    ciphertext: Seq<u8>,
    header: HeaderModel,
) -> Result<Seq<u8>, CryptoErrorModel> {
    match opened(key, ciphertext, header) {
        Some(text) => Ok(text),
        None => Err(CryptoErrorModel::Ratchet(forgery_text())),
    }
}

/// What a result says.
pub open spec fn result_model(r: Result<Vec<u8>, CryptoError>) -> Result<
    Seq<u8>,
    CryptoErrorModel,
> {
    match r {
        Ok(v) => Ok(v@),
        Err(e) => Err(e@),
    }
}

// ---------------------------------------------------------------------------
// Messages
// ---------------------------------------------------------------------------

/// Where in the ratchet a message stands.
#[derive(Clone, Copy, Debug, PartialEq, Eq)]
pub struct Header {
    /// The sender's ratchet key.
    pub dh: PublicKey,
    /// The length of the sender's chain before this one.
    pub prev_chain_len: u32,
    /// The number of the message in its chain.
    pub n: u32,
}

/// What a [`Header`] says.
#[verifier::ext_equal]
pub struct HeaderModel {
    pub dh: Seq<u8>,
    pub prev: u32,
    pub n: u32,
}

impl View for Header {
    type V = HeaderModel;

    open spec fn view(&self) -> HeaderModel {
        HeaderModel { dh: self.dh@, prev: self.prev_chain_len, n: self.n }
    }
}

/// The bytes of a header.
pub open spec fn header_bytes(h: HeaderModel) -> Seq<u8> {
    h.dh + be32_bytes(h.prev) + be32_bytes(h.n)
}

/// The header at the start of bytes that are long enough.
pub open spec fn parse_header(s: Seq<u8>) -> HeaderModel {
    HeaderModel {
        dh: s.subrange(0, 32),
        prev: be32_value(s.subrange(32, 36)),
        n: be32_value(s.subrange(36, 40)),
    }
}

impl Header {
    fn encode(&self) -> (r: Vec<u8>)
        ensures
            r@ == header_bytes(self@),
            r@.len() == HEADER_LEN,
    {
        let mut out: Vec<u8> = Vec::new();
        put_slice(&mut out, self.dh.to_bytes().as_slice());
        put_be32(&mut out, self.prev_chain_len);
        put_be32(&mut out, self.n);
        assert(out@ =~= header_bytes(self@));
        out
    }

    fn decode(bytes: &[u8]) -> (r: Result<Self, CryptoError>)
        ensures
            if bytes@.len() < HEADER_LEN {
                r is Err && r->Err_0@ == CryptoErrorModel::Ratchet("消息头长度不足"@)
            } else {
                r is Ok && r->Ok_0@ == parse_header(bytes@)
            },
    {
        if bytes.len() < HEADER_LEN {
            return Err(ratchet_error("消息头长度不足"));
        }
        Ok(
            Header {
                dh: PublicKey::from_bytes(array_at(bytes, 0)),
                prev_chain_len: get_be32(bytes, 32),
                n: get_be32(bytes, 36),
            },
        )
    }
}

/// An encrypted message: its header and its ciphertext with the tag.
#[derive(Clone, Debug, PartialEq, Eq)]
pub struct RatchetMessage {
    /// Where in the ratchet the message stands.
    pub header: Header,
    /// The ciphertext with the tag.
    pub ciphertext: Vec<u8>,
}

/// What a [`RatchetMessage`] says.
#[verifier::ext_equal]
pub struct MessageModel {
    pub header: HeaderModel,
    pub ciphertext: Seq<u8>,
}

impl View for RatchetMessage {
    type V = MessageModel;

    open spec fn view(&self) -> MessageModel {
        MessageModel { header: self.header@, ciphertext: self.ciphertext@ }
    }
}

/// The bytes of a message.
pub open spec fn message_bytes(m: MessageModel) -> Seq<u8> {
    header_bytes(m.header) + m.ciphertext
}

/// The message that bytes stand for, or what is wrong with them.
pub open spec fn parse_message(s: Seq<u8>) -> Result<MessageModel, Seq<char>> {
    if s.len() < HEADER_LEN {
        Err("消息头长度不足"@)
    } else if s.len() < HEADER_LEN + TAG_LEN {
        Err("密文长度不足（连标签都放不下）"@)
    } else {
        Ok(MessageModel { header: parse_header(s), ciphertext: s.skip(HEADER_LEN as int) })
    }
}

/// A message whose ciphertext has room for the tag reads back as it was
/// written.
pub proof fn law_message_round_trip(m: MessageModel)
    requires
        m.header.dh.len() == 32,
        m.ciphertext.len() >= TAG_LEN,
    ensures
        parse_message(message_bytes(m)) == Ok::<MessageModel, Seq<char>>(m),
{
    let s = message_bytes(m);
    law_be32_round_trip(m.header.prev);
    law_be32_round_trip(m.header.n);
    assert(s.subrange(0, 32) =~= m.header.dh);
    assert(s.subrange(32, 36) =~= be32_bytes(m.header.prev));
    assert(s.subrange(36, 40) =~= be32_bytes(m.header.n));
    assert(s.skip(40) =~= m.ciphertext);
}

/// Bytes are a message exactly if they have room for a header and a tag, and then each
/// byte of them belongs to the message.
pub proof fn law_short_message_is_refused(s: Seq<u8>)
    ensures
        parse_message(s) is Ok <==> s.len() >= 56,
        parse_message(s) matches Ok(m) ==> m.header.dh == s.take(32) && m.ciphertext == s.skip(40),
{
    if s.len() >= 56 {
        assert(s.subrange(0, 32) =~= s.take(32));
    }
}

impl RatchetMessage {
    /// The bytes of the message.
    #[must_use]
    pub fn encode(&self) -> (r: Vec<u8>)
        ensures
            r@ == message_bytes(self@),
    {
        let mut out = self.header.encode();
        put_slice(&mut out, self.ciphertext.as_slice());
        out
    }

    /// The message that bytes stand for.
    pub fn decode(bytes: &[u8]) -> (r: Result<Self, CryptoError>)
        ensures
            match parse_message(bytes@) {
                Ok(m) => r is Ok && r->Ok_0@ == m,
                Err(text) => r is Err && r->Err_0@ == CryptoErrorModel::Ratchet(text),
            },
    {
        let header = Header::decode(bytes)?;
        if bytes.len() < HEADER_LEN + TAG_LEN {
            return Err(ratchet_error("密文长度不足（连标签都放不下）"));
        }
        let ciphertext = copy_range(bytes, HEADER_LEN, bytes.len());
        assert(ciphertext@ =~= bytes@.skip(HEADER_LEN as int));
        Ok(RatchetMessage { header, ciphertext })
    }
}

// ---------------------------------------------------------------------------
// The state of a session
// ---------------------------------------------------------------------------

/// One side of a session.
pub struct RatchetState {
    root_key: SecretBytes,
    dh_self: Option<SecretBytes>,
    dh_remote: Option<PublicKey>,
    chain_send: Option<SecretBytes>,
    chain_recv: Option<SecretBytes>,
    n_send: u32,
    n_recv: u32,
    prev_chain_len: u32,
    skipped: SkippedKeys,
}

/// What a [`RatchetState`] holds.
#[verifier::ext_equal]
pub struct RatchetModel {
    /// The root from which chains come.
    pub root: Seq<u8>,
    /// The own ratchet secret; an initiator has none before its first message.
    pub own: Option<Seq<u8>>,
    /// The peer's ratchet key.
    pub remote: Option<Seq<u8>>,
    /// The current link of the sending chain.
    pub send: Option<Seq<u8>>,
    /// The current link of the receiving chain.
    pub recv: Option<Seq<u8>>,
    /// How many messages the sending chain has sent.
    pub n_send: u32,
    /// How far the receiving chain has been followed.
    pub n_recv: u32,
    /// The length of the sending chain before this one.
    pub prev: u32,
    /// The keys of messages that were passed over.
    pub skipped: Map<(Seq<u8>, u32), Seq<u8>>,
}

/// What an optional secret holds.
pub open spec fn secret_view(s: Option<SecretBytes>) -> Option<Seq<u8>> {
    match s {
        Some(k) => Some(k@),
        None => None,
    }
}

/// What an optional key holds.
pub open spec fn key_view(k: Option<PublicKey>) -> Option<Seq<u8>> {
    match k {
        Some(k) => Some(k@),
        None => None,
    }
}

impl View for RatchetState {
    type V = RatchetModel;

    closed spec fn view(&self) -> RatchetModel {
        RatchetModel {
            root: self.root_key@,
            own: secret_view(self.dh_self),
            remote: key_view(self.dh_remote),
            send: secret_view(self.chain_send),
            recv: secret_view(self.chain_recv),
            n_send: self.n_send,
            n_recv: self.n_recv,
            prev: self.prev_chain_len,
            skipped: self.skipped@,
        }
    }
}

/// The initiator's state before its first message.
pub open spec fn initiator_state(sk: Seq<u8>, remote: Seq<u8>) -> RatchetModel {
    RatchetModel {
        root: sk,
        own: None,
        remote: Some(remote),
        send: None,
        recv: None,
        n_send: 0,
        n_recv: 0,
        prev: 0,
        skipped: Map::empty(),
    }
}

/// The responder's state before the first message.
pub open spec fn responder_state(sk: Seq<u8>, own: Seq<u8>) -> RatchetModel {
    RatchetModel {
        root: sk,
        own: Some(own),
        remote: None,
        send: None,
        recv: None,
        n_send: 0,
        n_recv: 0,
        prev: 0,
        skipped: Map::empty(),
    }
}

/// The state with a new sending chain, from the fresh secret `e`.
pub open spec fn send_step(m: RatchetModel, e: Seq<u8>) -> RatchetModel {
    let (root, chain) = root_step(m.root, x25519_shared(e, m.remote->Some_0));
    RatchetModel {
        root,
        own: Some(e),
        send: Some(chain),
        prev: m.n_send,
        n_send: 0,
        ..m
    }
}

/// The state with a new receiving chain, from the peer's new key, and a new
/// sending chain, from the fresh secret `e`.
pub open spec fn recv_step(m: RatchetModel, remote: Seq<u8>, e: Seq<u8>) -> RatchetModel {
    let (root, chain) = root_step(m.root, x25519_shared(m.own->Some_0, remote));
    send_step(
        RatchetModel { root, remote: Some(remote), recv: Some(chain), n_recv: 0, ..m },
        e,
    )
}

/// The keys of messages `from` up to `until` of a chain, kept; `link` is the
/// link of message `from`.
pub open spec fn keep_keys(
    kept: Map<(Seq<u8>, u32), Seq<u8>>,
    remote: Seq<u8>,
    link: Seq<u8>,
    from: u32,
    until: nat,
) -> Map<(Seq<u8>, u32), Seq<u8>>
    decreases until,
{
    if until <= from {
        kept
    } else {
        let n = (until - 1) as nat;
        keep_keys(kept, remote, link, from, n).insert(
            (remote, n as u32),
            message_key(link, (n - from) as nat),
        )
    }
}

/// Why messages cannot be passed over up to `until`.
pub open spec fn skip_error(from: u32, until: u32) -> Option<Seq<char>> {
    if until < from {
        Some(
            "消息序号倒退：当前已读到 "@ + decimal(from as nat) + "，消息声称 "@ + decimal(
                until as nat,
            ),
        )
    } else if until - from > MAX_SKIP {
        Some(
            "单链跳过 "@ + decimal((until - from) as nat) + "/"@ + decimal(MAX_SKIP as nat)
                + " 超过 MAX_SKIP 上限，疑似异常对端"@,
        )
    } else {
        None
    }
}

/// The state with the receiving chain followed up to `until`, the keys on the
/// way kept.
pub open spec fn skip_step(m: RatchetModel, remote: Seq<u8>, until: u32) -> RatchetModel {
    let link = m.recv->Some_0;
    RatchetModel {
        recv: Some(link_after(link, (until - m.n_recv) as nat)),
        n_recv: until,
        skipped: keep_keys(m.skipped, remote, link, m.n_recv, until as nat),
        ..m
    }
}

/// What encrypting returns.
pub open spec fn encrypted(m: RatchetModel, text: Seq<u8>) -> Option<MessageModel> {
    let header = HeaderModel { dh: x25519_public(m.own->Some_0), prev: m.prev, n: m.n_send };
    match sealed(link_key(m.send->Some_0), text, header) {
        Some(ciphertext) => Some(MessageModel { header, ciphertext }),
        None => None,
    }
}

/// The state from which a message is encrypted: one without a sending chain
/// begins one, with the fresh secret `e`.
pub open spec fn sending_state(m: RatchetModel, e: Seq<u8>) -> RatchetModel {
    if m.send is None {
        send_step(m, e)
    } else {
        m
    }
}

/// The state after a message was encrypted.
pub open spec fn after_encrypt(m: RatchetModel, e: Seq<u8>) -> RatchetModel {
    let s = sending_state(m, e);
    RatchetModel {
        send: Some(next_link(s.send->Some_0)),
        n_send: (s.n_send + 1) as u32,
        ..s
    }
}

/// The state can encrypt: it knows a peer's key or has a chain, and the chain
/// has a number left.
pub open spec fn can_encrypt(m: RatchetModel) -> bool {
    if m.send is None {
        m.remote is Some
    } else {
        m.n_send < u32::MAX
    }
}

/// The state has the keys that a message with this header needs, and its number
/// is not the last one.
pub open spec fn can_decrypt(m: RatchetModel, h: HeaderModel) -> bool {
    m.skipped.contains_key((h.dh, h.n)) || if m.remote == Some(h.dh) {
        m.recv is Some && (h.n < u32::MAX || m.n_recv < u32::MAX - MAX_SKIP)
    } else {
        m.own is Some
    }
}

/// The state in which a message's chain is the receiving chain, or why it cannot
/// be reached; `e` is the fresh secret.
pub open spec fn reading_state(m: RatchetModel, h: HeaderModel, e: Seq<u8>) -> Result<
    RatchetModel,
    Seq<char>,
> {
    if m.remote == Some(h.dh) {
        Ok(m)
    } else if m.remote is Some && m.recv is Some {
        match skip_error(m.n_recv, h.prev) {
            Some(text) => Err(text),
            None => Ok(recv_step(skip_step(m, m.remote->Some_0, h.prev), h.dh, e)),
        }
    } else {
        Ok(recv_step(m, h.dh, e))
    }
}

/// The state after a message was decrypted, or refused.
pub open spec fn after_decrypt(m: RatchetModel, h: HeaderModel, e: Seq<u8>) -> RatchetModel {
    if m.skipped.contains_key((h.dh, h.n)) {
        RatchetModel { skipped: m.skipped.remove((h.dh, h.n)), ..m }
    } else {
        match reading_state(m, h, e) {
            Err(_) => m,
            Ok(s) => if skip_error(s.n_recv, h.n) is Some {
                s
            } else {
                let t = skip_step(s, h.dh, h.n);
                RatchetModel {
                    recv: Some(next_link(t.recv->Some_0)),
                    n_recv: (h.n + 1) as u32,
                    ..t
                }
            },
        }
    }
}

/// The key with which a message is decrypted, or why there is none.
pub open spec fn selected_key(m: RatchetModel, h: HeaderModel, e: Seq<u8>) -> Result<
    Seq<u8>,
    Seq<char>,
> {
    if m.skipped.contains_key((h.dh, h.n)) {
        Ok(m.skipped[(h.dh, h.n)])
    } else {
        match reading_state(m, h, e) {
            Err(text) => Err(text),
            Ok(s) => match skip_error(s.n_recv, h.n) {
                Some(text) => Err(text),
                None => Ok(link_key(skip_step(s, h.dh, h.n).recv->Some_0)),
            },
        }
    }
}

/// What decrypting returns.
pub open spec fn decrypted(m: RatchetModel, msg: MessageModel, e: Seq<u8>) -> Result<
    Seq<u8>,
    CryptoErrorModel,
> {
    match selected_key(m, msg.header, e) {
        Err(text) => Err(CryptoErrorModel::Ratchet(text)),
        Ok(key) => opened_result(key, msg.ciphertext, msg.header),
    }
}

/// Two secrets arrive at one shared secret.
pub open spec fn agree(a: Seq<u8>, b: Seq<u8>) -> bool {
    x25519_shared(a, x25519_public(b)) == x25519_shared(b, x25519_public(a))
}

/// The fresh secret `e` agrees with the owner of `remote`.
pub open spec fn agrees_with(e: Seq<u8>, remote: Seq<u8>) -> bool {
    forall|b: Seq<u8>|
        b.len() == 32 && #[trigger] x25519_public(b) == remote ==> agree(e, b)
}

/// `r` and `after` are what encrypting from `before` with the fresh secret `e`
/// gives.
pub open spec fn encrypts(
    before: RatchetModel,
    text: Seq<u8>,
    e: Seq<u8>,
    after: RatchetModel,
    r: Result<RatchetMessage, CryptoError>,
) -> bool {
    &&& after == after_encrypt(before, e)
    &&& match encrypted(sending_state(before, e), text) {
        Some(m) => r is Ok && r->Ok_0@ == m,
        None => r is Err && r->Err_0@ == CryptoErrorModel::Ratchet("AES-GCM 加密失败"@),
    }
    &&& r is Ok == (text.len() <= GCM_MAX_LEN)
    &&& r is Ok ==> r->Ok_0@.ciphertext.len() == text.len() + TAG_LEN
    &&& before.send is None ==> agrees_with(e, before.remote->Some_0)
}

/// `r` and `after` are what decrypting from `before` with the fresh secret `e`
/// gives.
pub open spec fn decrypts(
    before: RatchetModel,
    msg: MessageModel,
    e: Seq<u8>,
    after: RatchetModel,
    r: Result<Vec<u8>, CryptoError>,
) -> bool {
    &&& after == after_decrypt(before, msg.header, e)
    &&& result_model(r) == decrypted(before, msg, e)
    &&& forall|text: Seq<u8>|
        #![trigger sealed(selected_key(before, msg.header, e)->Ok_0, text, msg.header)]
        selected_key(before, msg.header, e) is Ok && sealed(
            selected_key(before, msg.header, e)->Ok_0,
            text,
            msg.header,
        ) == Some(msg.ciphertext) ==> r is Ok && r->Ok_0@ == text
    &&& begins_chain(before, msg.header) ==> agrees_with(before.own->Some_0, msg.header.dh)
        && agrees_with(e, msg.header.dh)
}

/// The message begins a new receiving chain.
pub open spec fn begins_chain(m: RatchetModel, h: HeaderModel) -> bool {
    &&& !m.skipped.contains_key((h.dh, h.n))
    &&& m.remote != Some(h.dh)
    &&& m.remote is Some && m.recv is Some ==> skip_error(m.n_recv, h.prev) is None
}

// ---------------------------------------------------------------------------
// Laws
// ---------------------------------------------------------------------------

/// The receiver follows the chain of the key `dh` that begins with `chain`: the
/// messages in `seen` have been read, and of the others below its place it keeps
/// the keys.
pub open spec fn follows(r: RatchetModel, dh: Seq<u8>, chain: Seq<u8>, seen: Set<u32>) -> bool {
    &&& r.remote == Some(dh)
    &&& r.recv == Some(link_after(chain, r.n_recv as nat))
    &&& forall|n: u32| #[trigger]
        r.skipped.contains_key((dh, n)) <==> n < r.n_recv && !seen.contains(n)
    &&& forall|n: u32| #[trigger]
        r.skipped.contains_key((dh, n)) ==> r.skipped[(dh, n)] == message_key(chain, n as nat)
    &&& forall|n: u32| #[trigger] seen.contains(n) ==> n < r.n_recv
}

/// The sender's chain begins with `chain`.
pub open spec fn sends_on(s: RatchetModel, chain: Seq<u8>) -> bool {
    &&& s.own is Some
    &&& s.send == Some(link_after(chain, s.n_send as nat))
}

/// The receiver can read the sender's chain, and has read nothing of it yet.
pub open spec fn awaits(r: RatchetModel, s: RatchetModel, chain: Seq<u8>) -> bool {
    &&& sends_on(s, chain)
    &&& r.own is Some
    &&& s.remote == Some(x25519_public(r.own->Some_0))
    &&& unknown_to(r, x25519_public(s.own->Some_0))
    &&& root_step(r.root, x25519_shared(r.own->Some_0, x25519_public(s.own->Some_0))) == (
        s.root,
        chain,
    )
}

/// The state has not met the ratchet key `dh`.
pub open spec fn unknown_to(m: RatchetModel, dh: Seq<u8>) -> bool {
    &&& m.remote != Some(dh)
    &&& forall|n: u32| !#[trigger] m.skipped.contains_key((dh, n))
}

proof fn lemma_keep_keys(
    kept: Map<(Seq<u8>, u32), Seq<u8>>,
    remote: Seq<u8>,
    link: Seq<u8>,
    from: u32,
    until: nat,
)
    requires
        from <= until <= u32::MAX,
    ensures
        forall|d: Seq<u8>, n: u32| #[trigger]
            keep_keys(kept, remote, link, from, until).contains_key((d, n)) <==> (
            kept.contains_key((d, n)) || (d == remote && from <= n < until)),
        forall|d: Seq<u8>, n: u32| #[trigger]
            keep_keys(kept, remote, link, from, until).contains_key((d, n)) ==> keep_keys(
                kept,
                remote,
                link,
                from,
                until,
            )[(d, n)] == if d == remote && from <= n < until {
                message_key(link, (n - from) as nat)
            } else {
                kept[(d, n)]
            },
    decreases until,
{
    if until > from {
        let last = (until - 1) as nat;
        lemma_keep_keys(kept, remote, link, from, last);
        let before = keep_keys(kept, remote, link, from, last);
        let after = keep_keys(kept, remote, link, from, until);
        assert(after == before.insert(
            (remote, last as u32),
            message_key(link, (last - from) as nat),
        ));
        assert forall|d: Seq<u8>, n: u32| #[trigger]
            after.contains_key((d, n)) <==> (kept.contains_key((d, n)) || (d == remote && from <= n
                < until)) by {
            assert(before.contains_key((d, n)) <==> (kept.contains_key((d, n)) || (d == remote
                && from <= n < last)));
        }
        assert forall|d: Seq<u8>, n: u32| #[trigger] after.contains_key((d, n)) implies after[(
            d,
            n,
        )] == if d == remote && from <= n < until {
            message_key(link, (n - from) as nat)
        } else {
            kept[(d, n)]
        } by {
            if d == remote && n == last {
                assert((d, n) == (remote, last as u32));
            } else {
                assert(before.contains_key((d, n)));
            }
        }
    }
}

/// How keys are derived: a root and the start of a chain from the root before it and
/// a new shared secret; the key of a message and the next link from a link, each in
/// its own way; the cipher key and the nonce from the key of the message.
pub proof fn law_how_keys_are_derived(root: Seq<u8>, shared: Seq<u8>, link: Seq<u8>, key: Seq<u8>)
    ensures
        ({
            let okm = hkdf_sha256(Some(root), shared, encode_utf8("im-e2ee-ratchet-root-v1"@), 64);
            &&& root_step(root, shared).0 == okm.subrange(0, 32)
            &&& root_step(root, shared).1 == okm.subrange(32, 64)
        }),
        message_key(link, 0) == hmac_sha256(link, seq![1u8]),
        forall|n: nat| #[trigger]
            message_key(link, n + 1) == message_key(hmac_sha256(link, seq![2u8]), n),
        ({
            let okm = hkdf_sha256(None, key, encode_utf8("im-e2ee-message-key-v1"@), 44);
            &&& expanded(key).0 == okm.subrange(0, 32)
            &&& expanded(key).1 == okm.subrange(32, 44)
        }),
{
    assert forall|n: nat| #[trigger]
        message_key(link, n + 1) == message_key(hmac_sha256(link, seq![2u8]), n) by {
        lemma_link_after_add(link, 1, n);
        assert(link_after(link, 1) == next_link(link_after(link, 0)));
        assert(1 + n == n + 1);
    }
}

/// A message is bound to its header, all of it: the sender's ratchet key, the length
/// of the chain before and the number are authenticated with the text.
pub proof fn law_message_is_bound_to_its_header(key: Seq<u8>, text: Seq<u8>, h: HeaderModel)
    ensures
        sealed(key, text, h) == aes_gcm_seal(
            expanded(key).0,
            expanded(key).1,
            h.dh + be32_bytes(h.prev) + be32_bytes(h.n),
            text,
        ),
        opened(key, text, h) == aes_gcm_open(
            expanded(key).0,
            expanded(key).1,
            h.dh + be32_bytes(h.prev) + be32_bytes(h.n),
            text,
        ),
{
}

/// Two headers with ratchet keys of one length have the same bytes only if they say
/// the same.
pub proof fn law_header_bytes_tell_the_header(a: HeaderModel, b: HeaderModel)
    requires
        a.dh.len() == b.dh.len(),
        header_bytes(a) == header_bytes(b),
    ensures
        a == b,
{
    let s = header_bytes(a);
    let n = a.dh.len() as int;
    law_be32_round_trip(a.prev);
    law_be32_round_trip(b.prev);
    law_be32_round_trip(a.n);
    law_be32_round_trip(b.n);
    assert(s.subrange(0, n) =~= a.dh);
    assert(s.subrange(0, n) =~= b.dh);
    assert(s.subrange(n, n + 4) =~= be32_bytes(a.prev));
    assert(s.subrange(n, n + 4) =~= be32_bytes(b.prev));
    assert(s.subrange(n + 4, n + 8) =~= be32_bytes(a.n));
    assert(s.subrange(n + 4, n + 8) =~= be32_bytes(b.n));
}

/// Whoever does not hold the key that a message was encrypted under, or changed it,
/// is refused: what does not authenticate is an error, and nothing is read.
pub proof fn law_forgery_is_refused(m: RatchetModel, msg: MessageModel, e: Seq<u8>)
    requires
        selected_key(m, msg.header, e) matches Ok(key) && opened(key, msg.ciphertext, msg.header)
            is None,
    ensures
        decrypted(m, msg, e) is Err,
{
}

/// The message that a sender encrypts next carries its ratchet key and its
/// place in the chain, is encrypted under the key of that place, and leaves the
/// sender on the chain.
pub proof fn law_sent_message(s: RatchetModel, chain: Seq<u8>, text: Seq<u8>, e: Seq<u8>)
    requires
        sends_on(s, chain),
        s.n_send < u32::MAX,
    ensures
        sends_on(after_encrypt(s, e), chain),
        after_encrypt(s, e).n_send == s.n_send + 1,
        encrypted(sending_state(s, e), text) matches Some(m) ==> {
            &&& m.header == HeaderModel {
                dh: x25519_public(s.own->Some_0),
                prev: s.prev,
                n: s.n_send,
            }
            &&& sealed(message_key(chain, s.n_send as nat), text, m.header) == Some(m.ciphertext)
        },
{
    let t = after_encrypt(s, e);
    assert((t.n_send as nat - 1) as nat == s.n_send as nat);
}

/// A receiver reads the messages of a chain in any order: for each that it has
/// not read and that is not too far ahead it selects the key under which the
/// message was encrypted, and goes on following the chain.
pub proof fn law_messages_in_any_order(
    r: RatchetModel,
    h: HeaderModel,
    chain: Seq<u8>,
    seen: Set<u32>,
    e: Seq<u8>,
)
    requires
        follows(r, h.dh, chain, seen),
        !seen.contains(h.n),
        h.n < u32::MAX,
        h.n <= r.n_recv + MAX_SKIP,
    ensures
        selected_key(r, h, e) == Ok::<Seq<u8>, Seq<char>>(message_key(chain, h.n as nat)),
        follows(after_decrypt(r, h, e), h.dh, chain, seen.insert(h.n)),
{
    let after = after_decrypt(r, h, e);
    if h.n >= r.n_recv {
        let link = r.recv->Some_0;
        let t = skip_step(r, h.dh, h.n);
        assert(!r.skipped.contains_key((h.dh, h.n)));
        lemma_link_after_add(chain, r.n_recv as nat, (h.n - r.n_recv) as nat);
        assert(t.recv->Some_0 == link_after(chain, h.n as nat));
        assert((after.n_recv as nat - 1) as nat == h.n as nat);
        lemma_keep_keys(r.skipped, h.dh, link, r.n_recv, h.n as nat);
        assert forall|n: u32| #[trigger]
            after.skipped.contains_key((h.dh, n)) implies after.skipped[(h.dh, n)] == message_key(
            chain,
            n as nat,
        ) by {
            if n >= r.n_recv {
                lemma_link_after_add(chain, r.n_recv as nat, (n - r.n_recv) as nat);
            } else {
                assert(r.skipped.contains_key((h.dh, n)));
            }
        }
        assert forall|n: u32| #[trigger]
            after.skipped.contains_key((h.dh, n)) <==> n < after.n_recv && !seen.insert(
                h.n,
            ).contains(n) by {
            assert(r.skipped.contains_key((h.dh, n)) <==> n < r.n_recv && !seen.contains(n));
        }
    } else {
        assert(r.skipped.contains_key((h.dh, h.n)));
        assert forall|n: u32| #[trigger]
            after.skipped.contains_key((h.dh, n)) <==> n < after.n_recv && !seen.insert(
                h.n,
            ).contains(n) by {
            assert(r.skipped.contains_key((h.dh, n)) <==> n < r.n_recv && !seen.contains(n));
        }
        assert forall|n: u32| #[trigger]
            after.skipped.contains_key((h.dh, n)) implies after.skipped[(h.dh, n)] == message_key(
            chain,
            n as nat,
        ) by {
            assert(r.skipped.contains_key((h.dh, n)));
        }
    }
}

/// A message that was read is refused when it comes again.
pub proof fn law_replay_is_refused(
    r: RatchetModel,
    h: HeaderModel,
    chain: Seq<u8>,
    seen: Set<u32>,
    e: Seq<u8>,
)
    requires
        follows(r, h.dh, chain, seen),
        seen.contains(h.n),
    ensures
        selected_key(r, h, e) is Err,
        after_decrypt(r, h, e) == r,
{
    assert(!r.skipped.contains_key((h.dh, h.n)));
}

/// After an agreement the responder awaits what the initiator sends first.
pub proof fn law_session_begins(sk: Seq<u8>, b: Seq<u8>, e: Seq<u8>)
    requires
        agree(e, b),
    ensures
        ({
            let alice = sending_state(initiator_state(sk, x25519_public(b)), e);
            awaits(responder_state(sk, b), alice, alice.send->Some_0)
        }),
{
}

/// The first message of an awaited chain that arrives is decrypted with the key
/// under which it was encrypted, and the receiver follows the chain from there.
pub proof fn law_awaited_message(
    r: RatchetModel,
    s: RatchetModel,
    chain: Seq<u8>,
    h: HeaderModel,
    e: Seq<u8>,
)
    requires
        awaits(r, s, chain),
        h.dh == x25519_public(s.own->Some_0),
        h.n <= MAX_SKIP,
        r.remote is Some && r.recv is Some ==> skip_error(r.n_recv, h.prev) is None,
    ensures
        selected_key(r, h, e) == Ok::<Seq<u8>, Seq<char>>(message_key(chain, h.n as nat)),
        follows(after_decrypt(r, h, e), h.dh, chain, set![h.n]),
{
    assert(!r.skipped.contains_key((h.dh, h.n)));
    if r.remote is Some && r.recv is Some {
        lemma_keep_keys(r.skipped, r.remote->Some_0, r.recv->Some_0, r.n_recv, h.prev as nat);
    }
    let t = reading_state(r, h, e)->Ok_0;
    assert(unknown_skipped(t, h.dh));
    assert(t.recv == Some(chain));
    assert(t.n_recv == 0);
    lemma_keep_keys(t.skipped, h.dh, chain, 0, h.n as nat);
    let after = after_decrypt(r, h, e);
    assert((after.n_recv as nat - 1) as nat == h.n as nat);
}

spec fn unknown_skipped(m: RatchetModel, dh: Seq<u8>) -> bool {
    forall|n: u32| !#[trigger] m.skipped.contains_key((dh, n))
}

/// The sender awaits what the receiver of an awaited chain sends next: each
/// round trip begins the next one.
pub proof fn law_reply_is_awaited(
    r: RatchetModel,
    s: RatchetModel,
    chain: Seq<u8>,
    h: HeaderModel,
    e: Seq<u8>,
)
    requires
        awaits(r, s, chain),
        h.dh == x25519_public(s.own->Some_0),
        h.n <= MAX_SKIP,
        r.remote is Some && r.recv is Some ==> skip_error(r.n_recv, h.prev) is None,
        agree(s.own->Some_0, e),
        unknown_to(s, x25519_public(e)),
    ensures
        ({
            let after = after_decrypt(r, h, e);
            after.n_send == 0 && awaits(s, after, after.send->Some_0)
        }),
{
    assert(!r.skipped.contains_key((h.dh, h.n)));
}

/// Neither side's sending takes an awaited chain away.
pub proof fn law_sending_keeps_awaiting(
    r: RatchetModel,
    s: RatchetModel,
    chain: Seq<u8>,
    e: Seq<u8>,
)
    requires
        awaits(r, s, chain),
    ensures
        s.n_send < u32::MAX ==> awaits(r, after_encrypt(s, e), chain),
        r.send is Some ==> awaits(after_encrypt(r, e), s, chain),
{
    if s.n_send < u32::MAX {
        let t = after_encrypt(s, e);
        assert((t.n_send as nat - 1) as nat == s.n_send as nat);
    }
}

/// Messages of the chains that are already followed, or whose keys are kept, do
/// not take an awaited chain away.
pub proof fn law_reading_keeps_awaiting(
    r: RatchetModel,
    s: RatchetModel,
    chain: Seq<u8>,
    h: HeaderModel,
    e: Seq<u8>,
)
    requires
        awaits(r, s, chain),
    ensures
        r.skipped.contains_key((h.dh, h.n)) || r.remote == Some(h.dh) ==> awaits(
            after_decrypt(r, h, e),
            s,
            chain,
        ),
        s.skipped.contains_key((h.dh, h.n)) || s.remote == Some(h.dh) ==> awaits(
            r,
            after_decrypt(s, h, e),
            chain,
        ),
{
    if !r.skipped.contains_key((h.dh, h.n)) && r.remote == Some(h.dh) && skip_error(
        r.n_recv,
        h.n,
    ) is None {
        lemma_keep_keys(r.skipped, h.dh, r.recv->Some_0, r.n_recv, h.n as nat);
    }
    let dh = x25519_public(s.own->Some_0);
    assert forall|n: u32|
        r.skipped.contains_key((h.dh, h.n)) || r.remote == Some(h.dh) implies !#[trigger]
    after_decrypt(r, h, e).skipped.contains_key((dh, n)) by {
        assert(!r.skipped.contains_key((dh, n)));
    }
}

/// One turn of a conversation: one side encrypts a text, and the other decrypts
/// the message.
pub struct Turn {
    /// The side that speaks, before and after.
    pub speaker: RatchetModel,
    pub said: RatchetModel,
    /// The side that listens, before and after.
    pub listener: RatchetModel,
    pub heard: RatchetModel,
    /// What is said.
    pub text: Seq<u8>,
    /// The fresh secrets of the two.
    pub fresh: Seq<u8>,
    pub renewed: Seq<u8>,
    /// The message.
    pub message: RatchetMessage,
    /// What the listener reads.
    pub read: Result<Vec<u8>, CryptoError>,
}

/// The turn went as encrypting and decrypting go, and the listener's fresh secret
/// has a ratchet key that the speaker has not met.
pub open spec fn takes_turn(t: Turn) -> bool {
    &&& t.fresh.len() == 32
    &&& t.renewed.len() == 32
    &&& encrypts(t.speaker, t.text, t.fresh, t.said, Ok(t.message))
    &&& decrypts(t.listener, t.message@, t.renewed, t.heard, t.read)
    &&& unknown_to(t.said, x25519_public(t.renewed))
}

/// Two sides that agreed on `sk` take turns, the initiator first; `b` is the
/// responder's pre-key.
pub open spec fn alternates(sk: Seq<u8>, b: Seq<u8>, turns: Seq<Turn>) -> bool {
    &&& b.len() == 32
    &&& forall|k: int| 0 <= k < turns.len() ==> takes_turn(#[trigger] turns[k])
    &&& turns.len() > 0 ==> {
        &&& turns[0].speaker == initiator_state(sk, x25519_public(b))
        &&& turns[0].listener == responder_state(sk, b)
    }
    &&& forall|k: int|
        0 < k < turns.len() ==> {
            &&& (#[trigger] turns[k]).speaker == turns[k - 1].heard
            &&& turns[k].listener == turns[k - 1].said
        }
}

/// What holds before a turn.
spec fn turn_ready(t: Turn) -> bool {
    let s = sending_state(t.speaker, t.fresh);
    &&& s.send is Some
    &&& awaits(t.listener, s, s.send->Some_0)
    &&& s.n_send == 0
    &&& s.own->Some_0.len() == 32
    &&& t.listener.own->Some_0.len() == 32
    &&& t.listener.recv is Some ==> t.listener.n_recv == s.prev
    &&& s.recv is Some ==> s.n_recv == t.listener.n_send
}

proof fn lemma_turn(t: Turn)
    requires
        takes_turn(t),
        turn_ready(t),
    ensures
        t.read is Ok,
        t.read->Ok_0@ == t.text,
        t.heard.send is Some,
        awaits(t.said, t.heard, t.heard.send->Some_0),
        t.heard.n_send == 0,
        t.heard.own->Some_0.len() == 32,
        t.said.own->Some_0.len() == 32,
        t.said.recv is Some ==> t.said.n_recv == t.heard.prev,
        t.heard.recv is Some ==> t.heard.n_recv == t.said.n_send,
{
    let s = sending_state(t.speaker, t.fresh);
    let r = t.listener;
    let chain = s.send->Some_0;
    let m = t.message@;
    let h = m.header;
    assert(link_after(chain, 0) == chain);
    assert(t.said == after_encrypt(s, t.fresh));
    law_sent_message(s, chain, t.text, t.fresh);
    assert(encrypted(s, t.text) == Some(m));
    assert(h.n == 0 && h.prev == s.prev && h.dh == x25519_public(s.own->Some_0));
    law_awaited_message(r, s, chain, h, t.renewed);
    assert(!r.skipped.contains_key((h.dh, h.n)));
    assert(begins_chain(r, h));
    assert(agree(t.renewed, s.own->Some_0));
    assert(unknown_to(s, x25519_public(t.renewed))) by {
        assert(t.said.remote == s.remote && t.said.skipped == s.skipped);
    }
    law_reply_is_awaited(r, s, chain, h, t.renewed);
    law_sending_keeps_awaiting(s, t.heard, t.heard.send->Some_0, t.fresh);
    assert(sealed(selected_key(r, h, t.renewed)->Ok_0, t.text, h) == Some(m.ciphertext));
}

proof fn lemma_turns(sk: Seq<u8>, b: Seq<u8>, turns: Seq<Turn>, k: int)
    requires
        alternates(sk, b, turns),
        0 <= k < turns.len(),
    ensures
        turn_ready(turns[k]),
    decreases k,
{
    let t = turns[k];
    assert(takes_turn(t));
    if k == 0 {
        assert(agree(t.fresh, b));
        law_session_begins(sk, b, t.fresh);
    } else {
        lemma_turns(sk, b, turns, k - 1);
        assert(takes_turn(turns[k - 1]));
        lemma_turn(turns[k - 1]);
    }
}

/// A conversation in which two sides take turns reads back, however long it is:
/// every listener reads what the speaker said. What is asked of chance is that no
/// ratchet key comes twice.
pub proof fn law_conversation_reads_back(sk: Seq<u8>, b: Seq<u8>, turns: Seq<Turn>)
    requires
        alternates(sk, b, turns),
    ensures
        forall|k: int|
            0 <= k < turns.len() ==> (#[trigger] turns[k]).read is Ok && turns[k].read->Ok_0@
                == turns[k].text,
{
    assert forall|k: int| 0 <= k < turns.len() implies (#[trigger] turns[k]).read is Ok
        && turns[k].read->Ok_0@ == turns[k].text by {
        lemma_turns(sk, b, turns, k);
        assert(takes_turn(turns[k]));
        lemma_turn(turns[k]);
    }
}

/// The peer's new key does not cost the unread messages of the old chain: of every
/// message below the length that the peer gives for it, and that was not read, the
/// key is kept, and of no other.
pub proof fn law_old_chain_is_kept(
    r: RatchetModel,
    dh: Seq<u8>,
    chain: Seq<u8>,
    seen: Set<u32>,
    h: HeaderModel,
    e: Seq<u8>,
)
    requires
        follows(r, dh, chain, seen),
        h.dh != dh,
        !r.skipped.contains_key((h.dh, h.n)),
        r.n_recv <= h.prev <= r.n_recv + 100,
    ensures
        ({
            let after = after_decrypt(r, h, e);
            &&& forall|n: u32| #[trigger]
                after.skipped.contains_key((dh, n)) <==> n < h.prev && !seen.contains(n)
            &&& forall|n: u32|
                n < h.prev && !seen.contains(n) ==> #[trigger] after.skipped[(dh, n)]
                    == message_key(chain, n as nat)
        }),
{
    let link = r.recv->Some_0;
    lemma_keep_keys(r.skipped, dh, link, r.n_recv, h.prev as nat);
    let t = reading_state(r, h, e)->Ok_0;
    let after = after_decrypt(r, h, e);
    assert(t.n_recv == 0);
    if skip_error(0, h.n) is None {
        lemma_keep_keys(t.skipped, h.dh, t.recv->Some_0, 0, h.n as nat);
    }
    assert forall|n: u32| #[trigger]
        after.skipped.contains_key((dh, n)) <==> n < h.prev && !seen.contains(n) by {
        assert(after.skipped.contains_key((dh, n)) <==> t.skipped.contains_key((dh, n)));
        assert(r.skipped.contains_key((dh, n)) <==> n < r.n_recv && !seen.contains(n));
    }
    assert forall|n: u32| n < h.prev && !seen.contains(n) implies #[trigger] after.skipped[(dh, n)]
        == message_key(chain, n as nat) by {
        assert(after.skipped.contains_key((dh, n)));
        assert(t.skipped.contains_key((dh, n)));
        if n >= r.n_recv {
            lemma_link_after_add(chain, r.n_recv as nat, (n - r.n_recv) as nat);
        } else {
            assert(r.skipped.contains_key((dh, n)));
        }
    }
}

/// A message that comes later than the peer's new key reads back: whichever unread
/// message of the old chain it is, it decrypts to its text.
pub proof fn law_late_message_reads_back(
    r: RatchetModel,
    dh: Seq<u8>,
    chain: Seq<u8>,
    seen: Set<u32>,
    renewing: MessageModel,
    e: Seq<u8>,
    late: MessageModel,
    text: Seq<u8>,
    other: Seq<u8>,
    end: RatchetModel,
    read: Result<Vec<u8>, CryptoError>,
)
    requires
        follows(r, dh, chain, seen),
        renewing.header.dh != dh,
        !r.skipped.contains_key((renewing.header.dh, renewing.header.n)),
        r.n_recv <= renewing.header.prev <= r.n_recv + 100,
        late.header.dh == dh,
        late.header.n < renewing.header.prev,
        !seen.contains(late.header.n),
        sealed(message_key(chain, late.header.n as nat), text, late.header) == Some(
            late.ciphertext,
        ),
        decrypts(after_decrypt(r, renewing.header, e), late, other, end, read),
    ensures
        read is Ok,
        read->Ok_0@ == text,
{
    law_old_chain_is_kept(r, dh, chain, seen, renewing.header, e);
    let m = after_decrypt(r, renewing.header, e);
    assert(m.skipped.contains_key((dh, late.header.n)));
    assert(sealed(selected_key(m, late.header, other)->Ok_0, text, late.header) == Some(
        late.ciphertext,
    ));
}

/// A message too far ahead is refused, and so is a new key whose old chain is too
/// long or shorter than what was read of it; the latter changes nothing.
pub proof fn law_far_ahead_is_refused(m: RatchetModel, h: HeaderModel, e: Seq<u8>)
    requires
        !m.skipped.contains_key((h.dh, h.n)),
    ensures
        m.remote == Some(h.dh) && (h.n > m.n_recv + 100 || h.n < m.n_recv) ==> selected_key(
            m,
            h,
            e,
        ) is Err && after_decrypt(m, h, e) == m,
        m.remote is Some && m.recv is Some && m.remote != Some(h.dh) && (h.prev > m.n_recv + 100
            || h.prev < m.n_recv) ==> selected_key(m, h, e) is Err && after_decrypt(m, h, e) == m,
        m.remote != Some(h.dh) && h.n > 100 ==> selected_key(m, h, e) is Err,
{
}

/// A chain that begins counts its messages from zero and tells how many the one
/// before it had.
pub proof fn law_new_chain_tells_the_length_of_the_old(
    m: RatchetModel,
    h: HeaderModel,
    e: Seq<u8>,
    text: Seq<u8>,
    unused: Seq<u8>,
)
    requires
        begins_chain(m, h),
    ensures
        ({
            let t = after_decrypt(m, h, e);
            &&& t.n_send == 0
            &&& t.own == Some(e)
            &&& encrypted(sending_state(t, unused), text) matches Some(msg) ==> msg.header.prev
                == m.n_send && msg.header.n == 0 && msg.header.dh == x25519_public(e)
        }),
{
}

// ---------------------------------------------------------------------------
// Conversations in which messages come late, out of order, or not at all
// ---------------------------------------------------------------------------

/// A message that was sent and not read yet.
pub struct Letter {
    /// It is on its way to the first side, not to the second.
    pub to_first: bool,
    /// The message.
    pub message: MessageModel,
    /// What it says.
    pub text: Seq<u8>,
}

/// The two sides of a session, and what is on its way.
pub struct Moment {
    /// The side that began.
    pub first: RatchetModel,
    /// The other one.
    pub second: RatchetModel,
    /// What was sent and not read.
    pub letters: Set<Letter>,
}

/// Something that one side does.
pub enum Deed {
    /// It encrypts a text.
    Send { letter: Letter, fresh: Seq<u8>, sent: RatchetMessage },
    /// It decrypts a message that is on its way.
    Read { letter: Letter, fresh: Seq<u8>, read: Result<Vec<u8>, CryptoError> },
}

/// The side to which a letter goes.
pub open spec fn reader(m: Moment, to_first: bool) -> RatchetModel {
    if to_first {
        m.first
    } else {
        m.second
    }
}

/// What is read in time: the receiver does not pass over more than the limit, on the
/// chain of the letter or, where the letter begins one, on the chain before it. The
/// fresh ratchet key is new to the peer.
pub open spec fn in_time(r: RatchetModel, s: RatchetModel, h: HeaderModel, fresh: Seq<u8>) -> bool {
    &&& fresh.len() == 32
    &&& r.remote == Some(h.dh) ==> h.n <= r.n_recv + 100
    &&& r.remote != Some(h.dh) && !r.skipped.contains_key((h.dh, h.n)) ==> {
        &&& h.n <= 100
        &&& r.recv is Some ==> h.prev <= r.n_recv + 100
        &&& unknown_to(s, x25519_public(fresh))
    }
}

/// One side does something, and encrypting and decrypting do what they do.
pub open spec fn happens(m: Moment, deed: Deed, t: Moment) -> bool {
    match deed {
        Deed::Send { letter, fresh, sent } => {
            let s = reader(m, !letter.to_first);
            &&& s.send is Some
            &&& s.n_send < u32::MAX
            &&& sent@ == letter.message
            &&& encrypts(s, letter.text, fresh, reader(t, !letter.to_first), Ok(sent))
            &&& reader(t, letter.to_first) == reader(m, letter.to_first)
            &&& t.letters == m.letters.insert(letter)
        },
        Deed::Read { letter, fresh, read } => {
            let r = reader(m, letter.to_first);
            &&& m.letters.contains(letter)
            &&& in_time(r, reader(m, !letter.to_first), letter.message.header, fresh)
            &&& decrypts(r, letter.message, fresh, reader(t, letter.to_first), read)
            &&& reader(t, !letter.to_first) == reader(m, !letter.to_first)
            &&& t.letters == m.letters.remove(letter)
        },
    }
}

/// Of the chain that it follows, a side keeps no key ahead of its place.
spec fn none_ahead(r: RatchetModel) -> bool {
    r.recv is Some ==> forall|n: u32|
        n >= r.n_recv ==> !#[trigger] r.skipped.contains_key((r.remote->Some_0, n))
}

/// The first side has begun a chain of which the second has read nothing yet, and
/// follows the chain of the second.
spec fn in_step(s: RatchetModel, r: RatchetModel, cs: Seq<u8>, cr: Seq<u8>) -> bool {
    &&& awaits(r, s, cs)
    &&& s.own->Some_0.len() == 32
    &&& r.own->Some_0.len() == 32
    &&& r.send is Some ==> {
        &&& r.send == Some(link_after(cr, r.n_send as nat))
        &&& s.recv == Some(link_after(cr, s.n_recv as nat))
        &&& s.n_recv <= r.n_send
    }
    &&& r.send is None ==> s.recv is None
    &&& r.recv is Some ==> r.remote is Some && r.n_recv <= s.prev
    &&& none_ahead(s)
    &&& none_ahead(r)
}

/// The receiver has, or will have, the key of a letter.
spec fn reaches(r: RatchetModel, s: RatchetModel, l: Letter, chain: Seq<u8>) -> bool {
    let h = l.message.header;
    &&& sealed(message_key(chain, h.n as nat), l.text, h) == Some(l.message.ciphertext)
    &&& h.dh == x25519_public(s.own->Some_0) ==> h.n < s.n_send
    &&& {
        ||| kept_for(r, h, chain)
        ||| ahead_on(r, s, h, chain)
        ||| awaited_on(r, s, h, chain)
    }
}

spec fn kept_for(r: RatchetModel, h: HeaderModel, chain: Seq<u8>) -> bool {
    r.skipped.contains_key((h.dh, h.n)) && r.skipped[(h.dh, h.n)] == message_key(chain, h.n as nat)
}

spec fn ahead_on(r: RatchetModel, s: RatchetModel, h: HeaderModel, chain: Seq<u8>) -> bool {
    &&& r.remote == Some(h.dh)
    &&& r.recv == Some(link_after(chain, r.n_recv as nat))
    &&& r.n_recv <= h.n
    &&& h.dh != x25519_public(s.own->Some_0) ==> h.n < s.prev
}

spec fn awaited_on(r: RatchetModel, s: RatchetModel, h: HeaderModel, chain: Seq<u8>) -> bool {
    &&& awaits(r, s, chain)
    &&& h.dh == x25519_public(s.own->Some_0)
    &&& h.prev == s.prev
}

/// The receiver follows its chain to message `n` and reads it.
proof fn lemma_step_along(r: RatchetModel, h: HeaderModel, e: Seq<u8>, chain: Seq<u8>)
    requires
        r.remote == Some(h.dh),
        r.recv == Some(link_after(chain, r.n_recv as nat)),
        r.n_recv <= h.n <= r.n_recv + 100,
        h.n < u32::MAX,
        none_ahead(r),
    ensures
        ({
            let t = after_decrypt(r, h, e);
            &&& selected_key(r, h, e) == Ok::<Seq<u8>, Seq<char>>(message_key(chain, h.n as nat))
            &&& t.remote == r.remote && t.own == r.own && t.send == r.send && t.n_send == r.n_send
            &&& t.prev == r.prev && t.root == r.root
            &&& t.n_recv == h.n + 1
            &&& t.recv == Some(link_after(chain, t.n_recv as nat))
            &&& none_ahead(t)
            &&& forall|d: Seq<u8>, n: u32| #[trigger]
                t.skipped.contains_key((d, n)) <==> r.skipped.contains_key((d, n)) || (d == h.dh
                    && r.n_recv <= n < h.n)
            &&& forall|d: Seq<u8>, n: u32|
                r.skipped.contains_key((d, n)) ==> #[trigger] t.skipped[(d, n)] == r.skipped[(d, n)]
            &&& forall|n: u32|
                r.n_recv <= n < h.n ==> #[trigger] t.skipped[(h.dh, n)] == message_key(
                    chain,
                    n as nat,
                )
        }),
{
    let t = after_decrypt(r, h, e);
    let link = r.recv->Some_0;
    assert(!r.skipped.contains_key((h.dh, h.n)));
    lemma_link_after_add(chain, r.n_recv as nat, (h.n - r.n_recv) as nat);
    lemma_keep_keys(r.skipped, h.dh, link, r.n_recv, h.n as nat);
    assert((t.n_recv as nat - 1) as nat == h.n as nat);
    assert forall|d: Seq<u8>, n: u32| r.skipped.contains_key((d, n)) implies #[trigger] t.skipped[(
        d,
        n,
    )] == r.skipped[(d, n)] by {
        assert(t.skipped.contains_key((d, n)));
    }
    assert forall|n: u32| r.n_recv <= n < h.n implies #[trigger] t.skipped[(h.dh, n)]
        == message_key(chain, n as nat) by {
        assert(t.skipped.contains_key((h.dh, n)));
        lemma_link_after_add(chain, r.n_recv as nat, (n - r.n_recv) as nat);
    }
}

/// The receiver begins to follow the chain that it awaited.
proof fn lemma_step_over(
    r: RatchetModel,
    s: RatchetModel,
    h: HeaderModel,
    e: Seq<u8>,
    chain: Seq<u8>,
)
    requires
        awaits(r, s, chain),
        h.dh == x25519_public(s.own->Some_0),
        h.n <= 100,
        r.recv is Some ==> r.remote is Some && r.n_recv <= h.prev <= r.n_recv + 100,
        none_ahead(r),
    ensures
        ({
            let t = after_decrypt(r, h, e);
            &&& selected_key(r, h, e) == Ok::<Seq<u8>, Seq<char>>(message_key(chain, h.n as nat))
            &&& t.remote == Some(h.dh) && t.own == Some(e) && t.n_send == 0 && t.prev == r.n_send
            &&& t.send is Some
            &&& t.n_recv == h.n + 1
            &&& t.recv == Some(link_after(chain, t.n_recv as nat))
            &&& none_ahead(t)
            &&& forall|d: Seq<u8>, n: u32| #[trigger]
                t.skipped.contains_key((d, n)) <==> r.skipped.contains_key((d, n)) || (d == h.dh
                    && n < h.n) || (r.recv is Some && d == r.remote->Some_0 && r.n_recv <= n
                    < h.prev)
            &&& forall|d: Seq<u8>, n: u32|
                r.skipped.contains_key((d, n)) ==> #[trigger] t.skipped[(d, n)] == r.skipped[(d, n)]
            &&& forall|n: u32|
                n < h.n ==> #[trigger] t.skipped[(h.dh, n)] == message_key(chain, n as nat)
            &&& r.recv is Some ==> forall|n: u32|
                r.n_recv <= n < h.prev ==> #[trigger] t.skipped[(r.remote->Some_0, n)]
                    == message_key(r.recv->Some_0, (n - r.n_recv) as nat)
        }),
{
    let t = after_decrypt(r, h, e);
    assert(!r.skipped.contains_key((h.dh, h.n)));
    if r.recv is Some {
        lemma_keep_keys(r.skipped, r.remote->Some_0, r.recv->Some_0, r.n_recv, h.prev as nat);
    }
    let u = reading_state(r, h, e)->Ok_0;
    assert(u.recv == Some(chain) && u.n_recv == 0);
    lemma_keep_keys(u.skipped, h.dh, chain, 0, h.n as nat);
    assert((t.n_recv as nat - 1) as nat == h.n as nat);
    assert forall|d: Seq<u8>, n: u32| #[trigger]
        t.skipped.contains_key((d, n)) <==> r.skipped.contains_key((d, n)) || (d == h.dh && n
            < h.n) || (r.recv is Some && d == r.remote->Some_0 && r.n_recv <= n < h.prev) by {
        assert(t.skipped.contains_key((d, n)) <==> u.skipped.contains_key((d, n)) || (d == h.dh
            && n < h.n));
    }
    assert forall|d: Seq<u8>, n: u32| r.skipped.contains_key((d, n)) implies #[trigger] t.skipped[(
        d,
        n,
    )] == r.skipped[(d, n)] by {
        assert(t.skipped.contains_key((d, n)));
        assert(u.skipped.contains_key((d, n)));
        assert(!r.skipped.contains_key((h.dh, n)));
    }
    assert forall|n: u32| n < h.n implies #[trigger] t.skipped[(h.dh, n)] == message_key(
        chain,
        n as nat,
    ) by {
        assert(t.skipped.contains_key((h.dh, n)));
    }
    if r.recv is Some {
        assert forall|n: u32| r.n_recv <= n < h.prev implies #[trigger] t.skipped[(
            r.remote->Some_0,
            n,
        )] == message_key(r.recv->Some_0, (n - r.n_recv) as nat) by {
            assert(t.skipped.contains_key((r.remote->Some_0, n)));
            assert(u.skipped.contains_key((r.remote->Some_0, n)));
        }
    }
}

/// A letter that was within reach stays so while the receiver reads another one.
proof fn lemma_other_letter(
    r: RatchetModel,
    s: RatchetModel,
    l: Letter,
    chain: Seq<u8>,
    e: Seq<u8>,
    other: Letter,
    other_chain: Seq<u8>,
)
    requires
        reaches(r, s, l, chain),
        reaches(r, s, other, other_chain),
        (l.message.header.dh, l.message.header.n) != (
            other.message.header.dh,
            other.message.header.n,
        ),
        in_time(r, s, l.message.header, e),
        none_ahead(r),
        r.recv is Some ==> r.remote is Some,
        awaited_on(r, s, l.message.header, chain) && r.recv is Some ==> r.n_recv <= s.prev,
    ensures
        reaches(after_decrypt(r, l.message.header, e), s, other, other_chain),
{
    let h = l.message.header;
    let g = other.message.header;
    let t = after_decrypt(r, h, e);
    if kept_for(r, h, chain) {
        if awaits(r, s, other_chain) && g.dh == x25519_public(s.own->Some_0) && g.prev == s.prev {
            law_reading_keeps_awaiting(r, s, other_chain, h, e);
        }
    } else if ahead_on(r, s, h, chain) {
        assert(h.n < u32::MAX);
        lemma_step_along(r, h, e, chain);
        if kept_for(r, g, other_chain) {
            assert(t.skipped.contains_key((g.dh, g.n)));
        } else if ahead_on(r, s, g, other_chain) {
            if g.n < h.n {
                lemma_step_along(r, h, e, other_chain);
                assert(t.skipped.contains_key((g.dh, g.n)));
                assert(t.skipped[(h.dh, g.n)] == message_key(other_chain, g.n as nat));
            } else {
                lemma_step_along(r, h, e, other_chain);
            }
        } else {
            law_reading_keeps_awaiting(r, s, other_chain, h, e);
        }
    } else {
        assert(!r.skipped.contains_key((h.dh, h.n)));
        assert(r.remote != Some(h.dh));
        lemma_step_over(r, s, h, e, chain);
        if kept_for(r, g, other_chain) {
            assert(t.skipped.contains_key((g.dh, g.n)));
        } else if ahead_on(r, s, g, other_chain) {
            assert(g.n < s.prev);
            assert(t.skipped.contains_key((g.dh, g.n)));
            lemma_link_after_add(other_chain, r.n_recv as nat, (g.n - r.n_recv) as nat);
            assert(t.skipped[(r.remote->Some_0, g.n)] == message_key(other_chain, g.n as nat));
        } else {
            assert(other_chain == chain);
            if g.n < h.n {
                assert(t.skipped.contains_key((g.dh, g.n)));
                assert(t.skipped[(h.dh, g.n)] == message_key(chain, g.n as nat));
            }
        }
    }
}

/// Somebody's key will open the letter.
spec fn reachable(r: RatchetModel, s: RatchetModel, l: Letter) -> bool {
    exists|chain: Seq<u8>| reaches(r, s, l, chain)
}

/// What holds at every moment of a conversation; the side named is ahead.
spec fn talking(m: Moment, first_ahead: bool, cs: Seq<u8>, cr: Seq<u8>) -> bool {
    &&& in_step(reader(m, first_ahead), reader(m, !first_ahead), cs, cr)
    &&& forall|l: Letter| #[trigger]
        m.letters.contains(l) ==> reachable(reader(m, l.to_first), reader(m, !l.to_first), l)
    &&& forall|l: Letter, k: Letter|
        #![trigger m.letters.contains(l), m.letters.contains(k)]
        m.letters.contains(l) && m.letters.contains(k) && l != k && l.to_first == k.to_first ==> (
        l.message.header.dh,
        l.message.header.n,
    ) != (k.message.header.dh, k.message.header.n)
}

spec fn conversing(m: Moment) -> bool {
    exists|first_ahead: bool, cs: Seq<u8>, cr: Seq<u8>| talking(m, first_ahead, cs, cr)
}

proof fn lemma_ahead_reads(
    s: RatchetModel,
    r: RatchetModel,
    cs: Seq<u8>,
    cr: Seq<u8>,
    l: Letter,
    chain: Seq<u8>,
    e: Seq<u8>,
)
    requires
        in_step(s, r, cs, cr),
        reaches(s, r, l, chain),
        in_time(s, r, l.message.header, e),
    ensures
        selected_key(s, l.message.header, e) == Ok::<Seq<u8>, Seq<char>>(
            message_key(chain, l.message.header.n as nat),
        ),
        in_step(after_decrypt(s, l.message.header, e), r, cs, cr),
{
    let h = l.message.header;
    law_reading_keeps_awaiting(r, s, cs, h, e);
    if !kept_for(s, h, chain) {
        assert(ahead_on(s, r, h, chain));
        lemma_step_along(s, h, e, chain);
        if r.send is Some {
            lemma_step_along(s, h, e, cr);
        }
    }
}

proof fn lemma_behind_reads(
    s: RatchetModel,
    r: RatchetModel,
    cs: Seq<u8>,
    cr: Seq<u8>,
    l: Letter,
    chain: Seq<u8>,
    e: Seq<u8>,
)
    requires
        in_step(s, r, cs, cr),
        reaches(r, s, l, chain),
        in_time(r, s, l.message.header, e),
        begins_chain(r, l.message.header) ==> agrees_with(e, l.message.header.dh),
    ensures
        ({
            let h = l.message.header;
            let t = after_decrypt(r, h, e);
            &&& selected_key(r, h, e) == Ok::<Seq<u8>, Seq<char>>(message_key(chain, h.n as nat))
            &&& in_step(s, t, cs, cr) || (in_step(t, s, t.send->Some_0, cs) && t.own == Some(e)
                && t.n_send == 0 && t.prev == r.n_send && unknown_to(s, x25519_public(e)))
            &&& in_step(s, t, cs, cr) ==> t.own == r.own && t.n_send == r.n_send && t.prev == r.prev
                && t.send == r.send
        }),
{
    let h = l.message.header;
    let t = after_decrypt(r, h, e);
    law_reading_keeps_awaiting(r, s, cs, h, e);
    if kept_for(r, h, chain) {
        assert(in_step(s, t, cs, cr));
    } else if ahead_on(r, s, h, chain) {
        lemma_step_along(r, h, e, chain);
        assert(in_step(s, t, cs, cr));
    } else {
        assert(!r.skipped.contains_key((h.dh, h.n)));
        lemma_step_over(r, s, h, e, chain);
        assert(begins_chain(r, h));
        assert(agree(e, s.own->Some_0));
        law_reply_is_awaited(r, s, chain, h, e);
        assert(chain == cs);
        assert(link_after(t.send->Some_0, 0) == t.send->Some_0);
        assert(in_step(t, s, t.send->Some_0, cs));
        assert(!in_step(s, t, cs, cr)) by {
            assert(t.remote == Some(x25519_public(s.own->Some_0)));
        }
    }
}

/// A letter to the side that is ahead stays within reach when the other side begins
/// a chain.
proof fn lemma_letter_to_ahead(
    s: RatchetModel,
    r: RatchetModel,
    t: RatchetModel,
    cs: Seq<u8>,
    cr: Seq<u8>,
    l: Letter,
    chain: Seq<u8>,
    e: Seq<u8>,
)
    requires
        in_step(s, r, cs, cr),
        reaches(s, r, l, chain),
        t.own == Some(e),
        t.n_send == 0,
        t.prev == r.n_send,
        unknown_to(s, x25519_public(e)),
    ensures
        reaches(s, t, l, chain),
{
    let h = l.message.header;
    if kept_for(s, h, chain) {
        assert(s.skipped.contains_key((h.dh, h.n)));
    } else {
        assert(ahead_on(s, r, h, chain));
    }
}

proof fn lemma_read_deed(m: Moment, letter: Letter, fresh: Seq<u8>, read: Result<
    Vec<u8>,
    CryptoError,
>, t: Moment)
    requires
        conversing(m),
        happens(m, Deed::Read { letter, fresh, read }, t),
    ensures
        conversing(t),
        read is Ok,
        read->Ok_0@ == letter.text,
{
    let (first_ahead, cs, cr) = choose|first_ahead: bool, cs: Seq<u8>, cr: Seq<u8>|
        talking(m, first_ahead, cs, cr);
    let to = letter.to_first;
    let h = letter.message.header;
    let r = reader(m, to);
    let s = reader(m, !to);
    assert(reachable(r, s, letter));
    let chain = choose|chain: Seq<u8>| reaches(r, s, letter, chain);
    let r2 = after_decrypt(r, h, fresh);
    assert(reader(t, to) == r2);
    if to == first_ahead {
        lemma_ahead_reads(r, s, cs, cr, letter, chain, fresh);
        if !kept_for(r, h, chain) {
            lemma_step_along(r, h, fresh, chain);
        }
    } else {
        lemma_behind_reads(s, r, cs, cr, letter, chain, fresh);
    }
    assert(sealed(selected_key(r, h, fresh)->Ok_0, letter.text, h) == Some(
        letter.message.ciphertext,
    ));
    let turned = to != first_ahead && !in_step(s, r2, cs, cr);
    assert forall|l: Letter| #[trigger] t.letters.contains(l) implies reachable(
        reader(t, l.to_first),
        reader(t, !l.to_first),
        l,
    ) by {
        assert(m.letters.contains(l) && m.letters.contains(letter));
        assert(reachable(reader(m, l.to_first), reader(m, !l.to_first), l));
        let (x, y) = (reader(m, l.to_first), reader(m, !l.to_first));
        let c = choose|c: Seq<u8>| reaches(x, y, l, c);
        if l.to_first == to {
            lemma_other_letter(r, s, letter, chain, fresh, l, c);
            assert(reaches(r2, s, l, c));
        } else if to == first_ahead {
            if awaited_on(s, r, l.message.header, c) {
                law_reading_keeps_awaiting(s, r, c, h, fresh);
            }
            assert(reaches(s, r2, l, c));
        } else if turned {
            lemma_letter_to_ahead(s, r, r2, cs, cr, l, c, fresh);
            assert(reaches(s, r2, l, c));
        } else {
            assert(reaches(s, r2, l, c));
        }
    }
    if to == first_ahead {
        assert(talking(t, first_ahead, cs, cr));
    } else if turned {
        assert(talking(t, to, r2.send->Some_0, cs));
    } else {
        assert(talking(t, first_ahead, cs, cr));
    }
}

proof fn lemma_send_deed(m: Moment, letter: Letter, fresh: Seq<u8>, sent: RatchetMessage, t: Moment)
    requires
        conversing(m),
        happens(m, Deed::Send { letter, fresh, sent }, t),
    ensures
        conversing(t),
{
    let (first_ahead, cs, cr) = choose|first_ahead: bool, cs: Seq<u8>, cr: Seq<u8>|
        talking(m, first_ahead, cs, cr);
    let by = !letter.to_first;
    let s = reader(m, by);
    let r = reader(m, !by);
    let s2 = reader(t, by);
    assert(s2 == after_encrypt(s, fresh));
    assert((s2.n_send as nat - 1) as nat == s.n_send as nat);
    let chain = if by == first_ahead {
        cs
    } else {
        cr
    };
    assert(reachable(r, s2, letter)) by {
        if by == first_ahead {
            law_sending_keeps_awaiting(r, s, cs, fresh);
        }
        assert(reaches(r, s2, letter, chain));
    }
    if by == first_ahead {
        law_sending_keeps_awaiting(r, s, cs, fresh);
    } else {
        law_sending_keeps_awaiting(s, r, cs, fresh);
    }
    assert forall|l: Letter| #[trigger] t.letters.contains(l) implies reachable(
        reader(t, l.to_first),
        reader(t, !l.to_first),
        l,
    ) by {
        if l != letter {
            assert(m.letters.contains(l));
            assert(reachable(reader(m, l.to_first), reader(m, !l.to_first), l));
            let (x, y) = (reader(m, l.to_first), reader(m, !l.to_first));
            let c = choose|c: Seq<u8>| reaches(x, y, l, c);
            if l.to_first == letter.to_first {
                if awaited_on(r, s, l.message.header, c) {
                    law_sending_keeps_awaiting(r, s, c, fresh);
                }
                assert(reaches(r, s2, l, c));
            } else {
                if awaited_on(s, r, l.message.header, c) {
                    law_sending_keeps_awaiting(s, r, c, fresh);
                }
                assert(reaches(s2, r, l, c));
            }
        }
    }
    assert forall|l: Letter, k: Letter|
        #![trigger t.letters.contains(l), t.letters.contains(k)]
        t.letters.contains(l) && t.letters.contains(k) && l != k && l.to_first
            == k.to_first implies (l.message.header.dh, l.message.header.n) != (
        k.message.header.dh,
        k.message.header.n,
    ) by {
        if l == letter {
            assert(m.letters.contains(k));
            assert(reachable(reader(m, k.to_first), reader(m, !k.to_first), k));
        } else if k == letter {
            assert(m.letters.contains(l));
            assert(reachable(reader(m, l.to_first), reader(m, !l.to_first), l));
        } else {
            assert(m.letters.contains(l) && m.letters.contains(k));
        }
    }
    assert(talking(t, first_ahead, cs, cr));
}

/// The moment after the side that began has encrypted its first text.
pub open spec fn begins(
    m: Moment,
    sk: Seq<u8>,
    b: Seq<u8>,
    fresh: Seq<u8>,
    letter: Letter,
    sent: RatchetMessage,
) -> bool {
    &&& b.len() == 32
    &&& fresh.len() == 32
    &&& !letter.to_first
    &&& sent@ == letter.message
    &&& encrypts(
        initiator_state(sk, x25519_public(b)),
        letter.text,
        fresh,
        m.first,
        Ok(sent),
    )
    &&& m.second == responder_state(sk, b)
    &&& m.letters == set![letter]
}

proof fn lemma_begins(
    m: Moment,
    sk: Seq<u8>,
    b: Seq<u8>,
    fresh: Seq<u8>,
    letter: Letter,
    sent: RatchetMessage,
)
    requires
        begins(m, sk, b, fresh, letter, sent),
    ensures
        conversing(m),
{
    let start = initiator_state(sk, x25519_public(b));
    let s = sending_state(start, fresh);
    let cs = s.send->Some_0;
    assert(agree(fresh, b));
    law_session_begins(sk, b, fresh);
    assert(link_after(cs, 0) == cs);
    assert(m.first == after_encrypt(s, fresh));
    law_sending_keeps_awaiting(m.second, s, cs, fresh);
    assert((m.first.n_send as nat - 1) as nat == 0);
    assert(reaches(m.second, m.first, letter, cs));
    assert(reachable(m.second, m.first, letter));
    assert forall|l: Letter| #[trigger] m.letters.contains(l) implies reachable(
        reader(m, l.to_first),
        reader(m, !l.to_first),
        l,
    ) by {
        assert(l == letter);
    }
    assert(talking(m, true, cs, Seq::empty()));
}

/// Every message that is read says what was said, in a conversation of two sides
/// that agreed on a secret: both send as often as they like, and messages come in
/// any order, late, after any number of new ratchet keys, or not at all, as long as
/// none is read twice and not more than the limit are passed over at once. What is
/// asked of chance is that no ratchet key comes twice.
pub proof fn law_every_letter_reads_back(
    sk: Seq<u8>,
    b: Seq<u8>,
    fresh: Seq<u8>,
    letter: Letter,
    sent: RatchetMessage,
    moments: Seq<Moment>,
    deeds: Seq<Deed>,
)
    requires
        moments.len() == deeds.len() + 1,
        begins(moments[0], sk, b, fresh, letter, sent),
        forall|k: int|
            0 <= k < deeds.len() ==> happens(moments[k], #[trigger] deeds[k], moments[k + 1]),
    ensures
        forall|k: int|
            0 <= k < deeds.len() ==> match #[trigger] deeds[k] {
                Deed::Read { letter, read, .. } => read is Ok && read->Ok_0@ == letter.text,
                _ => true,
            },
{
    assert forall|k: int| 0 <= k < deeds.len() implies match #[trigger] deeds[k] {
        Deed::Read { letter, read, .. } => read is Ok && read->Ok_0@ == letter.text,
        _ => true,
    } by {
        lemma_conversing(sk, b, fresh, letter, sent, moments, deeds, k);
        if let Deed::Read { letter, fresh, read } = deeds[k] {
            lemma_read_deed(moments[k], letter, fresh, read, moments[k + 1]);
        }
    }
}

proof fn lemma_conversing(
    sk: Seq<u8>,
    b: Seq<u8>,
    fresh: Seq<u8>,
    letter: Letter,
    sent: RatchetMessage,
    moments: Seq<Moment>,
    deeds: Seq<Deed>,
    k: int,
)
    requires
        moments.len() == deeds.len() + 1,
        begins(moments[0], sk, b, fresh, letter, sent),
        forall|k: int|
            0 <= k < deeds.len() ==> happens(moments[k], #[trigger] deeds[k], moments[k + 1]),
        0 <= k <= deeds.len(),
    ensures
        conversing(moments[k]),
    decreases k,
{
    if k == 0 {
        lemma_begins(moments[0], sk, b, fresh, letter, sent);
    } else {
        lemma_conversing(sk, b, fresh, letter, sent, moments, deeds, k - 1);
        match deeds[k - 1] {
            Deed::Read { letter, fresh, read } => {
                lemma_read_deed(moments[k - 1], letter, fresh, read, moments[k]);
            },
            Deed::Send { letter, fresh, sent } => {
                lemma_send_deed(moments[k - 1], letter, fresh, sent, moments[k]);
            },
        }
    }
}

impl RatchetState {
    /// A sending chain comes with an own secret, a receiving chain with the
    /// peer's key, and no key is kept twice.
    pub closed spec fn wf(&self) -> bool {
        &&& self.skipped.wf()
        &&& self.chain_send is Some ==> self.dh_self is Some
        &&& self.chain_recv is Some ==> self.dh_remote is Some
    }

    /// The initiator's side of a session: it knows the agreed secret and the
    /// responder's pre-key.
    #[must_use]
    pub fn init_initiator(sk: [u8; 32], remote_dh: PublicKey) -> (r: Self)
        ensures
            r.wf(),
            r@ == initiator_state(sk@, remote_dh@),
    {
        RatchetState {
            root_key: SecretBytes::from_bytes(sk),
            dh_self: None,
            dh_remote: Some(remote_dh),
            chain_send: None,
            chain_recv: None,
            n_send: 0,
            n_recv: 0,
            prev_chain_len: 0,
            skipped: SkippedKeys::new(),
        }
    }

    /// The responder's side of a session: it knows the agreed secret, and its
    /// pre-key is its first ratchet key.
    #[must_use]
    pub fn init_responder(sk: [u8; 32], spk_secret: SecretBytes) -> (r: Self)
        ensures
            r.wf(),
            r@ == responder_state(sk@, spk_secret@),
    {
        RatchetState {
            root_key: SecretBytes::from_bytes(sk),
            dh_self: Some(spk_secret),
            dh_remote: None,
            chain_send: None,
            chain_recv: None,
            n_send: 0,
            n_recv: 0,
            prev_chain_len: 0,
            skipped: SkippedKeys::new(),
        }
    }

    /// Whether a message can be encrypted in this state.
    #[must_use]
    pub fn ready_to_encrypt(&self) -> (r: bool)
        ensures
            r == can_encrypt(self@),
    {
        if self.chain_send.is_none() {
            self.dh_remote.is_some()
        } else {
            self.n_send < u32::MAX
        }
    }

    /// Whether the state has what a message with this header needs.
    #[must_use]
    pub fn ready_to_decrypt(&self, header: &Header) -> (r: bool)
        requires
            self.wf(),
        ensures
            r == can_decrypt(self@, header@),
    {
        if self.skipped.contains(&header.dh, header.n) {
            return true;
        }
        let known: bool = match &self.dh_remote {
            Some(remote) => remote.same(&header.dh),
            None => false,
        };
        if known {
            self.chain_recv.is_some() && (header.n < u32::MAX || self.n_recv < u32::MAX - MAX_SKIP)
        } else {
            self.dh_self.is_some()
        }
    }

    /// Encrypts a message. A side without a sending chain begins one with a
    /// fresh ratchet key.
    pub fn encrypt(&mut self, plaintext: &[u8]) -> (r: Result<RatchetMessage, CryptoError>)
        requires
            old(self).wf(),
            can_encrypt(old(self)@),
        ensures
            final(self).wf(),
            exists|e: Seq<u8>|
                e.len() == 32 && #[trigger] encrypts(old(self)@, plaintext@, e, final(self)@, r),
    {
        let fresh = SecretBytes::random();
        let ghost e = fresh@;
        let r = self.encrypt_with(plaintext, fresh);
        assert(encrypts(old(self)@, plaintext@, e, self@, r));
        r
    }

    /// Encrypts a message. A side without a sending chain begins one with
    /// `fresh`.
    pub fn encrypt_with(&mut self, plaintext: &[u8], fresh: SecretBytes) -> (r: Result<
        RatchetMessage,
        CryptoError,
    >)
        requires
            old(self).wf(),
            can_encrypt(old(self)@),
        ensures
            final(self).wf(),
            encrypts(old(self)@, plaintext@, fresh@, final(self)@, r),
    {
        let ghost e = fresh@;
        if self.chain_send.is_none() {
            self.dh_ratchet_send_side(fresh);
        }
        assert(self@ == sending_state(old(self)@, e));
        let ghost s = self@;
        let (key, next) = match &self.chain_send {
            Some(link) => (kdf_ck_mk(link), kdf_ck_next(link)),
            None => vstd::pervasive::unreached(),
        };
        let dh = match &self.dh_self {
            Some(secret) => secret.public_key(),
            None => vstd::pervasive::unreached(),
        };
        let header = Header { dh, prev_chain_len: self.prev_chain_len, n: self.n_send };
        self.chain_send = Some(next);
        self.n_send = self.n_send + 1;
        assert(self@ == after_encrypt(old(self)@, e));
        match seal(&key, plaintext, &header) {
            Ok(ciphertext) => Ok(RatchetMessage { header, ciphertext }),
            Err(error) => Err(error),
        }
    }

    /// Decrypts a message. One that arrives late is decrypted with the key that
    /// was kept for it; one with a new ratchet key of the peer renews the root,
    /// with a fresh ratchet key.
    pub fn decrypt(&mut self, msg: &RatchetMessage) -> (r: Result<Vec<u8>, CryptoError>)
        requires
            old(self).wf(),
            can_decrypt(old(self)@, msg.header@),
        ensures
            final(self).wf(),
            exists|e: Seq<u8>|
                e.len() == 32 && #[trigger] decrypts(old(self)@, msg@, e, final(self)@, r),
    {
        let fresh = SecretBytes::random();
        let ghost e = fresh@;
        let r = self.decrypt_with(msg, fresh);
        assert(decrypts(old(self)@, msg@, e, self@, r));
        r
    }

    /// Decrypts a message. One that arrives late is decrypted with the key that
    /// was kept for it; one with a new ratchet key of the peer renews the root,
    /// with `fresh`.
    pub fn decrypt_with(&mut self, msg: &RatchetMessage, fresh: SecretBytes) -> (r: Result<
        Vec<u8>,
        CryptoError,
    >)
        requires
            old(self).wf(),
            can_decrypt(old(self)@, msg.header@),
        ensures
            final(self).wf(),
            decrypts(old(self)@, msg@, fresh@, final(self)@, r),
    {
        let ghost e = fresh@;
        let ghost h = msg.header@;
        let ghost m0 = self@;
        if let Some(key) = self.skipped.take(&msg.header.dh, msg.header.n) {
            assert(self@ =~= after_decrypt(m0, h, e));
            return open(&key, msg.ciphertext.as_slice(), &msg.header);
        }
        assert(self@ =~= m0) by {
            assert(m0.skipped.remove((h.dh, h.n)) =~= m0.skipped);
        }
        let known: bool = match &self.dh_remote {
            Some(remote) => remote.same(&msg.header.dh),
            None => false,
        };
        if !known {
            if let Some(remote) = self.dh_remote {
                if self.chain_recv.is_some() {
                    self.skip_to(&remote, msg.header.prev_chain_len)?;
                }
            }
            self.dh_ratchet_recv_side(&msg.header.dh, fresh);
        }
        let ghost s = self@;
        assert(reading_state(m0, h, e) == Ok::<RatchetModel, Seq<char>>(s));
        self.skip_to(&msg.header.dh, msg.header.n)?;
        let ghost t = self@;
        assert(t == skip_step(s, h.dh, h.n));
        let (key, next) = match &self.chain_recv {
            Some(link) => (kdf_ck_mk(link), kdf_ck_next(link)),
            None => vstd::pervasive::unreached(),
        };
        self.chain_recv = Some(next);
        self.n_recv = msg.header.n + 1;
        assert(self@ =~= after_decrypt(m0, h, e));
        open(&key, msg.ciphertext.as_slice(), &msg.header)
    }

    /// Begins a sending chain with a new ratchet key.
    fn dh_ratchet_send_side(&mut self, fresh: SecretBytes)
        requires
            old(self).wf(),
            old(self)@.remote is Some,
        ensures
            final(self).wf(),
            final(self)@ == send_step(old(self)@, fresh@),
            agrees_with(fresh@, old(self)@.remote->Some_0),
            final(self)@.send is Some,
    {
        let shared = match &self.dh_remote {
            Some(remote) => fresh.diffie_hellman(remote),
            None => vstd::pervasive::unreached(),
        };
        let (root, chain) = kdf_rk(&self.root_key, &shared);
        self.root_key = root;
        self.dh_self = Some(fresh);
        self.prev_chain_len = self.n_send;
        self.chain_send = Some(chain);
        self.n_send = 0;
    }

    /// Begins a receiving chain with the peer's new ratchet key, and a sending
    /// chain with a new one of its own.
    fn dh_ratchet_recv_side(&mut self, remote: &PublicKey, fresh: SecretBytes)
        requires
            old(self).wf(),
            old(self)@.own is Some,
        ensures
            final(self).wf(),
            final(self)@ == recv_step(old(self)@, remote@, fresh@),
            agrees_with(old(self)@.own->Some_0, remote@),
            agrees_with(fresh@, remote@),
    {
        let shared = match &self.dh_self {
            Some(own) => own.diffie_hellman(remote),
            None => vstd::pervasive::unreached(),
        };
        self.dh_remote = Some(*remote);
        let (root, chain) = kdf_rk(&self.root_key, &shared);
        self.root_key = root;
        self.chain_recv = Some(chain);
        self.n_recv = 0;
        self.dh_ratchet_send_side(fresh);
    }

    /// Follows the receiving chain up to message `until` and keeps the keys on
    /// the way.
    fn skip_to(&mut self, remote: &PublicKey, until: u32) -> (r: Result<(), CryptoError>)
        requires
            old(self).wf(),
            old(self)@.recv is Some,
        ensures
            final(self).wf(),
            match skip_error(old(self)@.n_recv, until) {
                Some(text) => r is Err && r->Err_0@ == CryptoErrorModel::Ratchet(text)
                    && final(self)@ == old(self)@,
                None => r is Ok && final(self)@ == skip_step(old(self)@, remote@, until),
            },
    {
        let ghost m = self@;
        let from: u32 = self.n_recv;
        if until < from {
            let mut s = String::from_str("消息序号倒退：当前已读到 ");
            push_decimal(&mut s, from as u128);
            s.append("，消息声称 ");
            push_decimal(&mut s, until as u128);
            return Err(CryptoError::Ratchet(s));
        }
        if until - from > MAX_SKIP {
            let mut s = String::from_str("单链跳过 ");
            push_decimal(&mut s, (until - from) as u128);
            s.append("/");
            push_decimal(&mut s, MAX_SKIP as u128);
            s.append(" 超过 MAX_SKIP 上限，疑似异常对端");
            return Err(CryptoError::Ratchet(s));
        }
        let mut link = match &self.chain_recv {
            Some(link) => link.duplicate(),
            None => vstd::pervasive::unreached(),
        };
        let ghost start = link@;
        let mut n: u32 = from;
        while n < until
            invariant
                from <= n <= until,
                self.wf(),
                self@ == (RatchetModel {
                    skipped: keep_keys(m.skipped, remote@, start, from, n as nat),
                    ..m
                }),
                link@ == link_after(start, (n - from) as nat),
            decreases until - n,
        {
            let key = kdf_ck_mk(&link);
            self.skipped.put(remote, n, key);
            link = kdf_ck_next(&link);
            n = n + 1;
            assert((n - 1 - from) as nat == ((n - from) as nat - 1) as nat);
        }
        self.n_recv = until;
        self.chain_recv = Some(link);
        assert(self@ =~= skip_step(m, remote@, until));
        Ok(())
    }
}

} // verus!
