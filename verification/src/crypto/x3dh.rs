//! Key agreement with an absent peer: the initiator combines its keys with the
//! pre-keys that the responder left behind, and both arrive at one secret.

use vstd::prelude::*;
use vstd::utf8::encode_utf8;
use crate::crypto::error::{CryptoError, CryptoErrorModel, ratchet_error};
use crate::crypto::primitives::{
    PublicKey, SecretBytes, Signature, VerifyingKey, array_at, ed25519_key_ok, ed25519_public,
    ed25519_sign, ed25519_verify, hkdf_derive, hkdf_sha256, x25519_public, x25519_shared,
};
use crate::octets::{be32_bytes, be32_value, get_be32, law_be32_round_trip, put_be32, put_slice};
use crate::text::{decimal, push_decimal};

verus! {

/// What the derived key is for.
pub const AGREEMENT_INFO: &'static str = "im-e2ee-x3dh-v1";

/// The domain separator in front of the shared secrets: thirty-two times 0xFF.
pub open spec fn separator() -> Seq<u8> {
    Seq::new(32, |i: int| 0xFFu8)
}

/// The key that both sides arrive at, from the three or four shared secrets.
pub open spec fn agreed_key(
    dh1: Seq<u8>,
    dh2: Seq<u8>,
    dh3: Seq<u8>,
    dh4: Option<Seq<u8>>,
) -> Seq<u8> {
    let three = separator() + dh1 + dh2 + dh3;
    let ikm = match dh4 {
        Some(d) => three + d,
        None => three,
    };
    hkdf_sha256(None, ikm, encode_utf8(AGREEMENT_INFO@), 32)
}

/// What the signature of a pre-key covers: its number and its public key.
pub open spec fn signed_bytes(key_id: u32, public: Seq<u8>) -> Seq<u8> {
    be32_bytes(key_id) + public
}

/// The key on the initiator's side: `a` and `e` are its identity and ephemeral
/// secrets, the rest are the responder's public keys.
pub open spec fn initiator_key(
    a: Seq<u8>,
    e: Seq<u8>,
    identity: Seq<u8>,
    spk: Seq<u8>,
    opk: Option<Seq<u8>>,
) -> Seq<u8> {
    agreed_key(
        x25519_shared(a, spk),
        x25519_shared(e, identity),
        x25519_shared(e, spk),
        match opk {
            Some(k) => Some(x25519_shared(e, k)),
            None => None,
        },
    )
}

/// The key on the responder's side: `b`, `s` and `o` are its identity, signed
/// and one-time secrets, the rest are the initiator's public keys.
pub open spec fn responder_key(
    b: Seq<u8>,
    s: Seq<u8>,
    o: Option<Seq<u8>>,
    identity: Seq<u8>,
    ephemeral: Seq<u8>,
) -> Seq<u8> {
    agreed_key(
        x25519_shared(s, identity),
        x25519_shared(b, ephemeral),
        x25519_shared(s, ephemeral),
        match o {
            Some(k) => Some(x25519_shared(k, ephemeral)),
            None => None,
        },
    )
}

/// A long-term identity: a signing key and an agreement key.
pub struct IdentityKeyPair {
    signing: SecretBytes,
    dh: SecretBytes,
}

/// The public half of an identity.
#[derive(Clone, Copy, Debug, PartialEq, Eq)]
pub struct IdentityPublicKey {
    verifying: VerifyingKey,
    dh: PublicKey,
}

/// What an [`IdentityPublicKey`] says.
#[verifier::ext_equal]
pub struct IdentityModel {
    pub verifying: Seq<u8>,
    pub dh: Seq<u8>,
}

impl View for IdentityPublicKey {
    type V = IdentityModel;

    closed spec fn view(&self) -> IdentityModel {
        IdentityModel { verifying: self.verifying@, dh: self.dh@ }
    }
}

impl IdentityKeyPair {
    /// The signing secret.
    pub closed spec fn signing_secret(&self) -> Seq<u8> {
        self.signing@
    }

    /// The agreement secret.
    pub closed spec fn dh_secret(&self) -> Seq<u8> {
        self.dh@
    }

    /// A fresh identity.
    #[must_use]
    pub fn generate() -> (r: Self)
        ensures
            r.signing_secret().len() == 32,
            r.dh_secret().len() == 32,
    {
        Self::from_secrets(SecretBytes::random(), SecretBytes::random())
    }

    /// The identity of two secrets.
    #[must_use]
    pub fn from_secrets(signing: SecretBytes, dh: SecretBytes) -> (r: Self)
        ensures
            r.signing_secret() == signing@,
            r.dh_secret() == dh@,
    {
        IdentityKeyPair { signing, dh }
    }

    /// The public half.
    #[must_use]
    pub fn public(&self) -> (r: IdentityPublicKey)
        ensures
            r@ == (IdentityModel {
                verifying: ed25519_public(self.signing_secret()),
                dh: x25519_public(self.dh_secret()),
            }),
            ed25519_key_ok(r@.verifying),
    {
        IdentityPublicKey { verifying: VerifyingKey::of(&self.signing), dh: self.dh.public_key() }
    }
}

/// A medium-term pre-key, signed by its owner's identity.
pub struct SignedPreKey {
    /// The number under which it is found.
    pub key_id: u32,
    /// The secret.
    pub secret: SecretBytes,
    /// The public key.
    pub public: PublicKey,
    /// The identity's signature over the number and the public key.
    pub signature: Signature,
}

impl SignedPreKey {
    /// A fresh pre-key, signed on the spot.
    #[must_use]
    pub fn generate(identity: &IdentityKeyPair, key_id: u32) -> (r: Self)
        ensures
            r.key_id == key_id,
            r.secret@.len() == 32,
            r.public@ == x25519_public(r.secret@),
            r.signature@ == ed25519_sign(
                identity.signing_secret(),
                signed_bytes(key_id, r.public@),
            ),
            ed25519_verify(
                ed25519_public(identity.signing_secret()),
                signed_bytes(key_id, r.public@),
                r.signature@,
            ),
    {
        Self::from_secret(identity, key_id, SecretBytes::random())
    }

    /// The pre-key of a secret, signed on the spot.
    #[must_use]
    pub fn from_secret(identity: &IdentityKeyPair, key_id: u32, secret: SecretBytes) -> (r: Self)
        ensures
            r.key_id == key_id,
            r.secret@ == secret@,
            r.public@ == x25519_public(secret@),
            r.signature@ == ed25519_sign(
                identity.signing_secret(),
                signed_bytes(key_id, r.public@),
            ),
            ed25519_verify(
                ed25519_public(identity.signing_secret()),
                signed_bytes(key_id, r.public@),
                r.signature@,
            ),
    {
        let public = secret.public_key();
        let mut signed: Vec<u8> = Vec::new();
        put_be32(&mut signed, key_id);
        put_slice(&mut signed, public.to_bytes().as_slice());
        assert(signed@ =~= signed_bytes(key_id, public@));
        let signature = identity.signing.sign(signed.as_slice());
        SignedPreKey { key_id, secret, public, signature }
    }

    /// The public part, for a bundle.
    #[must_use]
    pub fn bundle_part(&self) -> (r: (u32, PublicKey, Signature))
        ensures
            r.0 == self.key_id,
            r.1 == self.public,
            r.2 == self.signature,
    {
        (self.key_id, self.public, self.signature)
    }

    /// The secret as the first ratchet key of a session.
    #[must_use]
    pub fn ratchet_secret(&self) -> (r: SecretBytes)
        ensures
            r@ == self.secret@,
            r@.len() == 32,
    {
        self.secret.duplicate()
    }
}

/// A pre-key that is used once.
pub struct OneTimePreKey {
    /// The number under which it is found.
    pub key_id: u32,
    /// The secret.
    pub secret: SecretBytes,
    /// The public key.
    pub public: PublicKey,
}

impl OneTimePreKey {
    /// A fresh pre-key.
    #[must_use]
    pub fn generate(key_id: u32) -> (r: Self)
        ensures
            r.key_id == key_id,
            r.secret@.len() == 32,
            r.public@ == x25519_public(r.secret@),
    {
        let secret = SecretBytes::random();
        let public = secret.public_key();
        OneTimePreKey { key_id, secret, public }
    }
}

/// What a responder leaves behind: public keys only.
pub struct PreKeyBundle {
    /// The identity.
    pub identity: IdentityPublicKey,
    /// The signed pre-key: its number, its public key and the signature.
    pub signed_pre_key: (u32, PublicKey, Signature),
    /// A one-time pre-key, while there are any.
    pub one_time_pre_key: Option<(u32, PublicKey)>,
}

impl Clone for PreKeyBundle {
    fn clone(&self) -> (r: Self)
        ensures
            r == *self,
    {
        PreKeyBundle {
            identity: self.identity,
            signed_pre_key: self.signed_pre_key,
            one_time_pre_key: self.one_time_pre_key,
        }
    }
}

/// The secret of a session, which cannot be printed or copied by accident.
pub struct SessionKey {
    key: SecretBytes,
}

impl View for SessionKey {
    type V = Seq<u8>;

    closed spec fn view(&self) -> Seq<u8> {
        self.key@
    }
}

impl SessionKey {
    /// The raw bytes, for the start of a ratchet.
    #[must_use]
    pub fn expose(&self) -> (r: [u8; 32])
        ensures
            r@ == self@,
    {
        self.key.expose()
    }
}

/// What the initiator sends along with its first message.
#[derive(Clone, Copy, Debug, PartialEq, Eq)]
pub struct X3dhInitiation {
    /// Who the initiator is.
    pub initiator_identity: IdentityPublicKey,
    /// The public half of its ephemeral key.
    pub ephemeral: PublicKey,
    /// The signed pre-key that it used.
    pub signed_pre_key_id: u32,
    /// The one-time pre-key that it used, if any.
    pub one_time_pre_key_id: Option<u32>,
}

/// What an [`X3dhInitiation`] says.
#[verifier::ext_equal]
pub struct InitiationModel {
    pub identity: IdentityModel,
    pub ephemeral: Seq<u8>,
    pub spk_id: u32,
    pub opk_id: Option<u32>,
}

impl View for X3dhInitiation {
    type V = InitiationModel;

    open spec fn view(&self) -> InitiationModel {
        InitiationModel {
            identity: self.initiator_identity@,
            ephemeral: self.ephemeral@,
            spk_id: self.signed_pre_key_id,
            opk_id: self.one_time_pre_key_id,
        }
    }
}

/// The input of the derivation: the separator and the shared secrets.
fn derive_key(dh1: &SecretBytes, dh2: &SecretBytes, dh3: &SecretBytes, dh4: Option<SecretBytes>) -> (r:
    SessionKey)
    ensures
        r@ == agreed_key(
            dh1@,
            dh2@,
            dh3@,
            match dh4 {
                Some(d) => Some(d@),
                None => None,
            },
        ),
        r@.len() == 32,
{
    let mut ikm: Vec<u8> = Vec::new();
    let mut i: usize = 0;
    while i < 32
        invariant
            i <= 32,
            ikm@ =~= Seq::new(i as nat, |k: int| 0xFFu8),
        decreases 32 - i,
    {
        ikm.push(0xFF);
        i = i + 1;
    }
    assert(ikm@ =~= separator());
    put_slice(&mut ikm, dh1.as_slice());
    put_slice(&mut ikm, dh2.as_slice());
    put_slice(&mut ikm, dh3.as_slice());
    if let Some(d) = &dh4 {
        put_slice(&mut ikm, d.as_slice());
    }
    let sk = hkdf_derive(None, ikm.as_slice(), AGREEMENT_INFO.as_bytes(), 32);
    let bytes = array_at(sk.as_slice(), 0);
    assert(bytes@ =~= sk@);
    SessionKey { key: SecretBytes::from_bytes(bytes) }
}

/// Starts a session with the owner of a bundle, with a fresh ephemeral key.
/// The signature of the pre-key must be good.
pub fn initiate(initiator: &IdentityKeyPair, bundle: &PreKeyBundle) -> (r: Result<
    (SessionKey, X3dhInitiation),
    CryptoError,
>)
    ensures
        exists|e: Seq<u8>| e.len() == 32 && initiated(initiator, bundle, #[trigger] x25519_public(e), e, r),
{
    let ephemeral = SecretBytes::random();
    let ghost e = ephemeral@;
    let r = initiate_with(initiator, bundle, ephemeral);
    assert(initiated(initiator, bundle, x25519_public(e), e, r));
    r
}

/// `r` is what an initiation with the ephemeral secret `e` returns.
pub open spec fn initiated(
    initiator: &IdentityKeyPair,
    bundle: &PreKeyBundle,
    ephemeral: Seq<u8>,
    e: Seq<u8>,
    r: Result<(SessionKey, X3dhInitiation), CryptoError>,
) -> bool {
    let (spk_id, spk, signature) = bundle.signed_pre_key;
    let good = ed25519_verify(bundle.identity@.verifying, signed_bytes(spk_id, spk@), signature@);
    match r {
        Err(error) => !good && error@ == CryptoErrorModel::BadSignature,
        Ok((key, initiation)) => {
            &&& good
            &&& key@ == initiator_key(
                initiator.dh_secret(),
                e,
                bundle.identity@.dh,
                spk@,
                match bundle.one_time_pre_key {
                    Some((_, k)) => Some(k@),
                    None => None,
                },
            )
            &&& initiation@ == (InitiationModel {
                identity: IdentityModel {
                    verifying: ed25519_public(initiator.signing_secret()),
                    dh: x25519_public(initiator.dh_secret()),
                },
                ephemeral,
                spk_id,
                opk_id: match bundle.one_time_pre_key {
                    Some((id, _)) => Some(id),
                    None => None,
                },
            })
            &&& ed25519_key_ok(initiation@.identity.verifying)
        },
    }
}

/// Starts a session with the owner of a bundle, with a given ephemeral key. The
/// signature of the pre-key must be good.
pub fn initiate_with(
    initiator: &IdentityKeyPair,
    bundle: &PreKeyBundle,
    ephemeral: SecretBytes,
) -> (r: Result<(SessionKey, X3dhInitiation), CryptoError>)
    ensures
        initiated(initiator, bundle, x25519_public(ephemeral@), ephemeral@, r),
{
    let (spk_id, spk, signature) = bundle.signed_pre_key;
    let mut signed: Vec<u8> = Vec::new();
    put_be32(&mut signed, spk_id);
    put_slice(&mut signed, spk.to_bytes().as_slice());
    assert(signed@ =~= signed_bytes(spk_id, spk@));
    if !bundle.identity.verifying.verify(signed.as_slice(), &signature) {
        return Err(CryptoError::BadSignature);
    }
    let dh1 = initiator.dh.diffie_hellman(&spk);
    let dh2 = ephemeral.diffie_hellman(&bundle.identity.dh);
    let dh3 = ephemeral.diffie_hellman(&spk);
    let (opk_id, dh4) = match &bundle.one_time_pre_key {
        Some((id, k)) => (Some(*id), Some(ephemeral.diffie_hellman(k))),
        None => (None, None),
    };
    let key = derive_key(&dh1, &dh2, &dh3, dh4);
    let initiation = X3dhInitiation {
        initiator_identity: initiator.public(),
        ephemeral: ephemeral.public_key(),
        signed_pre_key_id: spk_id,
        one_time_pre_key_id: opk_id,
    };
    Ok((key, initiation))
}

/// Why a response to an initiation is refused.
pub open spec fn respond_error(
    initiation: InitiationModel,
    spk_id: u32,
    opk_id: Option<u32>,
) -> Option<Seq<char>> {
    if initiation.spk_id != spk_id {
        Some(
            "signed pre-key id mismatch: initiation="@ + decimal(initiation.spk_id as nat)
                + " local="@ + decimal(spk_id as nat),
        )
    } else {
        match (initiation.opk_id, opk_id) {
            (Some(used), Some(local)) => if used != local {
                Some(
                    "one-time pre-key id mismatch: initiation="@ + decimal(used as nat)
                        + " local="@ + decimal(local as nat),
                )
            } else {
                None
            },
            (Some(_), None) => Some("initiation 引用的 OPK 已被消耗"@),
            _ => None,
        }
    }
}

/// Arrives at the key of a session that a peer started. The pre-keys must be
/// the ones that the peer used.
///
/// Both sides arrive at one key: if the identity and ephemeral keys of the
/// initiation belong to secrets, the initiator with those secrets and these
/// pre-keys got the key that is returned here.
pub fn respond(
    responder: &IdentityKeyPair,
    spk: &SignedPreKey,
    opk: Option<&OneTimePreKey>,
    initiation: &X3dhInitiation,
) -> (r: Result<SessionKey, CryptoError>)
    ensures
        ({
            let opk_id = match opk {
                Some(k) => Some(k.key_id),
                None => None,
            };
            let used = match (initiation@.opk_id, opk) {
                (Some(_), Some(k)) => Some(k.secret@),
                _ => None,
            };
            match respond_error(initiation@, spk.key_id, opk_id) {
                Some(text) => r is Err && r->Err_0@ == CryptoErrorModel::Ratchet(text),
                None => {
                    &&& r is Ok
                    &&& r->Ok_0@ == responder_key(
                        responder.dh_secret(),
                        spk.secret@,
                        used,
                        initiation@.identity.dh,
                        initiation@.ephemeral,
                    )
                    &&& forall|a: Seq<u8>, e: Seq<u8>|
                        #![trigger x25519_public(a), x25519_public(e)]
                        a.len() == 32 && e.len() == 32 && initiation@.identity.dh == x25519_public(
                            a,
                        ) && initiation@.ephemeral == x25519_public(e) ==> r->Ok_0@
                            == initiator_key(
                            a,
                            e,
                            x25519_public(responder.dh_secret()),
                            x25519_public(spk.secret@),
                            match used {
                                Some(k) => Some(x25519_public(k)),
                                None => None,
                            },
                        )
                },
            }
        }),
{
    if initiation.signed_pre_key_id != spk.key_id {
        let mut s = String::from_str("signed pre-key id mismatch: initiation=");
        push_decimal(&mut s, initiation.signed_pre_key_id as u128);
        s.append(" local=");
        push_decimal(&mut s, spk.key_id as u128);
        return Err(CryptoError::Ratchet(s));
    }
    if let (Some(used), Some(local)) = (initiation.one_time_pre_key_id, opk) {
        if used != local.key_id {
            let mut s = String::from_str("one-time pre-key id mismatch: initiation=");
            push_decimal(&mut s, used as u128);
            s.append(" local=");
            push_decimal(&mut s, local.key_id as u128);
            return Err(CryptoError::Ratchet(s));
        }
    }
    if initiation.one_time_pre_key_id.is_some() && opk.is_none() {
        return Err(ratchet_error("initiation 引用的 OPK 已被消耗"));
    }
    let dh1 = spk.secret.diffie_hellman(&initiation.initiator_identity.dh);
    let dh2 = responder.dh.diffie_hellman(&initiation.ephemeral);
    let dh3 = spk.secret.diffie_hellman(&initiation.ephemeral);
    let dh4 = match (initiation.one_time_pre_key_id, opk) {
        (Some(_), Some(local)) => Some(local.secret.diffie_hellman(&initiation.ephemeral)),
        _ => None,
    };
    Ok(derive_key(&dh1, &dh2, &dh3, dh4))
}

// ---------------------------------------------------------------------------
// Laws
// ---------------------------------------------------------------------------

/// The key of a session is derived from everything that the two sides share: the
/// identity of the initiator with the signed pre-key, the ephemeral key with the
/// identity, the signed pre-key and, if there is one, the one-time pre-key of the
/// responder, behind thirty-two bytes that no key begins with.
pub proof fn law_key_comes_from_all_that_is_shared(
    a: Seq<u8>,
    e: Seq<u8>,
    identity: Seq<u8>,
    spk: Seq<u8>,
    opk: Option<Seq<u8>>,
)
    ensures
        ({
            let three = Seq::new(32, |i: int| 255u8) + x25519_shared(a, spk) + x25519_shared(
                e,
                identity,
            ) + x25519_shared(e, spk);
            let info = encode_utf8("im-e2ee-x3dh-v1"@);
            &&& opk is None ==> initiator_key(a, e, identity, spk, opk) == hkdf_sha256(
                None,
                three,
                info,
                32,
            )
            &&& opk matches Some(o) ==> initiator_key(a, e, identity, spk, opk) == hkdf_sha256(
                None,
                three + x25519_shared(e, o),
                info,
                32,
            )
        }),
{
    assert(separator() =~= Seq::new(32, |i: int| 255u8));
}

/// Both sides arrive at one key, with a one-time pre-key and without.
pub proof fn law_both_sides_arrive_at_one_key(
    a: Seq<u8>,
    e: Seq<u8>,
    b: Seq<u8>,
    s: Seq<u8>,
    o: Option<Seq<u8>>,
)
    requires
        x25519_shared(a, x25519_public(s)) == x25519_shared(s, x25519_public(a)),
        x25519_shared(e, x25519_public(b)) == x25519_shared(b, x25519_public(e)),
        x25519_shared(e, x25519_public(s)) == x25519_shared(s, x25519_public(e)),
        o matches Some(o) ==> x25519_shared(e, x25519_public(o)) == x25519_shared(
            o,
            x25519_public(e),
        ),
    ensures
        initiator_key(
            a,
            e,
            x25519_public(b),
            x25519_public(s),
            match o {
                Some(o) => Some(x25519_public(o)),
                None => None,
            },
        ) == responder_key(b, s, o, x25519_public(a), x25519_public(e)),
{
}

/// A session is started exactly with the owners of pre-keys whose signature is good,
/// and the signature covers the number and the key. The initiation names the
/// initiator, its ephemeral key and the pre-keys that were used.
pub proof fn law_session_needs_a_good_signature(
    initiator: &IdentityKeyPair,
    bundle: &PreKeyBundle,
    ephemeral: Seq<u8>,
    e: Seq<u8>,
    r: Result<(SessionKey, X3dhInitiation), CryptoError>,
)
    requires
        initiated(initiator, bundle, ephemeral, e, r),
    ensures
        ({
            let (id, spk, signature) = bundle.signed_pre_key;
            &&& r is Ok <==> ed25519_verify(
                bundle.identity@.verifying,
                be32_bytes(id) + spk@,
                signature@,
            )
            &&& r matches Err(error) ==> error@ == CryptoErrorModel::BadSignature
            &&& r matches Ok((_, m)) ==> {
                &&& m@.spk_id == id
                &&& m@.ephemeral == ephemeral
                &&& m@.identity.dh == x25519_public(initiator.dh_secret())
                &&& m@.identity.verifying == ed25519_public(initiator.signing_secret())
                &&& m@.opk_id is Some <==> bundle.one_time_pre_key is Some
                &&& bundle.one_time_pre_key matches Some((k, _)) ==> m@.opk_id == Some(k)
            }
        }),
{
}

/// A signature for one pre-key is none for another: what is signed tells the number
/// and the key.
pub proof fn law_signed_bytes_tell_the_key(id: u32, key: Seq<u8>, other_id: u32, other: Seq<u8>)
    requires
        signed_bytes(id, key) == signed_bytes(other_id, other),
    ensures
        id == other_id,
        key == other,
{
    let s = signed_bytes(id, key);
    law_be32_round_trip(id);
    law_be32_round_trip(other_id);
    assert(s.take(4) =~= be32_bytes(id));
    assert(s.take(4) =~= be32_bytes(other_id));
    assert(s.skip(4) =~= key);
    assert(s.skip(4) =~= other);
}

/// An initiation is answered exactly if it used the pre-keys at hand: the same
/// signed pre-key, and, if it used a one-time pre-key, the same one.
pub proof fn law_answer_needs_the_same_keys(m: InitiationModel, spk_id: u32, opk_id: Option<u32>)
    ensures
        respond_error(m, spk_id, opk_id) is None <==> m.spk_id == spk_id && (m.opk_id is None
            || m.opk_id == opk_id),
{
}

// ---------------------------------------------------------------------------
// The initiation on the wire
// ---------------------------------------------------------------------------

/// The bytes of an initiation.
pub open spec fn initiation_bytes(m: InitiationModel) -> Seq<u8> {
    let flag = if m.opk_id is Some {
        1u8
    } else {
        0u8
    };
    let fixed = seq![flag] + m.identity.dh + m.identity.verifying + m.ephemeral + be32_bytes(
        m.spk_id,
    );
    match m.opk_id {
        Some(id) => fixed + be32_bytes(id),
        None => fixed,
    }
}

/// The initiation that bytes stand for, or what is wrong with them. Bytes
/// behind it are ignored.
pub open spec fn parse_initiation(s: Seq<u8>) -> Result<InitiationModel, Seq<char>> {
    let prefix = "x3dh initiation decode failed: "@;
    if s.len() < 101 {
        Err(prefix + "长度不足"@)
    } else if s[0] % 2 == 1 && s.len() < 105 {
        Err(prefix + "声明了 OPK 却没有 OPK 字段"@)
    } else if !ed25519_key_ok(s.subrange(33, 65)) {
        Err(prefix + "身份验证钥字节非法"@)
    } else {
        Ok(
            InitiationModel {
                identity: IdentityModel {
                    verifying: s.subrange(33, 65),
                    dh: s.subrange(1, 33),
                },
                ephemeral: s.subrange(65, 97),
                spk_id: be32_value(s.subrange(97, 101)),
                opk_id: if s[0] % 2 == 1 {
                    Some(be32_value(s.subrange(101, 105)))
                } else {
                    None
                },
            },
        )
    }
}

/// An initiation with a well-formed identity reads back as it was written,
/// whatever follows it.
pub proof fn law_initiation_round_trip(m: InitiationModel, rest: Seq<u8>)
    requires
        m.identity.dh.len() == 32,
        m.identity.verifying.len() == 32,
        m.ephemeral.len() == 32,
        ed25519_key_ok(m.identity.verifying),
    ensures
        parse_initiation(initiation_bytes(m) + rest) == Ok::<InitiationModel, Seq<char>>(m),
{
    let s = initiation_bytes(m) + rest;
    law_be32_round_trip(m.spk_id);
    assert(s.subrange(1, 33) =~= m.identity.dh);
    assert(s.subrange(33, 65) =~= m.identity.verifying);
    assert(s.subrange(65, 97) =~= m.ephemeral);
    assert(s.subrange(97, 101) =~= be32_bytes(m.spk_id));
    if let Some(id) = m.opk_id {
        law_be32_round_trip(id);
        assert(s.subrange(101, 105) =~= be32_bytes(id));
    }
}

/// Bytes are an initiation exactly if they are long enough, with a one-time pre-key if
/// they announce one, and name an identity with a signing key.
pub proof fn law_what_an_initiation_needs(s: Seq<u8>)
    ensures
        parse_initiation(s) is Ok <==> s.len() >= 101 && (s[0] % 2 == 1 ==> s.len() >= 105)
            && ed25519_key_ok(s.subrange(33, 65)),
        parse_initiation(s) matches Ok(m) ==> (m.opk_id is Some <==> s[0] % 2 == 1),
{
}

/// The error of bytes that are not an initiation.
fn initiation_error(what: &str) -> (e: CryptoError)
    ensures
        e@ == CryptoErrorModel::Ratchet("x3dh initiation decode failed: "@ + what@),
{
    let mut s = String::from_str("x3dh initiation decode failed: ");
    s.append(what);
    CryptoError::Ratchet(s)
}

impl X3dhInitiation {
    /// The bytes of the initiation, which read back as the initiation, whatever
    /// follows them.
    #[must_use]
    pub fn encode(&self) -> (r: Vec<u8>)
        ensures
            r@ == initiation_bytes(self@),
            parse_initiation(r@) == Ok::<InitiationModel, Seq<char>>(self@),
            forall|rest: Seq<u8>|
                parse_initiation(#[trigger] (r@ + rest)) == Ok::<InitiationModel, Seq<char>>(
                    self@,
                ),
    {
        let mut out: Vec<u8> = Vec::new();
        out.push(
            if self.one_time_pre_key_id.is_some() {
                1
            } else {
                0
            },
        );
        put_slice(&mut out, self.initiator_identity.dh.to_bytes().as_slice());
        put_slice(&mut out, self.initiator_identity.verifying.to_bytes().as_slice());
        put_slice(&mut out, self.ephemeral.to_bytes().as_slice());
        put_be32(&mut out, self.signed_pre_key_id);
        if let Some(id) = self.one_time_pre_key_id {
            put_be32(&mut out, id);
        }
        assert(out@ =~= initiation_bytes(self@));
        proof {
            assert forall|rest: Seq<u8>|
                parse_initiation(#[trigger] (out@ + rest)) == Ok::<InitiationModel, Seq<char>>(
                    self@,
                ) by {
                law_initiation_round_trip(self@, rest);
            }
            assert(out@ + Seq::<u8>::empty() =~= out@);
        }
        out
    }

    /// The initiation that bytes stand for.
    pub fn decode(bytes: &[u8]) -> (r: Result<Self, CryptoError>)
        ensures
            match parse_initiation(bytes@) {
                Ok(m) => r is Ok && r->Ok_0@ == m,
                Err(text) => r is Err && r->Err_0@ == CryptoErrorModel::Ratchet(text),
            },
    {
        if bytes.len() < 101 {
            return Err(initiation_error("长度不足"));
        }
        let has_opk: bool = bytes[0] % 2 == 1;
        let dh = array_at(bytes, 1);
        let verifying = array_at(bytes, 33);
        let ephemeral = array_at(bytes, 65);
        let signed_pre_key_id: u32 = get_be32(bytes, 97);
        let one_time_pre_key_id: Option<u32> = if has_opk {
            if bytes.len() < 105 {
                return Err(initiation_error("声明了 OPK 却没有 OPK 字段"));
            }
            Some(get_be32(bytes, 101))
        } else {
            None
        };
        match VerifyingKey::from_bytes(verifying) {
            None => Err(initiation_error("身份验证钥字节非法")),
            Some(verifying) => Ok(
                X3dhInitiation {
                    initiator_identity: IdentityPublicKey {
                        verifying,
                        dh: PublicKey::from_bytes(dh),
                    },
                    ephemeral: PublicKey::from_bytes(ephemeral),
                    signed_pre_key_id,
                    one_time_pre_key_id,
                },
            ),
        }
    }
}

} // verus!
