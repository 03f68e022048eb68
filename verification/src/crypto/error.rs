//! What can go wrong in the encryption layer.

use vstd::prelude::*;

verus! {

/// A failure of the encryption layer.
#[derive(Debug, Clone, PartialEq, Eq)]
pub enum CryptoError {
    /// A certificate could not be made.
    Rcgen(String),
    /// A transport configuration could not be made.
    Rustls(String),
    /// The signature of a pre-key is not its owner's.
    BadSignature,
    /// The state of a session does not allow it.
    Ratchet(String),
}

/// What a [`CryptoError`] says.
pub enum CryptoErrorModel {
    Rcgen(Seq<char>),
    Rustls(Seq<char>),
    BadSignature,
    Ratchet(Seq<char>),
}

impl View for CryptoError {
    type V = CryptoErrorModel;

    open spec fn view(&self) -> CryptoErrorModel {
        match *self {
            CryptoError::Rcgen(s) => CryptoErrorModel::Rcgen(s@),
            CryptoError::Rustls(s) => CryptoErrorModel::Rustls(s@),
            CryptoError::BadSignature => CryptoErrorModel::BadSignature,
            CryptoError::Ratchet(s) => CryptoErrorModel::Ratchet(s@),
        }
    }
}

/// The message of an error.
pub open spec fn crypto_error_text(e: CryptoErrorModel) -> Seq<char> {
    match e {
        CryptoErrorModel::Rcgen(s) => "certificate generation failed: "@ + s,
        CryptoErrorModel::Rustls(s) => "rustls error: "@ + s,
        CryptoErrorModel::BadSignature => "prekey signature verification failed"@,
        CryptoErrorModel::Ratchet(s) => "ratchet state violation: "@ + s,
    }
}

/// A ratchet error with a fixed message.
pub(crate) fn ratchet_error(what: &str) -> (e: CryptoError)
    ensures
        e@ == CryptoErrorModel::Ratchet(what@),
{
    CryptoError::Ratchet(what.to_owned())
}

impl CryptoError {
    /// The error as a message.
    #[must_use]
    pub fn to_text(&self) -> (s: String)
        ensures
            s@ == crypto_error_text(self@),
    {
        let mut s = String::new();
        match self {
            CryptoError::Rcgen(what) => {
                s.append("certificate generation failed: ");
                s.append(what.as_str());
            },
            CryptoError::Rustls(what) => {
                s.append("rustls error: ");
                s.append(what.as_str());
            },
            CryptoError::BadSignature => {
                s.append("prekey signature verification failed");
            },
            CryptoError::Ratchet(what) => {
                s.append("ratchet state violation: ");
                s.append(what.as_str());
            },
        }
        assert(s@ =~= crypto_error_text(self@));
        s
    }
}

} // verus!
