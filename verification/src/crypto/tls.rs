//! The certificates of the transport: an authority of the process's own, and a
//! server certificate that it signs.

use rustls::ClientConfig as ClientTls;
use rustls::ServerConfig as ServerTls;
use vstd::prelude::*;
use crate::crypto::error::{CryptoError, CryptoErrorModel};

verus! {

/// `rcgen::KeyPair`: a key pair that signs certificates.
#[verifier::external_type_specification]
#[verifier::external_body]
pub struct ExKeyPair(rcgen::KeyPair);

/// `rcgen::Certificate`: a certificate with its parameters.
#[verifier::external_type_specification]
#[verifier::external_body]
pub struct ExCertificate(rcgen::Certificate);

/// `rcgen::Error`: why a certificate could not be made.
#[verifier::external_type_specification]
#[verifier::external_body]
pub struct ExRcgenError(rcgen::Error);

/// `rustls::ServerConfig`: the configuration of a server.
#[verifier::external_type_specification]
#[verifier::external_body]
pub struct ExServerTls(ServerTls);

/// `rustls::ClientConfig`: the configuration of a client.
#[verifier::external_type_specification]
#[verifier::external_body]
pub struct ExClientTls(ClientTls);

/// `rustls::Error`: why a configuration could not be made.
#[verifier::external_type_specification]
#[verifier::external_body]
pub struct ExRustlsError(rustls::Error);

/// Whether a key pair was made in this process by the maker of key pairs, and so
/// can be written out.
pub uninterp spec fn key_pair_local(key: rcgen::KeyPair) -> bool;

/// A key pair in PKCS#8 form.
pub uninterp spec fn key_bytes(key: rcgen::KeyPair) -> Seq<u8>;

/// The bytes of a certificate.
pub uninterp spec fn certificate_bytes(cert: rcgen::Certificate) -> Seq<u8>;

/// Whether the bytes are a certificate for these names and a holder of this name,
/// of an authority or not, and for the public half of this key.
pub uninterp spec fn certificate_for(
    cert: Seq<u8>,
    names: Seq<Seq<char>>,
    common_name: Seq<char>,
    authority: bool,
    key: Seq<u8>,
) -> bool;

/// Whether a certificate names the holder of another as its issuer and is signed
/// with this key.
pub uninterp spec fn certificate_issued_by(
    cert: Seq<u8>,
    authority: Seq<u8>,
    authority_key: Seq<u8>,
) -> bool;

/// The bytes of a certificate as text, with the line ends of one platform or the
/// other.
pub uninterp spec fn pem_text(cert: Seq<u8>, crlf: bool) -> Seq<char>;

/// What configuring a server with a certificate and its key comes to: nothing, or
/// what is wrong.
pub uninterp spec fn server_config_outcome(cert: Seq<u8>, key: Seq<u8>) -> Result<(), Seq<char>>;

/// What configuring a client to trust a certificate comes to: nothing, or what is
/// wrong.
pub uninterp spec fn client_config_outcome(authority: Seq<u8>) -> Result<(), Seq<char>>;

/// Whether an error came from a key or a certificate that could not be used.
pub uninterp spec fn rustls_refusal(error: rustls::Error) -> bool;

/// What an error of the transport's configuration says.
pub uninterp spec fn rustls_message(error: rustls::Error) -> Seq<char>;

/// Whether a server can be configured with a certificate and its key.
pub open spec fn server_config_ok(cert: Seq<u8>, key: Seq<u8>) -> bool {
    server_config_outcome(cert, key) is Ok
}

/// Whether a client can be configured to trust a certificate.
pub open spec fn client_config_ok(authority: Seq<u8>) -> bool {
    client_config_outcome(authority) is Ok
}

/// The text is that of the certificate, whatever its line ends are.
pub open spec fn is_pem(text: Seq<char>, cert: Seq<u8>) -> bool {
    text == pem_text(cert, false) || text == pem_text(cert, true)
}

/// Whether a server shows this certificate, and no other, and signs with this key.
pub uninterp spec fn server_shows(config: ServerTls, cert: Seq<u8>, key: Seq<u8>) -> bool;

/// Whether a client trusts what this certificate's holder signs, and nobody else.
pub uninterp spec fn client_trusts(config: ClientTls, authority: Seq<u8>) -> bool;

/// What an error of the certificate maker says.
pub uninterp spec fn rcgen_message(error: rcgen::Error) -> Seq<char>;

/// Whose certificate is asked for.
#[derive(Debug, Clone, Copy, PartialEq, Eq, Structural)]
pub enum CertHolder {
    /// Somebody who signs no certificates.
    Subject,
    /// An authority without constraints.
    Authority,
}

/// What a certificate is asked for.
#[derive(Debug, Clone, PartialEq, Eq)]
pub struct CertRequest {
    /// The names for which it is good.
    pub names: Vec<String>,
    /// The name of its holder.
    pub common_name: String,
    /// Whose it is.
    pub holder: CertHolder,
}

/// What a [`CertRequest`] asks for.
#[verifier::ext_equal]
pub struct RequestModel {
    pub names: Seq<Seq<char>>,
    pub common_name: Seq<char>,
    pub holder: CertHolder,
}

impl View for CertRequest {
    type V = RequestModel;

    open spec fn view(&self) -> RequestModel {
        RequestModel {
            names: self.names@.map_values(|s: String| s@),
            common_name: self.common_name@,
            holder: self.holder,
        }
    }
}

/// A request for eight names at most, all of them of sixty-four characters at
/// most.
pub open spec fn modest(request: RequestModel) -> bool {
    &&& request.names.len() <= 8
    &&& forall|i: int| 0 <= i < request.names.len() ==> (#[trigger] request.names[i]).len() <= 64
    &&& request.common_name.len() <= 64
}

/// The bytes are a certificate as it was asked for.
pub open spec fn certifies(cert: Seq<u8>, request: RequestModel, key: Seq<u8>) -> bool {
    certificate_for(
        cert,
        request.names,
        request.common_name,
        request.holder is Authority,
        key,
    )
}

/// `rcgen::KeyPair::generate`: a random key pair for ECDSA over P-256, made in this
/// process. Nothing else is said of it.
#[verifier::external_body]
fn key_pair_generate() -> (r: Result<rcgen::KeyPair, rcgen::Error>)
    ensures
        r matches Ok(key) ==> key_pair_local(key),
{
    rcgen::KeyPair::generate()
}

/// `rcgen::KeyPair::serialize_der`: the key pair in PKCS#8 form, as it was kept
/// when it was made. A key pair that is kept elsewhere has none.
#[verifier::external_body]
fn key_pair_der(key: &rcgen::KeyPair) -> (r: Vec<u8>)
    requires
        key_pair_local(*key),
    ensures
        r@ == key_bytes(*key),
{
    key.serialize_der()
}

/// `rcgen::CertificateParams::self_signed`: a certificate as it was asked for,
/// signed with its own key. It is a certificate that `rustls` can read as one to
/// trust. Besides a few hundred bytes it holds each of the names once and the
/// holder's name twice. Signatures are random, so nothing is said of its bytes.
#[verifier::external_body]
fn authority_certificate(request: CertRequest, key: &rcgen::KeyPair) -> (r: Result<
    rcgen::Certificate,
    rcgen::Error,
>)
    requires
        modest(request@),
        key_pair_local(*key),
    ensures
        r matches Ok(cert) ==> {
            &&& certificate_for(
                certificate_bytes(cert),
                request@.names,
                request@.common_name,
                request@.holder is Authority,
                key_bytes(*key),
            )
            &&& certificate_issued_by(
                certificate_bytes(cert),
                certificate_bytes(cert),
                key_bytes(*key),
            )
            &&& client_config_ok(certificate_bytes(cert))
            &&& certificate_bytes(cert).len() <= 4096
        },
{
    let mut params = rcgen::CertificateParams::new(request.names)?;
    params.distinguished_name.push(rcgen::DnType::CommonName, request.common_name);
    params.is_ca = match request.holder {
        CertHolder::Subject => rcgen::IsCa::NoCa,
        CertHolder::Authority => rcgen::IsCa::Ca(rcgen::BasicConstraints::Unconstrained),
    };
    params.self_signed(key)
}

/// `rcgen::CertificateParams::signed_by`: a certificate for the key, as it was
/// asked for, that names the authority's holder as its issuer and is signed with
/// the authority's key. It is a certificate that `rustls` can read and that
/// matches the key: both hold the public key in the same form. Signatures are
/// random, so nothing is said of its bytes.
#[verifier::external_body]
fn leaf_certificate(
    request: CertRequest,
    key: &rcgen::KeyPair,
    authority: &rcgen::Certificate,
    authority_key: &rcgen::KeyPair,
) -> (r: Result<rcgen::Certificate, rcgen::Error>)
    requires
        modest(request@),
        key_pair_local(*key),
        key_pair_local(*authority_key),
        certificate_bytes(*authority).len() <= 4096,
    ensures
        r matches Ok(cert) ==> {
            &&& certificate_for(
                certificate_bytes(cert),
                request@.names,
                request@.common_name,
                request@.holder is Authority,
                key_bytes(*key),
            )
            &&& certificate_issued_by(
                certificate_bytes(cert),
                certificate_bytes(*authority),
                key_bytes(*authority_key),
            )
            &&& server_config_ok(certificate_bytes(cert), key_bytes(*key))
        },
{
    let mut params = rcgen::CertificateParams::new(request.names)?;
    params.distinguished_name.push(rcgen::DnType::CommonName, request.common_name);
    params.is_ca = match request.holder {
        CertHolder::Subject => rcgen::IsCa::NoCa,
        CertHolder::Authority => rcgen::IsCa::Ca(rcgen::BasicConstraints::Unconstrained),
    };
    params.signed_by(key, authority, authority_key)
}

/// `rcgen::Certificate::der`: the bytes of the certificate.
#[verifier::external_body]
fn certificate_der(cert: &rcgen::Certificate) -> (r: Vec<u8>)
    ensures
        r@ == certificate_bytes(*cert),
{
    cert.der().to_vec()
}

/// `rcgen::Certificate::pem`: the certificate as text, between the lines that
/// mark its beginning and its end. The text depends on the bytes of the certificate
/// and on the line ends, which are the platform's: a line feed, or a carriage
/// return before it.
#[verifier::external_body]
fn certificate_pem(cert: &rcgen::Certificate) -> (r: String)
    ensures
        armored(r@),
        r@ == pem_text(certificate_bytes(*cert), false) || r@ == pem_text(
            certificate_bytes(*cert),
            true,
        ),
{
    cert.pem()
}

/// `rcgen::Error` as `Display` prints it. The text depends on the error alone: each
/// kind of error has a fixed text, with what the error holds filled in.
#[verifier::external_body]
fn rcgen_text(error: &rcgen::Error) -> (r: String)
    ensures
        r@ == rcgen_message(*error),
{
    error.to_string()
}

/// `rustls::ServerConfig::builder_with_provider`: a server with one certificate
/// and the `ring` provider, which asks clients for none. Whether there is one, and
/// why not, depends on the certificate and the key alone; it shows the certificate
/// to every client and signs with the key. Nothing else is said of it.
#[verifier::external_body]
fn server_config_of(cert: Vec<u8>, key: Vec<u8>) -> (r: Result<ServerTls, rustls::Error>)
    ensures
        match r {
            Ok(config) => server_config_outcome(cert@, key@) is Ok && server_shows(
                config,
                cert@,
                key@,
            ),
            Err(error) => rustls_refusal(error) && server_config_outcome(cert@, key@) == Err::<
                (),
                Seq<char>,
            >(rustls_message(error)),
        },
{
    let provider = std::sync::Arc::new(rustls::crypto::ring::default_provider());
    ServerTls::builder_with_provider(provider)
        .with_safe_default_protocol_versions()?
        .with_no_client_auth()
        .with_single_cert(
            vec![rustls::pki_types::CertificateDer::from(cert)],
            rustls::pki_types::PrivateKeyDer::Pkcs8(key.into()),
        )
}

/// `rustls::ClientConfig::builder_with_provider`: a client that trusts one
/// certificate, with the `ring` provider and no certificate of its own. Whether
/// there is one, and why not, depends on the certificate alone, which is all that it
/// trusts. Nothing else is said of it.
#[verifier::external_body]
fn client_config_of(authority: Vec<u8>) -> (r: Result<ClientTls, rustls::Error>)
    ensures
        match r {
            Ok(config) => client_config_outcome(authority@) is Ok && client_trusts(
                config,
                authority@,
            ),
            Err(error) => rustls_refusal(error) && client_config_outcome(authority@) == Err::<
                (),
                Seq<char>,
            >(rustls_message(error)),
        },
{
    let mut roots = rustls::RootCertStore::empty();
    roots.add(rustls::pki_types::CertificateDer::from(authority))
        .map_err(|e| rustls::Error::General(e.to_string()))?;
    let provider = std::sync::Arc::new(rustls::crypto::ring::default_provider());
    Ok(ClientTls::builder_with_provider(provider)
        .with_safe_default_protocol_versions()?
        .with_root_certificates(roots)
        .with_no_client_auth())
}

/// `rustls::Error` as `Display` prints it. The text depends on the error alone: each
/// kind of error has a fixed text, with what the error holds filled in. That need
/// not be so of an error that holds another crate's; a refusal holds at most one of
/// `webpki`, which prints its name and its fields.
#[verifier::external_body]
fn rustls_text(error: &rustls::Error) -> (r: String)
    requires
        rustls_refusal(*error),
    ensures
        r@ == rustls_message(*error),
{
    error.to_string()
}

/// The line that marks the beginning of a certificate.
pub const BEGIN_MARK: &'static str = "-----BEGIN CERTIFICATE-----";

/// The line that marks the end of a certificate.
pub const END_MARK: &'static str = "-----END CERTIFICATE-----";

/// The text begins with the mark of the beginning and holds the mark of the end.
pub open spec fn armored(text: Seq<char>) -> bool {
    &&& BEGIN_MARK@.is_prefix_of(text)
    &&& exists|at: int|
        0 <= at && at + END_MARK@.len() <= text.len() && #[trigger] text.subrange(
            at,
            at + END_MARK@.len(),
        ) == END_MARK@
}

/// The certificates of a transport: that of an authority, and that of a server
/// with its key.
#[derive(Debug)]
pub struct TlsMaterial {
    ca_cert_der: Vec<u8>,
    ca_pem: String,
    server_cert_der: Vec<u8>,
    server_pem: String,
    server_key_der: Vec<u8>,
}

/// What a [`TlsMaterial`] holds.
pub struct TlsModel {
    pub ca_cert: Seq<u8>,
    pub ca_pem: Seq<char>,
    pub server_cert: Seq<u8>,
    pub server_pem: Seq<char>,
    pub server_key: Seq<u8>,
}

impl View for TlsMaterial {
    type V = TlsModel;

    closed spec fn view(&self) -> TlsModel {
        TlsModel {
            ca_cert: self.ca_cert_der@,
            ca_pem: self.ca_pem@,
            server_cert: self.server_cert_der@,
            server_pem: self.server_pem@,
            server_key: self.server_key_der@,
        }
    }
}

impl Clone for TlsMaterial {
    fn clone(&self) -> (r: Self)
        ensures
            r@ == self@,
    {
        proof {
            use_type_invariant(self);
        }
        TlsMaterial {
            ca_cert_der: self.ca_cert_der.clone(),
            ca_pem: self.ca_pem.clone(),
            server_cert_der: self.server_cert_der.clone(),
            server_pem: self.server_pem.clone(),
            server_key_der: self.server_key_der.clone(),
        }
    }
}

/// The name of the authority.
pub const AUTHORITY_NAME: &'static str = "rust-im demo CA";

/// What the authority's certificate is asked for.
pub open spec fn authority_asks() -> RequestModel {
    RequestModel {
        names: seq![AUTHORITY_NAME@],
        common_name: AUTHORITY_NAME@,
        holder: CertHolder::Authority,
    }
}

/// What the server's certificate is asked for: the host's name and its loopback
/// address.
pub open spec fn server_asks() -> RequestModel {
    RequestModel {
        names: seq!["localhost"@, "127.0.0.1"@],
        common_name: "localhost"@,
        holder: CertHolder::Subject,
    }
}

/// The server's certificate is asked for the host's name and its loopback address and
/// for nothing else, and is none of an authority; the authority's is.
pub proof fn law_what_certificates_are_for(name: Seq<char>)
    ensures
        server_asks().names.contains(name) <==> name == "localhost"@ || name == "127.0.0.1"@,
        server_asks().holder == CertHolder::Subject,
        authority_asks().holder == CertHolder::Authority,
        authority_asks().common_name == "rust-im demo CA"@,
{
    let names = server_asks().names;
    assert(names[0] == "localhost"@ && names[1] == "127.0.0.1"@);
}

/// The names for which the server's certificate is good: the host's name and its
/// loopback address.
pub fn server_names() -> (r: Vec<String>)
    ensures
        r@.len() == 2,
        r@[0]@ == "localhost"@,
        r@[1]@ == "127.0.0.1"@,
{
    let mut names: Vec<String> = Vec::new();
    names.push("localhost".to_owned());
    names.push("127.0.0.1".to_owned());
    names
}

/// What the authority's certificate is asked for.
pub fn authority_request() -> (r: CertRequest)
    ensures
        r@ == authority_asks(),
        modest(r@),
{
    let mut names: Vec<String> = Vec::new();
    names.push(AUTHORITY_NAME.to_owned());
    let r = CertRequest {
        names,
        common_name: AUTHORITY_NAME.to_owned(),
        holder: CertHolder::Authority,
    };
    proof {
        reveal_strlit("rust-im demo CA");
        assert(r@.names =~= authority_asks().names);
    }
    r
}

/// What the server's certificate is asked for.
pub fn server_request() -> (r: CertRequest)
    ensures
        r@ == server_asks(),
        modest(r@),
{
    let r = CertRequest {
        names: server_names(),
        common_name: "localhost".to_owned(),
        holder: CertHolder::Subject,
    };
    proof {
        reveal_strlit("localhost");
        reveal_strlit("127.0.0.1");
        assert(r@.names =~= server_asks().names);
    }
    r
}

/// An error of the certificate maker, with what it says.
pub fn rcgen_error(error: rcgen::Error) -> (r: CryptoError)
    ensures
        r@ == CryptoErrorModel::Rcgen(rcgen_message(error)),
{
    CryptoError::Rcgen(rcgen_text(&error))
}

impl TlsMaterial {
    /// The texts are those of the certificates, between their marks.
    #[verifier::type_invariant]
    pub open spec fn wf(self) -> bool {
        &&& armored(self@.ca_pem)
        &&& armored(self@.server_pem)
        &&& is_pem(self@.ca_pem, self@.ca_cert)
        &&& is_pem(self@.server_pem, self@.server_cert)
    }

    /// What two certificates and the key of the second make.
    #[must_use]
    pub fn material_of(
        ca_cert: &rcgen::Certificate,
        server_cert: &rcgen::Certificate,
        server_key: &rcgen::KeyPair,
    ) -> (r: Self)
        requires
            key_pair_local(*server_key),
        ensures
            r.wf(),
            r@.ca_cert == certificate_bytes(*ca_cert),
            r@.server_cert == certificate_bytes(*server_cert),
            r@.server_key == key_bytes(*server_key),
            is_pem(r@.ca_pem, certificate_bytes(*ca_cert)),
            is_pem(r@.server_pem, certificate_bytes(*server_cert)),
    {
        TlsMaterial {
            ca_cert_der: certificate_der(ca_cert),
            ca_pem: certificate_pem(ca_cert),
            server_cert_der: certificate_der(server_cert),
            server_pem: certificate_pem(server_cert),
            server_key_der: key_pair_der(server_key),
        }
    }

    /// Makes an authority, and a server certificate that it signs: both are what
    /// was asked for, the server's is signed with the authority's key, and both
    /// sides can be configured with them.
    pub fn generate_demo() -> (r: Result<Self, CryptoError>)
        ensures
            match r {
                Ok(m) => {
                    &&& m.wf()
                    &&& is_pem(m@.ca_pem, m@.ca_cert)
                    &&& is_pem(m@.server_pem, m@.server_cert)
                    &&& certifies(m@.server_cert, server_asks(), m@.server_key)
                    &&& exists|ca_key: Seq<u8>|
                        certifies(m@.ca_cert, authority_asks(), ca_key)
                            && #[trigger] certificate_issued_by(m@.server_cert, m@.ca_cert, ca_key)
                    &&& server_config_ok(m@.server_cert, m@.server_key)
                    &&& client_config_ok(m@.ca_cert)
                },
                Err(error) => exists|e: rcgen::Error|
                    error@ == CryptoErrorModel::Rcgen(#[trigger] rcgen_message(e)),
            },
    {
        let ca_key = match key_pair_generate() {
            Ok(key) => key,
            Err(error) => return Err(rcgen_error(error)),
        };
        let ca_cert = match authority_certificate(authority_request(), &ca_key) {
            Ok(cert) => cert,
            Err(error) => return Err(rcgen_error(error)),
        };
        let server_key = match key_pair_generate() {
            Ok(key) => key,
            Err(error) => return Err(rcgen_error(error)),
        };
        let server_cert = match leaf_certificate(
            server_request(),
            &server_key,
            &ca_cert,
            &ca_key,
        ) {
            Ok(cert) => cert,
            Err(error) => return Err(rcgen_error(error)),
        };
        Ok(Self::material_of(&ca_cert, &server_cert, &server_key))
    }

    /// The authority's certificate as text.
    #[must_use]
    pub fn ca_cert_pem(&self) -> (r: String)
        ensures
            r@ == self@.ca_pem,
            armored(r@),
            is_pem(r@, self@.ca_cert),
    {
        proof {
            use_type_invariant(self);
        }
        self.ca_pem.clone()
    }

    /// The server's certificate as text.
    #[must_use]
    pub fn server_cert_pem(&self) -> (r: String)
        ensures
            r@ == self@.server_pem,
            armored(r@),
            is_pem(r@, self@.server_cert),
    {
        proof {
            use_type_invariant(self);
        }
        self.server_pem.clone()
    }

    /// The configuration of a server with the server's certificate.
    pub fn server_config(&self) -> (r: Result<ServerTls, CryptoError>)
        ensures
            r is Ok == server_config_ok(self@.server_cert, self@.server_key),
            r matches Ok(config) ==> server_shows(config, self@.server_cert, self@.server_key),
            r matches Err(error) ==> server_config_outcome(self@.server_cert, self@.server_key)
                matches Err(text) && error@ == CryptoErrorModel::Rustls(text),
    {
        match server_config_of(self.server_cert_der.clone(), self.server_key_der.clone()) {
            Ok(config) => Ok(config),
            Err(error) => Err(CryptoError::Rustls(rustls_text(&error))),
        }
    }

    /// The configuration of a client that trusts the authority and nobody else.
    pub fn client_config(&self) -> (r: Result<ClientTls, CryptoError>)
        ensures
            r is Ok == client_config_ok(self@.ca_cert),
            r matches Ok(config) ==> client_trusts(config, self@.ca_cert),
            r matches Err(error) ==> client_config_outcome(self@.ca_cert) matches Err(text)
                && error@ == CryptoErrorModel::Rustls(text),
    {
        match client_config_of(self.ca_cert_der.clone()) {
            Ok(config) => Ok(config),
            Err(error) => Err(CryptoError::Rustls(rustls_text(&error))),
        }
    }
}

} // verus!
