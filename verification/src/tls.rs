//! The certificate and private key of the encrypted transports.
//!
//! They are read from PEM text, or made up for `localhost` (handy for local
//! testing). What they are used for is left to the caller.

use rustls::pki_types::PrivateKeyDer;
use vstd::prelude::*;

verus! {

/// How a private key is encoded.
#[derive(Debug, Clone, Copy, PartialEq, Eq, Structural)]
pub enum KeyFormat {
    Pkcs1,
    Sec1,
    Pkcs8,
}

/// A private key.
#[derive(Debug)]
pub struct PrivateKey {
    pub format: KeyFormat,
    pub der: Vec<u8>,
}

/// A certificate chain and the private key that goes with it.
#[derive(Debug)]
pub struct Identity {
    pub certs: Vec<Vec<u8>>,
    pub key: PrivateKey,
}

/// Why there is no certificate or key.
#[derive(Debug, Clone, Copy, PartialEq, Eq, Structural)]
pub enum IdentityError {
    /// The PEM text of the certificates is malformed.
    BadCertificate,
    /// There is no certificate in the PEM text.
    NoCertificate,
    /// The PEM text of the key is malformed.
    BadKey,
    /// There is no private key in the PEM text.
    NoKey,
    /// No certificate could be made up.
    Generation,
}

/// The octets of each of a list.
pub open spec fn octet_views(v: Seq<Vec<u8>>) -> Seq<Seq<u8>> {
    v.map_values(|x: Vec<u8>| x@)
}

/// The certificates in PEM text, in order; none where the text is malformed.
pub uninterp spec fn pem_certificates(pem: Seq<u8>) -> Option<Seq<Seq<u8>>>;

/// The first private key in PEM text, if there is one; nothing where the text is
/// malformed before it.
pub uninterp spec fn pem_private_key(pem: Seq<u8>) -> Option<Option<(KeyFormat, Seq<u8>)>>;

/// `rustls_pemfile::certs`, with its items collected: the certificates, or nothing
/// where one of the items is an error. Which, is a function of the text alone.
#[verifier::external_body]
fn read_certificates(pem: &[u8]) -> (r: Option<Vec<Vec<u8>>>)
    ensures
        match r {
            Some(v) => pem_certificates(pem@) == Some(octet_views(v@)),
            None => pem_certificates(pem@) is None,
        },
{
    let mut rd = pem;
    rustls_pemfile::certs(&mut rd).map(|c| c.ok().map(|der| der.to_vec())).collect()
}

/// `rustls_pemfile::private_key`: the first private key, if there is one, or nothing
/// where an error was met first. Which, is a function of the text alone.
#[verifier::external_body]
fn read_private_key(pem: &[u8]) -> (r: Option<Option<PrivateKey>>)
    ensures
        match r {
            Some(Some(k)) => pem_private_key(pem@) == Some(Some((k.format, k.der@))),
            Some(None) => pem_private_key(pem@) == Some(None::<(KeyFormat, Seq<u8>)>),
            None => pem_private_key(pem@) is None,
        },
{
    let mut rd = pem;
    let found = rustls_pemfile::private_key(&mut rd).ok()?;
    let (format, der) = match &found {
        Some(PrivateKeyDer::Pkcs1(k)) => (KeyFormat::Pkcs1, k.secret_pkcs1_der()),
        Some(PrivateKeyDer::Sec1(k)) => (KeyFormat::Sec1, k.secret_sec1_der()),
        Some(PrivateKeyDer::Pkcs8(k)) => (KeyFormat::Pkcs8, k.secret_pkcs8_der()),
        _ => return Some(None),
    };
    Some(Some(PrivateKey { format, der: der.to_vec() }))
}

/// `rcgen::generate_simple_self_signed`: a new certificate for the name and its
/// private key, or nothing where that failed. Nothing is promised of them, since
/// the key is drawn by chance.
#[verifier::external_body]
fn generate_for(name: String) -> Option<(Vec<u8>, Vec<u8>)> {
    rcgen::generate_simple_self_signed(vec![name]).ok().map(
        |made| (made.cert.der().to_vec(), made.key_pair.serialize_der()),
    )
}

/// Takes the certificates that were found, of which there has to be one at least.
pub fn accept_certificates(found: Option<Vec<Vec<u8>>>) -> (r: Result<Vec<Vec<u8>>, IdentityError>)
    ensures
        r == (match found {
            Some(v) => if v@.len() > 0 {
                Ok(v)
            } else {
                Err(IdentityError::NoCertificate)
            },
            None => Err(IdentityError::BadCertificate),
        }),
{
    match found {
        Some(v) => if v.len() > 0 {
            Ok(v)
        } else {
            Err(IdentityError::NoCertificate)
        },
        None => Err(IdentityError::BadCertificate),
    }
}

/// Takes the private key that was found.
pub fn accept_key(found: Option<Option<PrivateKey>>) -> (r: Result<PrivateKey, IdentityError>)
    ensures
        r == (match found {
            Some(Some(k)) => Ok(k),
            Some(None) => Err(IdentityError::NoKey),
            None => Err(IdentityError::BadKey),
        }),
{
    match found {
        Some(Some(k)) => Ok(k),
        Some(None) => Err(IdentityError::NoKey),
        None => Err(IdentityError::BadKey),
    }
}

/// Reads a certificate chain from PEM text.
pub fn certificates(pem: &[u8]) -> (r: Result<Vec<Vec<u8>>, IdentityError>)
    ensures
        match (pem_certificates(pem@), r) {
            (Some(cs), Ok(v)) => cs.len() > 0 && octet_views(v@) == cs,
            (Some(cs), Err(e)) => cs.len() == 0 && e == IdentityError::NoCertificate,
            (None, Err(e)) => e == IdentityError::BadCertificate,
            (None, Ok(_)) => false,
        },
{
    let found = read_certificates(pem);
    assert(found matches Some(v) ==> octet_views(v@).len() == v@.len());
    accept_certificates(found)
}

/// Reads a private key from PEM text.
pub fn private_key(pem: &[u8]) -> (r: Result<PrivateKey, IdentityError>)
    ensures
        match (pem_private_key(pem@), r) {
            (Some(Some((format, der))), Ok(k)) => k.format == format && k.der@ == der,
            (Some(None), Err(e)) => e == IdentityError::NoKey,
            (None, Err(e)) => e == IdentityError::BadKey,
            _ => false,
        },
{
    accept_key(read_private_key(pem))
}

/// Takes the certificate and private key that were generated, if they were.
pub fn identity_of(made: Option<(Vec<u8>, Vec<u8>)>) -> (r: Result<Identity, IdentityError>)
    ensures
        match made {
            Some((cert, der)) => r matches Ok(i) && octet_views(i.certs@) == seq![cert@]
                && i.key.format == KeyFormat::Pkcs8 && i.key.der@ == der@,
            None => r matches Err(e) && e == IdentityError::Generation,
        },
{
    match made {
        Some((cert, der)) => {
            let mut certs: Vec<Vec<u8>> = Vec::new();
            certs.push(cert);
            assert(octet_views(certs@) =~= seq![cert@]);
            Ok(Identity { certs, key: PrivateKey { format: KeyFormat::Pkcs8, der } })
        },
        None => Err(IdentityError::Generation),
    }
}

/// The name that a self-signed certificate is for.
pub fn self_signed_name() -> (r: String)
    ensures
        r@ == "localhost"@,
{
    "localhost".to_owned()
}

/// Makes up a self-signed certificate and key for `localhost`.
pub fn self_signed() -> (r: Result<Identity, IdentityError>)
    ensures
        match r {
            Ok(i) => i.certs@.len() == 1 && i.key.format == KeyFormat::Pkcs8,
            Err(e) => e == IdentityError::Generation,
        },
{
    let made = generate_for(self_signed_name());
    let r = identity_of(made);
    assert(r matches Ok(i) ==> octet_views(i.certs@).len() == i.certs@.len());
    r
}

} // verus!
