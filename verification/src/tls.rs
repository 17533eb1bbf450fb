//! TLS termination: the certificate and key that the gateway shows, read from
//! PEM files.

use crate::config::TlsConfig;
use crate::text;
use vstd::prelude::*;

verus! {

/// Why TLS could not be set up.
#[derive(Debug)]
pub enum TlsSetupError {
    /// The certificate file could not be read.
    ReadCert(String),
    /// The key file could not be read.
    ReadKey(String),
    /// The certificate file holds no certificate.
    EmptyCertChain(String),
    /// The key file holds no key.
    EmptyKey(String),
    /// The key was refused.
    Rustls(String),
}

impl TlsSetupError {
    /// What the operator is told.
    pub open spec fn spec_message(self) -> Seq<char> {
        match self {
            TlsSetupError::ReadCert(path) => "no se pudo leer el certificado en '"@ + path@ + "'"@,
            TlsSetupError::ReadKey(path) => "no se pudo leer la private key en '"@ + path@ + "'"@,
            TlsSetupError::EmptyCertChain(path) => "el archivo de certificado '"@ + path@
                + "' no tiene ningún certificado PEM adentro"@,
            TlsSetupError::EmptyKey(path) => "el archivo de key '"@ + path@
                + "' no tiene ninguna private key PEM reconocible (probá PKCS#8 o RSA)"@,
            TlsSetupError::Rustls(e) => "rustls rechazó la configuración: "@ + e@,
        }
    }

    /// What the operator is told.
    pub fn message(&self) -> (s: String)
        ensures
            s@ == self.spec_message(),
    {
        match self {
            TlsSetupError::ReadCert(path) => text::concat3(
                "no se pudo leer el certificado en '",
                path.as_str(),
                "'",
            ),
            TlsSetupError::ReadKey(path) => text::concat3(
                "no se pudo leer la private key en '",
                path.as_str(),
                "'",
            ),
            TlsSetupError::EmptyCertChain(path) => text::concat3(
                "el archivo de certificado '",
                path.as_str(),
                "' no tiene ningún certificado PEM adentro",
            ),
            TlsSetupError::EmptyKey(path) => text::concat3(
                "el archivo de key '",
                path.as_str(),
                "' no tiene ninguna private key PEM reconocible (probá PKCS#8 o RSA)",
            ),
            TlsSetupError::Rustls(e) => text::concat2(
                "rustls rechazó la configuración: ",
                e.as_str(),
            ),
        }
    }
}

/// The certificates in a PEM text, if it can be read.
pub uninterp spec fn pem_certs(pem: Seq<u8>) -> Option<Seq<Seq<u8>>>;

/// The keys in PKCS#8 format in a PEM text, if it can be read.
pub uninterp spec fn pem_pkcs8_keys(pem: Seq<u8>) -> Option<Seq<Seq<u8>>>;

/// The keys in RSA format in a PEM text, if it can be read.
pub uninterp spec fn pem_rsa_keys(pem: Seq<u8>) -> Option<Seq<Seq<u8>>>;

/// What the gateway shows and signs with when a client connects, and the
/// protocols that it offers.
#[derive(Debug)]
pub struct Credentials {
    /// The certificate chain.
    pub certs: Vec<Vec<u8>>,
    /// The private key.
    pub key: Vec<u8>,
    /// The protocols, by preference.
    pub protocols: Vec<Vec<u8>>,
}

/// Lists of bytes.
pub open spec fn byte_lists(v: Seq<Vec<u8>>) -> Seq<Seq<u8>> {
    v.map_values(|b: Vec<u8>| b@)
}

/// Lists of bytes that may be missing.
pub open spec fn opt_byte_lists(v: Option<Vec<Vec<u8>>>) -> Option<Seq<Seq<u8>>> {
    match v {
        Some(v) => Some(byte_lists(v@)),
        None => None,
    }
}

/// `rustls_pemfile::certs`: the certificates in a PEM text. Which they are is
/// named.
#[verifier::external_body]
fn read_certs(pem: &[u8]) -> (r: Option<Vec<Vec<u8>>>)
    ensures
        opt_byte_lists(r) == pem_certs(pem@),
{
    let mut reader: &[u8] = pem;
    rustls_pemfile::certs(&mut reader).ok()
}

/// `rustls_pemfile::pkcs8_private_keys`: the PKCS#8 keys in a PEM text. Which
/// they are is named.
#[verifier::external_body]
fn read_pkcs8_keys(pem: &[u8]) -> (r: Option<Vec<Vec<u8>>>)
    ensures
        opt_byte_lists(r) == pem_pkcs8_keys(pem@),
{
    let mut reader: &[u8] = pem;
    rustls_pemfile::pkcs8_private_keys(&mut reader).ok()
}

/// `rustls_pemfile::rsa_private_keys`: the RSA keys in a PEM text. Which they
/// are is named.
#[verifier::external_body]
fn read_rsa_keys(pem: &[u8]) -> (r: Option<Vec<Vec<u8>>>)
    ensures
        opt_byte_lists(r) == pem_rsa_keys(pem@),
{
    let mut reader: &[u8] = pem;
    rustls_pemfile::rsa_private_keys(&mut reader).ok()
}

/// The key in a PEM text: the first in PKCS#8 format, or else the first in RSA
/// format. An error says whether the text could not be read.
pub open spec fn key_in(pem: Seq<u8>) -> Result<Seq<u8>, bool> {
    match pem_pkcs8_keys(pem) {
        None => Err(true),
        Some(keys) => if keys.len() > 0 {
            Ok(keys[0])
        } else {
            match pem_rsa_keys(pem) {
                None => Err(true),
                Some(keys) => if keys.len() > 0 {
                    Ok(keys[0])
                } else {
                    Err(false)
                },
            }
        },
    }
}

/// The protocols that are offered, HTTP/2 before HTTP/1.1.
pub open spec fn offered_protocols() -> Seq<Seq<u8>> {
    seq![text::utf8("h2"@), text::utf8("http/1.1"@)]
}

/// What reading the credentials from these files must come to.
pub open spec fn setup_outcome(
    r: Result<Credentials, TlsSetupError>,
    tls: TlsConfig,
    cert_file: Option<Seq<u8>>,
    key_file: Option<Seq<u8>>,
) -> bool {
    let certs = match cert_file {
        Some(pem) => pem_certs(pem),
        None => None,
    };
    let key = match key_file {
        Some(pem) => key_in(pem),
        None => Err(true),
    };
    if certs is None {
        r matches Err(TlsSetupError::ReadCert(p)) && p@ == tls.cert_path@
    } else if certs->0.len() == 0 {
        r matches Err(TlsSetupError::EmptyCertChain(p)) && p@ == tls.cert_path@
    } else if key == Err::<Seq<u8>, bool>(true) {
        r matches Err(TlsSetupError::ReadKey(p)) && p@ == tls.key_path@
    } else if key == Err::<Seq<u8>, bool>(false) {
        r matches Err(TlsSetupError::EmptyKey(p)) && p@ == tls.key_path@
    } else {
        r matches Ok(c) && byte_lists(c.certs@) == certs->0 && c.key@ == key->Ok_0 && byte_lists(
            c.protocols@,
        ) == offered_protocols()
    }
}

/// A borrowed list of bytes that may be missing.
pub open spec fn opt_slice(b: Option<&[u8]>) -> Option<Seq<u8>> {
    match b {
        Some(b) => Some(b@),
        None => None,
    }
}

/// The first list of bytes, taken out of a list of them.
fn take_first(mut list: Vec<Vec<u8>>) -> (r: Vec<u8>)
    requires
        list@.len() > 0,
    ensures
        r@ == byte_lists(list@)[0],
{
    list.swap_remove(0)
}

/// Takes the key out of a PEM text.
fn read_key(pem: &[u8]) -> (r: Result<Vec<u8>, bool>)
    ensures
        match r {
            Ok(key) => key_in(pem@) == Ok::<Seq<u8>, bool>(key@),
            Err(unreadable) => key_in(pem@) == Err::<Seq<u8>, bool>(unreadable),
        },
{
    match read_pkcs8_keys(pem) {
        None => Err(true),
        Some(keys) => {
            if keys.len() > 0 {
                return Ok(take_first(keys));
            }
            match read_rsa_keys(pem) {
                None => Err(true),
                Some(keys) => {
                    if keys.len() > 0 {
                        Ok(take_first(keys))
                    } else {
                        Err(false)
                    }
                },
            }
        },
    }
}

/// The bytes of a text, in a list of their own.
fn bytes_of(s: &str) -> (r: Vec<u8>)
    ensures
        r@ == text::utf8(s@),
{
    let bytes = s.as_bytes();
    let r = text::bytes_between(bytes, 0, bytes.len());
    assert(r@ =~= bytes@);
    r
}

/// Takes the credentials out of the contents of the certificate file and the
/// key file, each of which is missing where it could not be read. Certificates
/// come first: a fault of the key is told only where they are in order.
pub fn load_credentials(tls: &TlsConfig, cert_file: Option<&[u8]>, key_file: Option<&[u8]>) -> (r:
    Result<Credentials, TlsSetupError>)
    ensures
        setup_outcome(r, *tls, opt_slice(cert_file), opt_slice(key_file)),
{
    let certs = match cert_file {
        Some(pem) => read_certs(pem),
        None => None,
    };
    let certs = match certs {
        Some(certs) => certs,
        None => {
            return Err(TlsSetupError::ReadCert(tls.cert_path.clone()));
        },
    };
    if certs.len() == 0 {
        return Err(TlsSetupError::EmptyCertChain(tls.cert_path.clone()));
    }
    let key = match key_file {
        Some(pem) => read_key(pem),
        None => Err(true),
    };
    let key = match key {
        Ok(key) => key,
        Err(unreadable) => {
            if unreadable {
                return Err(TlsSetupError::ReadKey(tls.key_path.clone()));
            }
            return Err(TlsSetupError::EmptyKey(tls.key_path.clone()));
        },
    };
    let mut protocols: Vec<Vec<u8>> = Vec::new();
    protocols.push(bytes_of("h2"));
    protocols.push(bytes_of("http/1.1"));
    assert(byte_lists(protocols@) =~= offered_protocols());
    Ok(Credentials { certs, key, protocols })
}

/// The gateway shows all certificates of its file and signs with the first key in
/// PKCS#8 format of its other file, or with the first in RSA format where there
/// is none, and offers HTTP/2 before HTTP/1.1. It does so exactly when there is a
/// certificate and a key; else it is told which file is at fault, and whether it
/// cannot be read or holds nothing, the certificates first.
pub proof fn credentials_come_from_their_files(
    r: Result<Credentials, TlsSetupError>,
    tls: TlsConfig,
    cert_file: Option<Seq<u8>>,
    key_file: Option<Seq<u8>>,
)
    requires
        setup_outcome(r, tls, cert_file, key_file),
    ensures
        ({
            let certs = if cert_file is Some {
                pem_certs(cert_file->0)
            } else {
                None
            };
            let pkcs8 = if key_file is Some {
                pem_pkcs8_keys(key_file->0)
            } else {
                None
            };
            let rsa = if key_file is Some {
                pem_rsa_keys(key_file->0)
            } else {
                None
            };
            let shown = certs is Some && certs->0.len() > 0;
            let unreadable = pkcs8 is None || pkcs8->0.len() == 0 && rsa is None;
            let keyless = pkcs8 is Some && pkcs8->0.len() == 0 && rsa is Some && rsa->0.len() == 0;
            &&& certs is None <==> (r matches Err(TlsSetupError::ReadCert(p)) && p@
                == tls.cert_path@)
            &&& certs is Some && certs->0.len() == 0 <==> (r matches Err(
                TlsSetupError::EmptyCertChain(p),
            ) && p@ == tls.cert_path@)
            &&& shown && unreadable <==> (r matches Err(TlsSetupError::ReadKey(p)) && p@
                == tls.key_path@)
            &&& shown && keyless <==> (r matches Err(TlsSetupError::EmptyKey(p)) && p@
                == tls.key_path@)
            &&& shown && !unreadable && !keyless <==> r is Ok
            &&& r matches Ok(c) ==> {
                &&& byte_lists(c.certs@) == certs->0
                &&& c.key@ == if pkcs8->0.len() > 0 {
                    pkcs8->0[0]
                } else {
                    rsa->0[0]
                }
                &&& c.protocols@.len() == 2
                &&& c.protocols@[0]@ == vstd::utf8::encode_utf8("h2"@)
                &&& c.protocols@[1]@ == vstd::utf8::encode_utf8("http/1.1"@)
            }
        }),
{
    if let Ok(c) = r {
        let offered = byte_lists(c.protocols@);
        assert(offered.len() == 2);
        assert(offered[0] == c.protocols@[0]@ && offered[1] == c.protocols@[1]@);
    }
}

/// What is told where TLS could not be set up names the file that is at fault, or
/// the reason for which the key was refused.
pub proof fn errors_name_the_file(s: String)
    ensures
        TlsSetupError::ReadCert(s).spec_message() == "no se pudo leer el certificado en '"@ + s@
            + "'"@,
        TlsSetupError::ReadKey(s).spec_message() == "no se pudo leer la private key en '"@ + s@
            + "'"@,
        TlsSetupError::EmptyCertChain(s).spec_message() == "el archivo de certificado '"@ + s@
            + "' no tiene ningún certificado PEM adentro"@,
        TlsSetupError::EmptyKey(s).spec_message() == "el archivo de key '"@ + s@
            + "' no tiene ninguna private key PEM reconocible (probá PKCS#8 o RSA)"@,
        TlsSetupError::Rustls(s).spec_message() == "rustls rechazó la configuración: "@ + s@,
{
}

} // verus!
