//! PEM files and the DER sections that they hold.

use tokio_rustls::rustls::{Certificate, PrivateKey};
use vstd::prelude::*;

verus! {

/// A certificate as the TLS library takes it.
#[verifier::external_type_specification]
#[verifier::external_body]
pub struct ExCertificate(Certificate);

/// A private key as the TLS library takes it.
#[verifier::external_type_specification]
#[verifier::external_body]
pub struct ExPrivateKey(PrivateKey);

/// The DER bytes that a certificate holds.
pub uninterp spec fn certificate_der(c: Certificate) -> Seq<u8>;

/// The DER bytes that a private key holds.
pub uninterp spec fn private_key_der(k: PrivateKey) -> Seq<u8>;

/// The certificate sections of a PEM file, in order and decoded, or the
/// message of the error that the PEM reader meets in the file.
pub uninterp spec fn pem_certificates(data: Seq<u8>) -> Result<Seq<Seq<u8>>, Seq<char>>;

/// The RSA private-key sections of a PEM file, in order and decoded, or the
/// message of the error that the PEM reader meets in the file.
pub uninterp spec fn pem_rsa_private_keys(data: Seq<u8>) -> Result<Seq<Seq<u8>>, Seq<char>>;

/// The byte strings that `sections` holds.
pub open spec fn section_views(sections: Seq<Vec<u8>>) -> Seq<Seq<u8>> {
    Seq::new(sections.len(), |i: int| sections[i]@)
}

/// What the PEM reader hands back, as the specification sees it.
pub open spec fn read_view(read: Result<Vec<Vec<u8>>, String>) -> Result<Seq<Seq<u8>>, Seq<char>> {
    match read {
        Ok(sections) => Ok(section_views(sections@)),
        Err(e) => Err(e@),
    }
}

/// `rustls_pemfile::certs` on a file held in memory. The reader's result
/// depends on the bytes alone; the contract gives it its name and turns the
/// reader's error into its message.
#[verifier::external_body]
pub(crate) fn read_certs(data: &[u8]) -> (r: Result<Vec<Vec<u8>>, String>)
    ensures
        read_view(r) == pem_certificates(data@),
{
    let mut reader = data;
    rustls_pemfile::certs(&mut reader).map_err(|e| e.to_string())
}

/// `rustls_pemfile::rsa_private_keys` on a file held in memory. The
/// reader's result depends on the bytes alone; the contract gives it its
/// name and turns the reader's error into its message.
#[verifier::external_body]
pub(crate) fn read_rsa_private_keys(data: &[u8]) -> (r: Result<Vec<Vec<u8>>, String>)
    ensures
        read_view(r) == pem_rsa_private_keys(data@),
{
    let mut reader = data;
    rustls_pemfile::rsa_private_keys(&mut reader).map_err(|e| e.to_string())
}

/// The constructor of `rustls::Certificate`: the certificate holds the
/// bytes that it is made of.
#[verifier::external_body]
pub(crate) fn certificate_of(der: Vec<u8>) -> (c: Certificate)
    ensures
        certificate_der(c) == der@,
{
    Certificate(der)
}

/// The constructor of `rustls::PrivateKey`: the key holds the bytes that it
/// is made of.
#[verifier::external_body]
pub(crate) fn private_key_of(der: Vec<u8>) -> (k: PrivateKey)
    ensures
        private_key_der(k) == der@,
{
    PrivateKey(der)
}

} // verus!
