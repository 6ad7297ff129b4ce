//! The TLS material of a listener, and the builder that collects it.

use crate::error::Error;
use crate::pem::{
    certificate_der, certificate_of, pem_certificates, pem_rsa_private_keys, private_key_der,
    private_key_of, read_certs, read_rsa_private_keys, read_view, section_views,
};
use crate::text::{chars_of, same, trim, trimmed};
use tokio_rustls::rustls::{Certificate, PrivateKey};
use vstd::prelude::*;
use vstd::slice::slice_to_vec;

verus! {

/// The two entries of an `ssl` section.
#[derive(Clone, Copy, Debug, PartialEq, Eq, Structural)]
pub enum SslDirective {
    Certificate,
    CertificateKey,
}

/// What an `SslCfgBuilder` has collected.
pub struct SslBuilderView {
    pub certificates: Option<Seq<Seq<u8>>>,
    pub certificate_key: Option<Seq<u8>>,
}

/// The TLS material of a listener: its certificate chain, leaf first, and
/// its one private key, each as DER bytes.
pub struct SslView {
    pub certificates: Seq<Seq<u8>>,
    pub certificate_key: Seq<u8>,
}

/// What a file gave: its bytes, or the message of the error that reading it
/// met.
pub open spec fn loaded_view(loaded: Result<Vec<u8>, String>) -> Result<Seq<u8>, Seq<char>> {
    match loaded {
        Ok(data) => Ok(data@),
        Err(e) => Err(e@),
    }
}

impl SslBuilderView {
    /// Nothing collected yet.
    pub open spec fn empty() -> SslBuilderView {
        SslBuilderView { certificates: None, certificate_key: None }
    }

    /// The entry that a name stands for.
    pub open spec fn named(name: Seq<char>) -> Option<SslDirective> {
        if trim(name) == "certificate"@ {
            Some(SslDirective::Certificate)
        } else if trim(name) == "certificate_key"@ {
            Some(SslDirective::CertificateKey)
        } else {
            None
        }
    }

    /// Whether an entry named `name` can still be taken: the name must be
    /// one of the two, and the entry must not have been set before.
    pub open spec fn expects(self, name: Seq<char>) -> Result<SslDirective, Seq<char>> {
        match Self::named(name) {
            Some(SslDirective::Certificate) => if self.certificates is None {
                Ok(SslDirective::Certificate)
            } else {
                Err("existing ssl directive with multiple values"@)
            },
            Some(SslDirective::CertificateKey) => if self.certificate_key is None {
                Ok(SslDirective::CertificateKey)
            } else {
                Err("existing ssl directive with multiple values"@)
            },
            None => Err("invalid ssl directive"@),
        }
    }

    /// Takes what the PEM reader found as the certificate chain.
    pub open spec fn with_certificates(
        self,
        read: Result<Seq<Seq<u8>>, Seq<char>>,
    ) -> Result<SslBuilderView, Seq<char>> {
        match read {
            Ok(sections) => Ok(SslBuilderView { certificates: Some(sections), ..self }),
            Err(m) => Err(m),
        }
    }

    /// Takes the first key that the PEM reader found as the private key.
    pub open spec fn with_certificate_key(
        self,
        read: Result<Seq<Seq<u8>>, Seq<char>>,
    ) -> Result<SslBuilderView, Seq<char>> {
        match read {
            Ok(sections) => if sections.len() == 0 {
                Err("expected a single private key"@)
            } else {
                Ok(SslBuilderView { certificate_key: Some(sections[0]), ..self })
            },
            Err(m) => Err(m),
        }
    }

    /// Takes the entry named `name` from the file that was loaded for it.
    pub open spec fn inserted(self, name: Seq<char>, loaded: Result<Seq<u8>, Seq<char>>) -> Result<
        SslBuilderView,
        Seq<char>,
    > {
        match self.expects(name) {
            Err(m) => Err(m),
            Ok(directive) => match loaded {
                Err(m) => Err(m),
                Ok(data) => match directive {
                    SslDirective::Certificate => self.with_certificates(pem_certificates(data)),
                    SslDirective::CertificateKey => self.with_certificate_key(
                        pem_rsa_private_keys(data),
                    ),
                },
            },
        }
    }

    /// The material, once both entries are there.
    pub open spec fn built(self) -> Result<SslView, Seq<char>> {
        match (self.certificates, self.certificate_key) {
            (Some(certificates), Some(certificate_key)) => Ok(
                SslView { certificates, certificate_key },
            ),
            (None, _) => Err("missing certificates"@),
            (Some(_), None) => Err("missing certificates key"@),
        }
    }
}

/// Collects the entries of an `ssl` section.
#[derive(Debug)]
pub struct SslCfgBuilder {
    certificates: Option<Vec<Vec<u8>>>,
    certificates_key: Option<Vec<u8>>,
}

impl View for SslCfgBuilder {
    type V = SslBuilderView;

    closed spec fn view(&self) -> SslBuilderView {
        SslBuilderView {
            certificates: match self.certificates {
                Some(v) => Some(section_views(v@)),
                None => None,
            },
            certificate_key: match self.certificates_key {
                Some(k) => Some(k@),
                None => None,
            },
        }
    }
}

impl SslCfgBuilder {
    /// A builder that has collected nothing.
    pub fn new() -> (b: SslCfgBuilder)
        ensures
            b@ == SslBuilderView::empty(),
    {
        SslCfgBuilder { certificates: None, certificates_key: None }
    }

    /// Decides whether an entry named `directive` can still be taken.
    pub fn expects(&self, directive: &[char]) -> (r: Result<SslDirective, Error>)
        ensures
            match self@.expects(directive@) {
                Ok(d) => r == Ok::<SslDirective, Error>(d),
                Err(m) => r matches Err(e) && e@ == m,
            },
    {
        let name = trimmed(directive);
        if same(name, chars_of("certificate").as_slice()) {
            if self.certificates.is_none() {
                Ok(SslDirective::Certificate)
            } else {
                Err(Error::new("existing ssl directive with multiple values"))
            }
        } else if same(name, chars_of("certificate_key").as_slice()) {
            if self.certificates_key.is_none() {
                Ok(SslDirective::CertificateKey)
            } else {
                Err(Error::new("existing ssl directive with multiple values"))
            }
        } else {
            Err(Error::new("invalid ssl directive"))
        }
    }

    /// Takes what the PEM reader found in the certificate file as the
    /// certificate chain.
    pub fn set_certificates(&mut self, read: Result<Vec<Vec<u8>>, String>) -> (r: Result<
        (),
        Error,
    >)
        ensures
            match old(self)@.with_certificates(read_view(read)) {
                Ok(b) => r is Ok && final(self)@ == b,
                Err(m) => r matches Err(e) && e@ == m && final(self)@ == old(self)@,
            },
    {
        match read {
            Ok(sections) => {
                self.certificates = Some(sections);
                Ok(())
            },
            Err(message) => Err(Error::with(message)),
        }
    }

    /// Takes the first key that the PEM reader found in the key file as the
    /// private key; a file without a key is refused.
    pub fn set_certificate_key(&mut self, read: Result<Vec<Vec<u8>>, String>) -> (r: Result<
        (),
        Error,
    >)
        ensures
            match old(self)@.with_certificate_key(read_view(read)) {
                Ok(b) => r is Ok && final(self)@ == b,
                Err(m) => r matches Err(e) && e@ == m && final(self)@ == old(self)@,
            },
    {
        match read {
            Ok(sections) => {
                if sections.len() == 0 {
                    Err(Error::new("expected a single private key"))
                } else {
                    self.certificates_key = Some(slice_to_vec(sections[0].as_slice()));
                    Ok(())
                }
            },
            Err(message) => Err(Error::with(message)),
        }
    }

    /// Takes the entry named `directive` from the file that was loaded for
    /// it: a certificate file gives the chain, a key file the private key.
    /// An entry that is set already, a name that is none of the two, a file
    /// that could not be read and a file that is no PEM are refused, in
    /// this order, and leave the builder as it was.
    pub fn insert(&mut self, directive: &str, loaded: Result<Vec<u8>, String>) -> (r: Result<
        (),
        Error,
    >)
        ensures
            match old(self)@.inserted(directive@, loaded_view(loaded)) {
                Ok(b) => r is Ok && final(self)@ == b,
                Err(m) => r matches Err(e) && e@ == m && final(self)@ == old(self)@,
            },
    {
        let name = chars_of(directive);
        match self.expects(name.as_slice()) {
            Err(e) => Err(e),
            Ok(d) => match loaded {
                Err(message) => Err(Error::with(message)),
                Ok(data) => match d {
                    SslDirective::Certificate => self.set_certificates(
                        read_certs(data.as_slice()),
                    ),
                    SslDirective::CertificateKey => self.set_certificate_key(
                        read_rsa_private_keys(data.as_slice()),
                    ),
                },
            },
        }
    }

    /// The material, if the certificate chain and the key are both there.
    pub fn build(self) -> (r: Result<SslCfg, Error>)
        ensures
            match self@.built() {
                Ok(ssl) => r matches Ok(cfg) && cfg@ == ssl,
                Err(m) => r matches Err(e) && e@ == m,
            },
    {
        match self.certificates {
            None => Err(Error::new("missing certificates")),
            Some(certificates) => match self.certificates_key {
                None => Err(Error::new("missing certificates key")),
                Some(certificates_key) => Ok(SslCfg { certificates, certificates_key }),
            },
        }
    }
}

/// The TLS material of one listener.
#[derive(Debug)]
pub struct SslCfg {
    certificates: Vec<Vec<u8>>,
    certificates_key: Vec<u8>,
}

impl View for SslCfg {
    type V = SslView;

    closed spec fn view(&self) -> SslView {
        SslView {
            certificates: section_views(self.certificates@),
            certificate_key: self.certificates_key@,
        }
    }
}

impl SslCfg {
    /// The certificate chain, leaf first.
    pub fn certificates(&self) -> (r: Vec<Certificate>)
        ensures
            r.len() == self@.certificates.len(),
            forall|i: int|
                0 <= i < r.len() ==> certificate_der(#[trigger] r[i]) == self@.certificates[i],
    {
        let mut r: Vec<Certificate> = Vec::new();
        let mut i: usize = 0;
        while i < self.certificates.len()
            invariant
                i <= self.certificates.len(),
                r.len() == i,
                forall|j: int|
                    0 <= j < i ==> certificate_der(#[trigger] r[j]) == self.certificates[j]@,
            decreases self.certificates.len() - i,
        {
            r.push(certificate_of(slice_to_vec(self.certificates[i].as_slice())));
            i += 1;
        }
        r
    }

    /// The private key.
    pub fn certificate_key(&self) -> (k: PrivateKey)
        ensures
            private_key_der(k) == self@.certificate_key,
    {
        private_key_of(slice_to_vec(self.certificates_key.as_slice()))
    }

    /// The DER bytes of the certificate chain, leaf first.
    pub fn certificate_bytes(&self) -> (r: &Vec<Vec<u8>>)
        ensures
            section_views(r@) == self@.certificates,
    {
        &self.certificates
    }

    /// The DER bytes of the private key.
    pub fn certificate_key_bytes(&self) -> (k: &Vec<u8>)
        ensures
            k@ == self@.certificate_key,
    {
        &self.certificates_key
    }
}

} // verus!
