//! What to serve for a listener, and where a request goes.

use crate::address::SocketAddress;
use crate::error::Error;
use crate::listener::Listener;
use crate::paths::PathMap;
use crate::pem::{certificate_der, private_key_der, section_views};
use tokio_rustls::rustls::{Certificate, PrivateKey};
use vstd::prelude::*;

verus! {

/// The protocols that a TLS listener offers, in the order of preference:
/// `h2`, then `http/1.1`.
pub open spec fn alpn_protocols() -> Seq<Seq<u8>> {
    seq![
        seq![0x68u8, 0x32u8],
        seq![0x68u8, 0x74u8, 0x74u8, 0x70u8, 0x2fu8, 0x31u8, 0x2eu8, 0x31u8],
    ]
}

/// The protocols that a TLS listener offers, in the order of preference.
pub fn protocols() -> (r: Vec<Vec<u8>>)
    ensures
        section_views(r@) == alpn_protocols(),
{
    let mut h2: Vec<u8> = Vec::new();
    h2.push(0x68u8);
    h2.push(0x32u8);
    let mut http: Vec<u8> = Vec::new();
    http.push(0x68u8);
    http.push(0x74u8);
    http.push(0x74u8);
    http.push(0x70u8);
    http.push(0x2fu8);
    http.push(0x31u8);
    http.push(0x2eu8);
    http.push(0x31u8);
    let mut r: Vec<Vec<u8>> = Vec::new();
    r.push(h2);
    r.push(http);
    assert(r@[0]@ =~= alpn_protocols()[0]);
    assert(r@[1]@ =~= alpn_protocols()[1]);
    assert(section_views(r@) =~= alpn_protocols());
    r
}

/// What is served for a listener.
#[derive(Debug)]
pub enum Service {
    /// Plain HTTP on `addr`: no handshake is made.
    Http { addr: SocketAddress, paths: PathMap },
    /// HTTP over TLS on `addr`: every connection is taken through a
    /// handshake with this material, offering `protocols` in their order.
    Https {
        addr: SocketAddress,
        paths: PathMap,
        certificates: Vec<Certificate>,
        certificate_key: PrivateKey,
        protocols: Vec<Vec<u8>>,
    },
}

/// Decides what is served for `cfg`: TLS with its own material and the
/// two protocols where it has an `ssl` section, and plain HTTP where it has
/// none.
pub fn init_server(cfg: Listener) -> (service: Service)
    ensures
        match cfg@.ssl {
            None => service matches Service::Http { addr, paths } && addr == cfg@.addr && paths@
                == cfg@.paths,
            Some(ssl) => service matches Service::Https {
                addr,
                paths,
                certificates,
                certificate_key,
                protocols,
            } && addr == cfg@.addr && paths@ == cfg@.paths && certificates.len()
                == ssl.certificates.len() && (forall|i: int|
                0 <= i < certificates.len() ==> certificate_der(#[trigger] certificates[i])
                    == ssl.certificates[i]) && private_key_der(certificate_key)
                == ssl.certificate_key && section_views(protocols@) == alpn_protocols(),
        },
{
    match cfg.ssl() {
        Some(ssl) => Service::Https {
            addr: cfg.addr(),
            paths: cfg.paths(),
            certificates: ssl.certificates(),
            certificate_key: ssl.certificate_key(),
            protocols: protocols(),
        },
        None => Service::Http { addr: cfg.addr(), paths: cfg.paths() },
    }
}

/// Decides where a request goes: to the backend that the whole of `uri` is
/// mapped to. A request for anything else goes nowhere.
pub fn proxy_pass(uri: &str, paths: &PathMap) -> (r: Result<SocketAddress, Error>)
    ensures
        match r {
            Ok(backend) => paths@.contains_key(uri@) && backend == paths@[uri@],
            Err(e) => !paths@.contains_key(uri@) && e@ == "mapping does not exist"@,
        },
{
    match paths.get(uri) {
        Some(backend) => Ok(backend),
        None => Err(Error::new("mapping does not exist")),
    }
}

} // verus!
