//! Socket addresses as plain values.

use vstd::prelude::*;

verus! {

/// An internet socket address: where a listener binds, or where a backend
/// is reached.
#[derive(Clone, Copy, Debug, PartialEq, Eq, Hash, Structural)]
pub enum SocketAddress {
    /// An IPv4 address, as its 32 bits, and a port.
    V4 { ip4: u32, port: u16 },
    /// An IPv6 address, as its 128 bits, a port, the flow information and
    /// the scope.
    V6 { ip6: u128, port: u16, flowinfo: u32, scope_id: u32 },
}

impl SocketAddress {
    /// The port of an address.
    pub open spec fn spec_port(self) -> u16 {
        match self {
            SocketAddress::V4 { port, .. } => port,
            SocketAddress::V6 { port, .. } => port,
        }
    }

    /// The port of this address.
    pub fn port(&self) -> (p: u16)
        ensures
            p == self.spec_port(),
    {
        match self {
            SocketAddress::V4 { port, .. } => *port,
            SocketAddress::V6 { port, .. } => *port,
        }
    }
}

} // verus!
