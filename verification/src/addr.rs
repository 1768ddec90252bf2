//! A plain socket-address value: four IPv4 octets and a port.
//!
//! Connections and nodes are keyed by such addresses. The surrounding
//! application converts between this type and the operating system's
//! socket addresses.

use vstd::prelude::*;

verus! {

/// An IPv4 address with a port, as plain integers.
#[derive(Clone, Copy, PartialEq, Eq, Structural, Debug, Hash)]
pub struct NetAddr {
    pub ip0: u8,
    pub ip1: u8,
    pub ip2: u8,
    pub ip3: u8,
    pub port: u16,
}

impl NetAddr {
    /// Builds an address from its four octets and port.
    pub fn new(a: u8, b: u8, c: u8, d: u8, port: u16) -> (r: NetAddr)
        ensures
            r == (NetAddr { ip0: a, ip1: b, ip2: c, ip3: d, port }),
    {
        NetAddr { ip0: a, ip1: b, ip2: c, ip3: d, port }
    }
}

} // verus!
