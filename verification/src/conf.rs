//! An older, fixed-shape configuration: a mandatory port and optional
//! child and parent addresses, each falling back to the zero address.

use vstd::prelude::*;

use crate::addr::NetAddr;

verus! {

#[derive(Clone, Copy, Debug)]
struct Node {
    addr: [u8; 4],
    port: u16,
}

/// A configuration with a fixed port and optional neighbours.
#[derive(Clone, Copy, Debug)]
pub struct Config {
    port: u16,
    child: Option<Node>,
    parent: Option<Node>,
}

/// The zero address, used where no neighbour is configured.
pub open spec fn zero_addr() -> NetAddr {
    NetAddr { ip0: 0, ip1: 0, ip2: 0, ip3: 0, port: 0 }
}

impl Config {
    /// The configured port, as the contracts see it.
    pub closed spec fn spec_port(&self) -> u16 {
        self.port
    }

    /// The child's address, as the contracts see it.
    pub closed spec fn spec_child(&self) -> Option<NetAddr> {
        match self.child {
            Some(n) => Some(
                NetAddr {
                    ip0: n.addr[0],
                    ip1: n.addr[1],
                    ip2: n.addr[2],
                    ip3: n.addr[3],
                    port: n.port,
                },
            ),
            None => None,
        }
    }

    /// The parent's address, as the contracts see it.
    pub closed spec fn spec_parent(&self) -> Option<NetAddr> {
        match self.parent {
            Some(n) => Some(
                NetAddr {
                    ip0: n.addr[0],
                    ip1: n.addr[1],
                    ip2: n.addr[2],
                    ip3: n.addr[3],
                    port: n.port,
                },
            ),
            None => None,
        }
    }

    /// Builds the configuration from plain values: the port, then the
    /// optional child and parent addresses.
    pub fn new(port: u16, child: Option<NetAddr>, parent: Option<NetAddr>) -> (r: Config)
        ensures
            r.spec_port() == port,
            r.spec_child() == child,
            r.spec_parent() == parent,
    {
        Config {
            port,
            child: match child {
                Some(a) => Some(Node { addr: [a.ip0, a.ip1, a.ip2, a.ip3], port: a.port }),
                None => None,
            },
            parent: match parent {
                Some(a) => Some(Node { addr: [a.ip0, a.ip1, a.ip2, a.ip3], port: a.port }),
                None => None,
            },
        }
    }

    /// The configured port.
    pub fn port(&self) -> (r: u16)
        ensures
            r == self.spec_port(),
    {
        self.port
    }

    /// The child's address, or the zero address when none is set.
    pub fn child_as_addr(&self) -> (r: NetAddr)
        ensures
            r == (match self.spec_child() {
                Some(a) => a,
                None => zero_addr(),
            }),
    {
        match self.child {
            Some(n) => NetAddr {
                ip0: n.addr[0],
                ip1: n.addr[1],
                ip2: n.addr[2],
                ip3: n.addr[3],
                port: n.port,
            },
            None => NetAddr { ip0: 0, ip1: 0, ip2: 0, ip3: 0, port: 0 },
        }
    }

    /// The parent's address, or the zero address when none is set.
    pub fn parent_as_addr(&self) -> (r: NetAddr)
        ensures
            r == (match self.spec_parent() {
                Some(a) => a,
                None => zero_addr(),
            }),
    {
        match self.parent {
            Some(n) => NetAddr {
                ip0: n.addr[0],
                ip1: n.addr[1],
                ip2: n.addr[2],
                ip3: n.addr[3],
                port: n.port,
            },
            None => NetAddr { ip0: 0, ip1: 0, ip2: 0, ip3: 0, port: 0 },
        }
    }
}

} // verus!
