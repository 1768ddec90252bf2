//! The configuration surface the server consumes, read once by the
//! surrounding application and immutable thereafter: listening port,
//! optional parent node, cleanup interval, and maximum node fan-out.

use vstd::prelude::*;

use crate::addr::NetAddr;

verus! {

/// A node address as configured: four IPv4 octets and a port.
#[derive(Clone, Copy, Debug)]
pub struct Node {
    pub addr: [u8; 4],
    pub port: u16,
}

impl Node {
    /// The configured address as a socket address value.
    pub fn to_socketaddr(&self) -> (r: NetAddr)
        ensures
            r == (NetAddr {
                ip0: self.addr[0],
                ip1: self.addr[1],
                ip2: self.addr[2],
                ip3: self.addr[3],
                port: self.port,
            }),
    {
        NetAddr {
            ip0: self.addr[0],
            ip1: self.addr[1],
            ip2: self.addr[2],
            ip3: self.addr[3],
            port: self.port,
        }
    }

    /// The four octets.
    pub fn addr(&self) -> (r: [u8; 4])
        ensures
            r == self.addr,
    {
        self.addr
    }
}

/// The loaded configuration; every field is optional and falls back to
/// a documented default.
#[derive(Clone, Copy, Debug)]
pub struct Config {
    pub port: Option<u16>,
    pub parent: Option<Node>,
    pub cleanup_time: Option<u16>,
    pub max_nodes: Option<u16>,
}

impl Config {
    /// The node fan-out bound; three children when not configured.
    pub fn max_nodes(&self) -> (r: u16)
        ensures
            r == (match self.max_nodes {
                Some(n) => n,
                None => 3,
            }),
    {
        match self.max_nodes {
            Some(n) => n,
            None => 3,
        }
    }

    /// The listening port; zero — let the system pick — when not
    /// configured. An environment override, if any, is the loader's
    /// business and is folded into the `port` field before the
    /// configuration reaches the library.
    pub fn port(&self) -> (r: u16)
        ensures
            r == (match self.port {
                Some(p) => p,
                None => 0,
            }),
    {
        match self.port {
            Some(p) => p,
            None => 0,
        }
    }

    /// The configured parent node, if any.
    pub fn parent(&self) -> (r: Option<Node>)
        ensures
            r == self.parent,
    {
        self.parent
    }

    /// The sweep interval in seconds; a minute when not configured.
    pub fn cleanup_time_as_duration(&self) -> (r: u64)
        ensures
            r == (match self.cleanup_time {
                Some(t) => t as u64,
                None => 60u64,
            }),
    {
        match self.cleanup_time {
            Some(t) => t as u64,
            None => 60,
        }
    }
}

} // verus!
