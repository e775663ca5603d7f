//! Connection expressions: where the nREPL server is and how to reach it.
//!
//! ```text
//! [[[USER@]TUNNEL[:PORTS]:]HOST:]PORTS
//! ```
//!
//! or a key into the known-hosts table.

use vstd::prelude::*;

verus! {

/// A port number.
pub type Port = u16;

/// An ordered set of ports, in the order they were given and without
/// repetitions.
#[derive(Clone, Debug, PartialEq, Eq)]
pub struct PortSet(pub Vec<u16>);

/// An IP address: four octets or eight 16-bit groups.
#[derive(Clone, Copy, Debug, PartialEq, Eq, PartialOrd, Ord)]
pub enum IpAddr {
    V4(u8, u8, u8, u8),
    V6(u16, u16, u16, u16, u16, u16, u16, u16),
}

/// A host address: a domain name or an IP address.
#[derive(Clone, Debug, PartialEq, Eq)]
pub enum Addr {
    Domain(String),
    IP(IpAddr),
}

/// The route to a server, possibly through an SSH tunnel.
#[derive(Clone, Debug, PartialEq, Eq)]
pub struct RouteExpr {
    pub ports: PortSet,
    pub addr: Option<Addr>,
    pub tunnel: Option<TunnelExpr>,
}

/// The SSH host that the connection is tunneled through.
#[derive(Clone, Debug, PartialEq, Eq)]
pub struct TunnelExpr {
    pub user: Option<String>,
    pub addr: Addr,
    pub ports: Option<PortSet>,
}

/// A connection expression: a route, or a key into the known-hosts table.
#[derive(Clone, Debug, PartialEq, Eq)]
pub enum ConnectionExpr {
    RouteExpr(RouteExpr),
    HostKey(String),
}

impl ConnectionExpr {
    /// The route, unless the expression is a host key.
    pub fn try_as_route_expr(&self) -> (r: Option<&RouteExpr>)
        ensures
            match *self {
                ConnectionExpr::RouteExpr(e) => r == Some(&e),
                ConnectionExpr::HostKey(_) => r is None,
            },
    {
        match self {
            ConnectionExpr::RouteExpr(e) => Some(e),
            ConnectionExpr::HostKey(_) => None,
        }
    }
}

/// Where the connection expression comes from.
#[derive(Clone, Debug)]
pub enum ConnectionExprSource {
    /// Use this connection expression.
    Direct(ConnectionExpr),
    /// Read the connection expression from the port file.
    PortFile {
        /// Use this instead of the nearest `.nrepl-port` file.
        path: Option<String>,
        /// If not available, give it this many seconds to appear.
        wait_for_secs: Option<u64>,
    },
}

} // verus!
