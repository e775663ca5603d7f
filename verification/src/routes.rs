//! Routes to the server: every combination of the addresses and ports that
//! a connection expression allows, in the order they are tried.
//!
//! A direct route is an IP address and a port; the addresses of a domain
//! name are looked up by the program and handed in, and tried in order.  A
//! tunneled route leaves the names to the SSH client and server.

use vstd::prelude::*;

use crate::conn_expr::{Addr, ConnectionExpr, IpAddr, PortSet, RouteExpr};
use crate::conn_parse::{addr_view, AddrView};
use crate::error::Error;

verus! {

/// Options of a known host.
#[derive(Debug, Clone)]
pub struct HostOptions {
    pub name: Option<String>,
    pub conn_expr: ConnectionExpr,
    pub ask_confirmation: Option<bool>,
}

/// How to reach the server through an SSH tunnel.
#[derive(Debug, Clone)]
pub struct TunnelOptions {
    pub ssh_user: Option<String>,
    pub ssh_addr: Addr,
    pub ssh_port: Option<u16>,
    pub host_addr: Addr,
    pub host_port: u16,
}

/// A route to the server.
#[derive(Debug, Clone)]
pub enum Route {
    Direct(IpAddr, u16),
    Tunneled(TunnelOptions),
}

/// The routes that a route expression allows.
#[derive(Debug, Clone)]
pub enum RoutesInner {
    Direct { ips: Vec<IpAddr>, ports: PortSet },
    Tunneled {
        ssh_user: Option<String>,
        ssh_addr: Addr,
        ssh_ports: Option<PortSet>,
        host_addr: Addr,
        host_ports: PortSet,
    },
}

/// The routes still to be tried.
#[derive(Debug, Clone)]
pub struct Routes {
    pub inner: RoutesInner,
    pub pos: usize,
}

/// The route expression that a connection expression stands for: itself,
/// or the route of the first entry of the known-hosts table with its key.
/// Otherwise the key, and whether it was found (and then names another
/// key).
pub open spec fn route_of(c: ConnectionExpr, table: Seq<(String, HostOptions)>) -> Result<
    RouteExpr,
    (bool, Seq<char>),
> {
    match c {
        ConnectionExpr::RouteExpr(e) => Ok(e),
        ConnectionExpr::HostKey(k) => match first_key(table, k@, 0) {
            Some(i) => match table[i].1.conn_expr {
                ConnectionExpr::RouteExpr(e) => Ok(e),
                ConnectionExpr::HostKey(_) => Err((true, k@)),
            },
            None => Err((false, k@)),
        },
    }
}

/// The first entry at or after `i` with the key `k`.
pub open spec fn first_key(table: Seq<(String, HostOptions)>, k: Seq<char>, i: int) -> Option<int>
    decreases table.len() - i,
{
    if i < 0 || i >= table.len() {
        None
    } else if table[i].0@ == k {
        Some(i)
    } else {
        first_key(table, k, i + 1)
    }
}

/// The error for a host key: not in the table, or naming another key.
pub open spec fn key_error_of(e: Error) -> Option<(bool, Seq<char>)> {
    match e {
        Error::RecursiveHostKeysNotSupported(k) => Some((true, k@)),
        Error::HostKeyNotFound(k) => Some((false, k@)),
        _ => None,
    }
}

fn copy_string(s: &String) -> (r: String)
    ensures
        r@ == s@,
{
    s.clone()
}

/// The route expression to use for a connection expression, looking host
/// keys up in the table; entries come in order of precedence.
#[verifier::loop_isolation(false)]
pub fn resolve_route_expr<'a>(c: &'a ConnectionExpr, table: &'a Vec<(String, HostOptions)>) -> (r:
    Result<&'a RouteExpr, Error>)
    ensures
        match r {
            Ok(e) => route_of(*c, table@) == Ok::<RouteExpr, (bool, Seq<char>)>(*e),
            Err(e) => route_of(*c, table@) is Err && key_error_of(e) == Some(route_of(*c, table@)->Err_0),
        },
{
    match c {
        ConnectionExpr::RouteExpr(e) => Ok(e),
        ConnectionExpr::HostKey(k) => {
            let mut i: usize = 0;
            while i < table.len()
                invariant
                    i <= table.len(),
                    first_key(table@, k@, i as int) == first_key(table@, k@, 0),
                decreases table.len() - i,
            {
                if table[i].0 == *k {
                    return match &table[i].1.conn_expr {
                        ConnectionExpr::RouteExpr(e) => Ok(e),
                        ConnectionExpr::HostKey(_) => Err(Error::RecursiveHostKeysNotSupported(copy_string(k))),
                    };
                }
                i = i + 1;
            }
            Err(Error::HostKeyNotFound(copy_string(k)))
        },
    }
}

/// The name whose addresses a route expression needs: none for a tunnel or
/// an IP address, `localhost` where no address is given.
pub open spec fn lookup_of(e: RouteExpr) -> Option<Seq<char>> {
    if e.tunnel is Some {
        None
    } else {
        match e.addr {
            None => Some(seq!['l', 'o', 'c', 'a', 'l', 'h', 'o', 's', 't']),
            Some(Addr::Domain(d)) => Some(d@),
            Some(Addr::IP(_)) => None,
        }
    }
}

pub fn name_to_look_up(e: &RouteExpr) -> (r: Option<String>)
    ensures
        match r {
            Some(n) => lookup_of(*e) == Some(n@),
            None => lookup_of(*e) is None,
        },
{
    if e.tunnel.is_some() {
        return None;
    }
    match &e.addr {
        None => {
            let n = crate::text::string_of(vec!['l', 'o', 'c', 'a', 'l', 'h', 'o', 's', 't'].as_slice());
            Some(n)
        },
        Some(Addr::Domain(d)) => Some(copy_string(d)),
        Some(Addr::IP(_)) => None,
    }
}

/// The number that orders IP addresses: IPv4 addresses first, each kind by
/// its numbers from the first.
pub open spec fn ip_key(a: IpAddr) -> int {
    match a {
        IpAddr::V4(a0, a1, a2, a3) => a0 * 0x100_0000 + a1 * 0x1_0000 + a2 * 0x100 + a3,
        IpAddr::V6(a0, a1, a2, a3, a4, a5, a6, a7) => 0x1_0000_0000 + a0
            * 0x1_0000_0000_0000_0000_0000_0000_0000 + a1 * 0x1_0000_0000_0000_0000_0000_0000 + a2
            * 0x1_0000_0000_0000_0000_0000 + a3 * 0x1_0000_0000_0000_0000 + a4 * 0x1_0000_0000_0000
            + a5 * 0x1_0000_0000 + a6 * 0x1_0000 + a7,
    }
}

/// Whether the addresses are in order.
pub open spec fn sorted(s: Seq<IpAddr>) -> bool {
    forall|i: int, j: int| 0 <= i < j < s.len() ==> ip_key(s[i]) <= ip_key(s[j])
}

/// IPv4 addresses are preferred over IPv6 addresses: in addresses in
/// order, no IPv6 address comes before an IPv4 address.
pub proof fn lemma_ipv4_first(s: Seq<IpAddr>, i: int, j: int)
    requires
        sorted(s),
        0 <= i < j < s.len(),
        s[j] is V4,
    ensures
        s[i] is V4,
{
    assert(ip_key(s[i]) <= ip_key(s[j]));
    if s[i] is V6 {
        assert(ip_key(s[i]) >= 0x1_0000_0000);
        assert(ip_key(s[j]) < 0x1_0000_0000);
    }
}

/// Addresses in order come in the order of their numbers read from the
/// first: an IPv4 address before another one exactly where its octets
/// compare lower from the first that differs.
pub proof fn lemma_ipv4_in_octet_order(s: Seq<IpAddr>, i: int, j: int)
    requires
        sorted(s),
        0 <= i < j < s.len(),
    ensures
        s[i] matches IpAddr::V4(a0, a1, a2, a3) ==> (s[j] matches IpAddr::V4(b0, b1, b2, b3)
            ==> (a0 < b0 || (a0 == b0 && (a1 < b1 || (a1 == b1 && (a2 < b2 || (a2 == b2 && a3
            <= b3))))))),
{
    assert(ip_key(s[i]) <= ip_key(s[j]));
}

/// IPv6 addresses in order come in the order of their groups read from the
/// first.
pub proof fn lemma_ipv6_in_group_order(s: Seq<IpAddr>, i: int, j: int)
    requires
        sorted(s),
        0 <= i < j < s.len(),
    ensures
        s[i] matches IpAddr::V6(a0, a1, a2, a3, a4, a5, a6, a7) ==> (s[j] matches IpAddr::V6(
            b0,
            b1,
            b2,
            b3,
            b4,
            b5,
            b6,
            b7,
        ) ==> seq![a0, a1, a2, a3, a4, a5, a6, a7] == seq![b0, b1, b2, b3, b4, b5, b6, b7]
            || groups_below(seq![a0, a1, a2, a3, a4, a5, a6, a7], seq![b0, b1, b2, b3, b4, b5, b6, b7])),
{
    assert(ip_key(s[i]) <= ip_key(s[j]));
    if let IpAddr::V6(a0, a1, a2, a3, a4, a5, a6, a7) = s[i] {
        if let IpAddr::V6(b0, b1, b2, b3, b4, b5, b6, b7) = s[j] {
            let a = seq![a0, a1, a2, a3, a4, a5, a6, a7];
            let b = seq![b0, b1, b2, b3, b4, b5, b6, b7];
            if a0 != b0 {
                assert(a0 < b0 && groups_below(a, b)) by {
                    assert(forall|m: int| 0 <= m < 0 ==> a[m] == b[m]);
                }
            }
        }
    }
}

/// Whether the groups `a` come before `b`: lower at the first group where
/// they differ.
pub open spec fn groups_below(a: Seq<u16>, b: Seq<u16>) -> bool {
    exists|d: int|
        0 <= d < a.len() && d < b.len() && a[d] < b[d] && forall|m: int| 0 <= m < d ==> a[m] == b[m]
}

fn ip_le(a: IpAddr, b: IpAddr) -> (r: bool)
    ensures
        r == (ip_key(a) <= ip_key(b)),
{
    match (a, b) {
        (IpAddr::V4(a0, a1, a2, a3), IpAddr::V4(b0, b1, b2, b3)) => {
            let ka: u64 = (a0 as u64) * 0x100_0000 + (a1 as u64) * 0x1_0000 + (a2 as u64) * 0x100 + (a3 as u64);
            let kb: u64 = (b0 as u64) * 0x100_0000 + (b1 as u64) * 0x1_0000 + (b2 as u64) * 0x100 + (b3 as u64);
            ka <= kb
        },
        (IpAddr::V4(..), IpAddr::V6(..)) => true,
        (IpAddr::V6(..), IpAddr::V4(..)) => false,
        (IpAddr::V6(a0, a1, a2, a3, a4, a5, a6, a7), IpAddr::V6(b0, b1, b2, b3, b4, b5, b6, b7)) => {
            let ka: u128 = (a0 as u128) * 0x1_0000_0000_0000_0000_0000_0000_0000 + (a1 as u128)
                * 0x1_0000_0000_0000_0000_0000_0000 + (a2 as u128) * 0x1_0000_0000_0000_0000_0000
                + (a3 as u128) * 0x1_0000_0000_0000_0000 + (a4 as u128) * 0x1_0000_0000_0000
                + (a5 as u128) * 0x1_0000_0000 + (a6 as u128) * 0x1_0000 + (a7 as u128);
            let kb: u128 = (b0 as u128) * 0x1_0000_0000_0000_0000_0000_0000_0000 + (b1 as u128)
                * 0x1_0000_0000_0000_0000_0000_0000 + (b2 as u128) * 0x1_0000_0000_0000_0000_0000
                + (b3 as u128) * 0x1_0000_0000_0000_0000 + (b4 as u128) * 0x1_0000_0000_0000
                + (b5 as u128) * 0x1_0000_0000 + (b6 as u128) * 0x1_0000 + (b7 as u128);
            ka <= kb
        },
    }
}

/// The addresses in order, each as often as given.
pub fn sort_ips(ips: &Vec<IpAddr>) -> (r: Vec<IpAddr>)
    ensures
        sorted(r@),
        r@.to_multiset() == ips@.to_multiset(),
{
    broadcast use vstd::seq_lib::to_multiset_insert;
    broadcast use vstd::seq_lib::to_multiset_build;

    let mut out: Vec<IpAddr> = Vec::new();
    let mut k: usize = 0;
    assert(ips@.take(0) =~= Seq::<IpAddr>::empty());
    while k < ips.len()
        invariant
            k <= ips.len(),
            sorted(out@),
            out@.to_multiset() == ips@.take(k as int).to_multiset(),
        decreases ips.len() - k,
    {
        let x = ips[k];
        let mut pos: usize = 0;
        while pos < out.len() && ip_le(out[pos], x)
            invariant
                pos <= out.len(),
                forall|q: int| 0 <= q < pos ==> ip_key(#[trigger] out@[q]) <= ip_key(x),
            decreases out.len() - pos,
        {
            pos = pos + 1;
        }
        let ghost before = out@;
        out.insert(pos, x);
        proof {
            assert(ips@.take(k + 1) == ips@.take(k as int).push(x));
            vstd::seq_lib::to_multiset_insert(before, pos as int, x);
            vstd::seq_lib::to_multiset_build(ips@.take(k as int), x);
            assert forall|i: int, j: int| 0 <= i < j < out@.len() implies ip_key(out@[i]) <= ip_key(
                out@[j],
            ) by {
                if j < pos {
                } else if i < pos && j == pos {
                } else if i < pos && j > pos {
                    assert(out@[j] == before[j - 1]);
                } else if i == pos {
                    assert(out@[j] == before[j - 1]);
                    assert(ip_key(x) < ip_key(before[pos as int]));
                    if j - 1 > pos {
                        assert(ip_key(before[pos as int]) <= ip_key(before[j - 1]));
                    }
                } else {
                    assert(out@[i] == before[i - 1]);
                    assert(out@[j] == before[j - 1]);
                }
            }
        }
        k = k + 1;
    }
    assert(ips@.take(ips.len() as int) == ips@);
    out
}

fn copy_addr(a: &Addr) -> (r: Addr)
    ensures
        addr_view(r) == addr_view(*a),
{
    match a {
        Addr::Domain(d) => Addr::Domain(copy_string(d)),
        Addr::IP(ip) => Addr::IP(*ip),
    }
}

fn copy_user(u: &Option<String>) -> (r: Option<String>)
    ensures
        user_view(r) == user_view(*u),
{
    match u {
        Some(s) => Some(copy_string(s)),
        None => None,
    }
}

fn copy_ports(p: &PortSet) -> (r: PortSet)
    ensures
        r.0@ == p.0@,
{
    let mut v: Vec<u16> = Vec::new();
    let mut k: usize = 0;
    while k < p.0.len()
        invariant
            k <= p.0.len(),
            v@ == p.0@.take(k as int),
        decreases p.0.len() - k,
    {
        v.push(p.0[k]);
        k = k + 1;
    }
    assert(p.0@.take(p.0.len() as int) == p.0@);
    PortSet(v)
}

pub open spec fn user_view(u: Option<String>) -> Option<Seq<char>> {
    match u {
        Some(s) => Some(s@),
        None => None,
    }
}

pub open spec fn ports_view(p: Option<PortSet>) -> Option<Seq<u16>> {
    match p {
        Some(s) => Some(s.0@),
        None => None,
    }
}

/// The contents of a route.
pub enum RouteView {
    Direct(IpAddr, u16),
    Tunneled(Option<Seq<char>>, AddrView, Option<u16>, AddrView, u16),
}

pub open spec fn route_view(r: Route) -> RouteView {
    match r {
        Route::Direct(ip, port) => RouteView::Direct(ip, port),
        Route::Tunneled(t) => RouteView::Tunneled(
            user_view(t.ssh_user),
            addr_view(t.ssh_addr),
            t.ssh_port,
            addr_view(t.host_addr),
            t.host_port,
        ),
    }
}

impl RoutesInner {
    /// How many routes there are.
    pub open spec fn count(&self) -> int {
        match self {
            RoutesInner::Direct { ips, ports } => ips.len() * ports.0.len(),
            RoutesInner::Tunneled { ssh_ports: None, host_ports, .. } => host_ports.0.len() as int,
            RoutesInner::Tunneled { ssh_ports: Some(s), host_ports, .. } => s.0.len()
                * host_ports.0.len(),
        }
    }

    /// The route at `ix`: addresses vary first and ports second; through a
    /// tunnel, the tunnel's ports vary first and the server's second.
    pub open spec fn route_at(&self, ix: int) -> RouteView {
        match self {
            RoutesInner::Direct { ips, ports } => RouteView::Direct(
                ips[ix % ips.len() as int],
                ports.0[ix / ips.len() as int],
            ),
            RoutesInner::Tunneled { ssh_user, ssh_addr, ssh_ports, host_addr, host_ports } => match ssh_ports {
                None => RouteView::Tunneled(
                    user_view(*ssh_user),
                    addr_view(*ssh_addr),
                    None,
                    addr_view(*host_addr),
                    host_ports.0[ix],
                ),
                Some(s) => RouteView::Tunneled(
                    user_view(*ssh_user),
                    addr_view(*ssh_addr),
                    Some(s.0[ix % s.0.len() as int]),
                    addr_view(*host_addr),
                    host_ports.0[ix / s.0.len() as int],
                ),
            },
        }
    }

    /// The routes of a route expression, given the addresses looked up for
    /// its name, if it needs any.  Direct addresses are tried in order.
    pub fn from_route_expr(e: &RouteExpr, looked_up: &Vec<IpAddr>) -> (r: RoutesInner)
        requires
            e.tunnel is Some ==> e.addr is Some,
        ensures
            match r {
                RoutesInner::Direct { ips, ports } => e.tunnel is None && ports.0@ == e.ports.0@
                    && sorted(ips@) && ips@.to_multiset() == (match e.addr {
                    Some(Addr::IP(ip)) => seq![ip],
                    _ => looked_up@,
                }).to_multiset(),
                RoutesInner::Tunneled { ssh_user, ssh_addr, ssh_ports, host_addr, host_ports } =>
                    (e.tunnel matches Some(t) && user_view(ssh_user) == user_view(t.user)
                    && addr_view(ssh_addr) == addr_view(t.addr) && ports_view(ssh_ports)
                    == ports_view(t.ports) && addr_view(host_addr) == addr_view(e.addr->0)
                    && host_ports.0@ == e.ports.0@),
            },
    {
        match &e.tunnel {
            Some(t) => {
                let host_addr = match &e.addr {
                    Some(a) => copy_addr(a),
                    None => Addr::IP(IpAddr::V4(0, 0, 0, 0)),
                };
                RoutesInner::Tunneled {
                    ssh_user: copy_user(&t.user),
                    ssh_addr: copy_addr(&t.addr),
                    ssh_ports: match &t.ports {
                        Some(p) => Some(copy_ports(p)),
                        None => None,
                    },
                    host_addr,
                    host_ports: copy_ports(&e.ports),
                }
            },
            None => {
                let ips = match &e.addr {
                    Some(Addr::IP(ip)) => {
                        let mut v: Vec<IpAddr> = Vec::new();
                        v.push(*ip);
                        sort_ips(&v)
                    },
                    _ => sort_ips(looked_up),
                };
                RoutesInner::Direct { ips, ports: copy_ports(&e.ports) }
            },
        }
    }

    pub fn len(&self) -> (n: usize)
        requires
            self.count() <= usize::MAX,
        ensures
            n == self.count(),
    {
        match self {
            RoutesInner::Direct { ips, ports } => ips.len() * ports.0.len(),
            RoutesInner::Tunneled { ssh_ports: None, host_ports, .. } => host_ports.0.len(),
            RoutesInner::Tunneled { ssh_ports: Some(s), host_ports, .. } => s.0.len()
                * host_ports.0.len(),
        }
    }

    pub fn produce(&self, ix: usize) -> (r: Route)
        requires
            self.count() <= usize::MAX,
            ix < self.count(),
        ensures
            route_view(r) == self.route_at(ix as int),
    {
        match self {
            RoutesInner::Direct { ips, ports } => {
                let n = ips.len();
                proof {
                    lemma_div_bound(ix as int, n as int, ports.0.len() as int);
                }
                Route::Direct(ips[ix % n], ports.0[ix / n])
            },
            RoutesInner::Tunneled { ssh_user, ssh_addr, ssh_ports, host_addr, host_ports } => {
                match ssh_ports {
                    None => Route::Tunneled(
                        TunnelOptions {
                            ssh_user: copy_user(ssh_user),
                            ssh_addr: copy_addr(ssh_addr),
                            ssh_port: None,
                            host_addr: copy_addr(host_addr),
                            host_port: host_ports.0[ix],
                        },
                    ),
                    Some(s) => {
                        let m = s.0.len();
                        proof {
                            lemma_div_bound(ix as int, m as int, host_ports.0.len() as int);
                        }
                        Route::Tunneled(
                            TunnelOptions {
                                ssh_user: copy_user(ssh_user),
                                ssh_addr: copy_addr(ssh_addr),
                                ssh_port: Some(s.0[ix % m]),
                                host_addr: copy_addr(host_addr),
                                host_port: host_ports.0[ix / m],
                            },
                        )
                    },
                }
            },
        }
    }
}

/// The routes enumerate every combination once, in order.  Directly, the
/// route at `j * n + i` (with `n` addresses) is the `i`th address with the
/// `j`th port.  Through a tunnel without its own ports, the route at `j` goes
/// to the `j`th server port; with tunnel ports (`m` of them), the route at
/// `j * m + i` goes through the `i`th tunnel port to the `j`th server port.
/// Every tunneled route keeps the user and both addresses.
pub proof fn lemma_routes_enumerate(r: RoutesInner, i: int, j: int)
    ensures
        r matches RoutesInner::Direct { ips, ports } ==> (r.count() == ips.len() * ports.0.len()
            && (0 <= i < ips.len() && 0 <= j < ports.0.len() ==> r.route_at(j * ips.len() + i)
            == RouteView::Direct(ips[i], ports.0[j]))),
        r matches RoutesInner::Tunneled { ssh_user, ssh_addr, ssh_ports: None, host_addr, host_ports }
            ==> (r.count() == host_ports.0.len() && (0 <= j < host_ports.0.len() ==> r.route_at(j)
            == RouteView::Tunneled(
            user_view(ssh_user),
            addr_view(ssh_addr),
            None,
            addr_view(host_addr),
            host_ports.0[j],
        ))),
        r matches RoutesInner::Tunneled {
            ssh_user,
            ssh_addr,
            ssh_ports: Some(s),
            host_addr,
            host_ports,
        } ==> (r.count() == s.0.len() * host_ports.0.len() && (0 <= i < s.0.len() && 0 <= j
            < host_ports.0.len() ==> r.route_at(j * s.0.len() + i) == RouteView::Tunneled(
            user_view(ssh_user),
            addr_view(ssh_addr),
            Some(s.0[i]),
            addr_view(host_addr),
            host_ports.0[j],
        ))),
{
    match r {
        RoutesInner::Direct { ips, ports } => {
            if 0 <= i < ips.len() && 0 <= j < ports.0.len() {
                lemma_index_split(i, j, ips.len() as int);
            }
        },
        RoutesInner::Tunneled { ssh_ports: Some(s), host_ports, .. } => {
            if 0 <= i < s.0.len() && 0 <= j < host_ports.0.len() {
                lemma_index_split(i, j, s.0.len() as int);
            }
        },
        _ => {},
    }
}

proof fn lemma_index_split(i: int, j: int, n: int)
    requires
        0 <= i < n,
        0 <= j,
    ensures
        (j * n + i) % n == i,
        (j * n + i) / n == j,
{
    vstd::arithmetic::div_mod::lemma_fundamental_div_mod_converse(j * n + i, n, j, i);
}

/// An index below `n * m` has a remainder below `n` and a quotient below
/// `m` when divided by `n`.
proof fn lemma_div_bound(ix: int, n: int, m: int)
    requires
        0 <= ix < n * m,
        0 <= n,
        0 <= m,
    ensures
        n > 0,
        0 <= ix % n < n,
        0 <= ix / n < m,
{
    if n == 0 {
        assert(n * m == 0);
    }
    assert(n > 0);
    assert(0 <= ix / n < m) by (nonlinear_arith)
        requires
            0 <= ix < n * m,
            n > 0,
    ;
}

impl Routes {
    pub fn new(inner: RoutesInner) -> (r: Routes)
        ensures
            r.pos == 0,
            r.inner == inner,
    {
        Routes { inner, pos: 0 }
    }

    /// The next route to try, if any is left.
    pub fn next(&mut self) -> (r: Option<Route>)
        requires
            old(self).inner.count() <= usize::MAX,
        ensures
            final(self).inner == old(self).inner,
            old(self).pos < old(self).inner.count() ==> (r matches Some(route) && route_view(route)
                == old(self).inner.route_at(old(self).pos as int) && final(self).pos == old(self).pos + 1),
            old(self).pos >= old(self).inner.count() ==> r is None && final(self).pos == old(self).pos,
    {
        if self.pos < self.inner.len() {
            let item = self.inner.produce(self.pos);
            self.pos = self.pos + 1;
            Some(item)
        } else {
            None
        }
    }
}

} // verus!
