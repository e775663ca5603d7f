use nreplops_tool::conn_expr::{Addr, ConnectionExpr, IpAddr, PortSet, RouteExpr, TunnelExpr};
use nreplops_tool::conn_parse::ParseError;

fn ps(ports: &[u16]) -> PortSet {
    PortSet(ports.to_vec())
}

fn maybe_ps(ports: &[u16]) -> Option<PortSet> {
    if ports.is_empty() {
        None
    } else {
        Some(ps(ports))
    }
}

fn ip4(a: u8, b: u8, c: u8, d: u8) -> Addr {
    Addr::IP(IpAddr::V4(a, b, c, d))
}

#[allow(clippy::too_many_arguments)]
fn ip6(a: u16, b: u16, c: u16, d: u16, e: u16, f: u16, g: u16, h: u16) -> Addr {
    Addr::IP(IpAddr::V6(a, b, c, d, e, f, g, h))
}

fn dom(domain: &str) -> Addr {
    Addr::Domain(domain.to_owned())
}

#[test]
fn parse_domain_name() {
    let d = |s: &str| Ok(Addr::Domain(s.to_string()));
    assert_eq!("localhost".parse(), d("localhost"));
    assert_eq!("localhost.".parse(), d("localhost."));
    assert_eq!("a.b.c.d".parse(), d("a.b.c.d"));
    assert_eq!("a1.b-2.c--3.d---4".parse(), d("a1.b-2.c--3.d---4"));
}

#[test]
fn parse_ipv4_address() {
    let ip = |a, b, c, d| Ok(ip4(a, b, c, d));
    assert_eq!("0.0.0.0".parse(), ip(0, 0, 0, 0));
    assert_eq!("1.2.3.4".parse(), ip(1, 2, 3, 4));
    assert_eq!("255.255.255.255".parse(), ip(255, 255, 255, 255));
}

#[test]
fn parse_ipv6_address() {
    let ip = |a, b, c, d, e, f, g, h| Ok(ip6(a, b, c, d, e, f, g, h));
    assert_eq!("[::]".parse(), ip(0, 0, 0, 0, 0, 0, 0, 0));
    assert_eq!("[::1]".parse(), ip(0, 0, 0, 0, 0, 0, 0, 1));
    assert_eq!("[1::]".parse(), ip(1, 0, 0, 0, 0, 0, 0, 0));
    assert_eq!("[::0.0.0.0]".parse(), ip(0, 0, 0, 0, 0, 0, 0, 0));
    assert_eq!("[DEAD::BEEF]".parse(), ip(0xDEAD, 0, 0, 0, 0, 0, 0, 0xBEEF));
    assert_eq!("[dead::beef]".parse(), ip(0xDEAD, 0, 0, 0, 0, 0, 0, 0xBEEF));
    assert_eq!(
        "[1:23:456:789a::127.0.0.1]".parse(),
        ip(0x0001, 0x0023, 0x0456, 0x789A, 0, 0, 0x7F00, 1),
    );
}

#[test]
fn parse_bad_address() {
    let err = Err(ParseError);
    assert_eq!(" 1.2.3.4".parse::<Addr>(), err);
    assert_eq!("".parse::<Addr>(), err);
    assert_eq!(".".parse::<Addr>(), err);
    assert_eq!("01.2.3.4".parse::<Addr>(), err);
    assert_eq!("1. 2.3.4".parse::<Addr>(), err);
    assert_eq!("1.2.3.04".parse::<Addr>(), err);
    assert_eq!("1.2.3.256".parse::<Addr>(), err);
    assert_eq!("1.2.3.4 ".parse::<Addr>(), err);
    assert_eq!("1.2.3.4.com".parse::<Addr>(), err);
    assert_eq!("1.com".parse::<Addr>(), err);
    assert_eq!("[ ::]".parse::<Addr>(), err);
    assert_eq!("[:: ]".parse::<Addr>(), err);
    assert_eq!("[]".parse::<Addr>(), err);
    assert_eq!("dash-.com".parse::<Addr>(), err);
    assert_eq!("tyre.8bar.com".parse::<Addr>(), err);
    assert_eq!("1".parse::<Addr>(), err);
    assert_eq!("1.2".parse::<Addr>(), err);
    assert_eq!("1.2.3".parse::<Addr>(), err);
}

#[test]
fn local_connection_expr_parsing() {
    let mk = |ports| {
        Ok(ConnectionExpr::RouteExpr(RouteExpr { ports: ps(ports), addr: None, tunnel: None }))
    };
    assert_eq!("1".parse(), mk(&[1]));
    assert_eq!("1,2".parse(), mk(&[1, 2]));
    assert_eq!("1-3".parse(), mk(&[1, 2, 3]));
    assert_eq!("1,3,1-3".parse(), mk(&[1, 3, 2]));
}

#[test]
fn remote_connection_expr_parsing() {
    let mk = |addr, ports| {
        Ok(ConnectionExpr::RouteExpr(RouteExpr { ports: ps(ports), addr: Some(addr), tunnel: None }))
    };
    assert_eq!("1.2.3.4:1,2-3".parse(), mk(ip4(1, 2, 3, 4), &[1, 2, 3]));
    assert_eq!(
        "[0:dead::beef:0]:1,2-3".parse(),
        mk(ip6(0, 0xDEAD, 0, 0, 0, 0, 0xBEEF, 0), &[1, 2, 3])
    );
    assert_eq!("localhost:1,2-3".parse(), mk(dom("localhost"), &[1, 2, 3]));
}

#[test]
fn tunneled_connection_expr_parsing() {
    let mk = |tunnel_user: Option<&str>,
              tunnel_addr,
              tunnel_ports: &[u16],
              server_addr,
              server_ports: &[u16]| {
        Ok(ConnectionExpr::RouteExpr(RouteExpr {
            ports: ps(server_ports),
            addr: Some(server_addr),
            tunnel: Some(TunnelExpr {
                user: tunnel_user.map(|s| s.to_owned()),
                addr: tunnel_addr,
                ports: maybe_ps(tunnel_ports),
            }),
        }))
    };
    assert_eq!("1.2.3.4:5.6.7.8:9".parse(), mk(None, ip4(1, 2, 3, 4), &[], ip4(5, 6, 7, 8), &[9]));
    assert_eq!(
        "1.2.3.4:5:6.7.8.9:10".parse(),
        mk(None, ip4(1, 2, 3, 4), &[5], ip4(6, 7, 8, 9), &[10])
    );
    assert_eq!(
        "1.2.3.4:5,6-7:8.9.10.11:12-14,15-16".parse(),
        mk(None, ip4(1, 2, 3, 4), &[5, 6, 7], ip4(8, 9, 10, 11), &[12, 13, 14, 15, 16])
    );
    assert_eq!(
        "a@1.2.3.4:5.6.7.8:9".parse(),
        mk(Some("a"), ip4(1, 2, 3, 4), &[], ip4(5, 6, 7, 8), &[9])
    );
    assert_eq!(
        "a@1.2.3.4:5:6.7.8.9:10".parse(),
        mk(Some("a"), ip4(1, 2, 3, 4), &[5], ip4(6, 7, 8, 9), &[10])
    );
    assert_eq!(
        "[::]:[::]:1".parse(),
        mk(None, ip6(0, 0, 0, 0, 0, 0, 0, 0), &[], ip6(0, 0, 0, 0, 0, 0, 0, 0), &[1])
    );
    assert_eq!(
        "[::]:1:[::]:1".parse(),
        mk(None, ip6(0, 0, 0, 0, 0, 0, 0, 0), &[1], ip6(0, 0, 0, 0, 0, 0, 0, 0), &[1])
    );
    assert_eq!(
        "a@[1:2:3:4:5:6:7:8]:9:[10:11:12:13:14:15:16:17]:18".parse(),
        mk(
            Some("a"),
            ip6(0x01, 0x02, 0x03, 0x04, 0x05, 0x06, 0x07, 0x08),
            &[9],
            ip6(0x10, 0x11, 0x12, 0x13, 0x14, 0x15, 0x16, 0x17),
            &[18]
        )
    );
    assert_eq!(
        "a@b.c.d:e.f.g:1".parse(),
        mk(Some("a"), dom("b.c.d"), &[], dom("e.f.g"), &[1])
    );
    assert_eq!(
        "a@b.c.d.:1:e.f.g.:2".parse(),
        mk(Some("a"), dom("b.c.d."), &[1], dom("e.f.g."), &[2])
    );
}

#[test]
fn host_key_expr_parsing() {
    let mk = |key: &str| Ok(ConnectionExpr::HostKey(key.to_owned()));
    assert_eq!("x".parse(), mk("x"));
    assert_eq!("my_prod_host_1".parse(), mk("my_prod_host_1"));
}

#[test]
fn malformed_connection_exprs_are_refused() {
    assert_eq!("a:b:c:d:e".parse::<ConnectionExpr>(), Err(ParseError));
    assert_eq!("localhost:".parse::<ConnectionExpr>(), Err(ParseError));
    assert_eq!("@1.2.3.4:5.6.7.8:9".parse::<ConnectionExpr>(), Err(ParseError));
    assert_eq!("".parse::<ConnectionExpr>(), Err(ParseError));
}

#[test]
fn long_labels_are_refused() {
    let label = "a".repeat(64);
    assert_eq!(label.parse::<Addr>(), Err(ParseError));
    let ok = "a".repeat(63);
    assert_eq!(ok.parse::<Addr>(), Ok(Addr::Domain(ok.clone())));
}
