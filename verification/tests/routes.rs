use nreplops_tool::cli::{IoArg, Tristate};
use nreplops_tool::conn_expr::{Addr, ConnectionExpr, IpAddr, PortSet, RouteExpr};
use nreplops_tool::error::Error;
use nreplops_tool::outputs::{format_result, output_plan, results_printer, OutputTarget, Stream};
use nreplops_tool::routes::{
    name_to_look_up, resolve_route_expr, sort_ips, HostOptions, Route, Routes, RoutesInner,
};

fn route_expr(s: &str) -> RouteExpr {
    match s.parse::<ConnectionExpr>().unwrap() {
        ConnectionExpr::RouteExpr(e) => e,
        ConnectionExpr::HostKey(_) => panic!("expected a route"),
    }
}

fn all_routes(inner: RoutesInner) -> Vec<Route> {
    let mut routes = Routes::new(inner);
    let mut out = Vec::new();
    while let Some(r) = routes.next() {
        out.push(r);
    }
    out
}

#[test]
fn direct_routes_vary_addresses_first() {
    let e = route_expr("localhost:1,2");
    assert_eq!(name_to_look_up(&e), Some("localhost".to_string()));
    let ips = vec![IpAddr::V6(0, 0, 0, 0, 0, 0, 0, 1), IpAddr::V4(127, 0, 0, 1)];
    let routes = all_routes(RoutesInner::from_route_expr(&e, &ips));
    let pairs: Vec<(IpAddr, u16)> = routes
        .into_iter()
        .map(|r| match r {
            Route::Direct(ip, port) => (ip, port),
            Route::Tunneled(_) => panic!("expected a direct route"),
        })
        .collect();
    assert_eq!(
        pairs,
        vec![
            (IpAddr::V4(127, 0, 0, 1), 1),
            (IpAddr::V6(0, 0, 0, 0, 0, 0, 0, 1), 1),
            (IpAddr::V4(127, 0, 0, 1), 2),
            (IpAddr::V6(0, 0, 0, 0, 0, 0, 0, 1), 2),
        ]
    );
}

#[test]
fn local_port_needs_localhost() {
    let e = route_expr("7888");
    assert_eq!(name_to_look_up(&e), Some("localhost".to_string()));
    let e = route_expr("1.2.3.4:7888");
    assert_eq!(name_to_look_up(&e), None);
    let routes = all_routes(RoutesInner::from_route_expr(&e, &Vec::new()));
    assert_eq!(routes.len(), 1);
}

#[test]
fn tunneled_routes_vary_tunnel_ports_first() {
    let e = route_expr("u@host:1,2:server:3,4");
    assert_eq!(name_to_look_up(&e), None);
    let routes = all_routes(RoutesInner::from_route_expr(&e, &Vec::new()));
    let ports: Vec<(Option<u16>, u16)> = routes
        .into_iter()
        .map(|r| match r {
            Route::Tunneled(t) => {
                assert_eq!(t.ssh_user.as_deref(), Some("u"));
                assert_eq!(t.ssh_addr, Addr::Domain("host".to_string()));
                assert_eq!(t.host_addr, Addr::Domain("server".to_string()));
                (t.ssh_port, t.host_port)
            }
            Route::Direct(..) => panic!("expected a tunnel"),
        })
        .collect();
    assert_eq!(ports, vec![(Some(1), 3), (Some(2), 3), (Some(1), 4), (Some(2), 4)]);
}

#[test]
fn host_keys_are_looked_up_in_order() {
    let table = vec![
        (
            "prod".to_string(),
            HostOptions {
                name: None,
                conn_expr: "1.2.3.4:1".parse().unwrap(),
                ask_confirmation: Some(true),
            },
        ),
        (
            "prod".to_string(),
            HostOptions { name: None, conn_expr: "5.6.7.8:2".parse().unwrap(), ask_confirmation: None },
        ),
        (
            "loop".to_string(),
            HostOptions { name: None, conn_expr: "other".parse().unwrap(), ask_confirmation: None },
        ),
    ];
    let prod: ConnectionExpr = "prod".parse().unwrap();
    let e = resolve_route_expr(&prod, &table).unwrap();
    assert_eq!(e.addr, Some(Addr::IP(IpAddr::V4(1, 2, 3, 4))));
    let missing: ConnectionExpr = "nope".parse().unwrap();
    assert_eq!(
        resolve_route_expr(&missing, &table).err(),
        Some(Error::HostKeyNotFound("nope".to_string()))
    );
    let looping: ConnectionExpr = "loop".parse().unwrap();
    assert_eq!(
        resolve_route_expr(&looping, &table).err(),
        Some(Error::RecursiveHostKeysNotSupported("loop".to_string()))
    );
}

#[test]
fn addresses_sort_v4_first() {
    let sorted = sort_ips(&vec![
        IpAddr::V6(1, 0, 0, 0, 0, 0, 0, 0),
        IpAddr::V4(10, 0, 0, 1),
        IpAddr::V4(9, 255, 255, 255),
    ]);
    assert_eq!(
        sorted,
        vec![
            IpAddr::V4(9, 255, 255, 255),
            IpAddr::V4(10, 0, 0, 1),
            IpAddr::V6(1, 0, 0, 0, 0, 0, 0, 0)
        ]
    );
}

#[test]
fn streams_to_the_same_place_share_it() {
    let plan = output_plan(
        &Some(IoArg::Pipe),
        &Some(IoArg::File("/tmp/x".to_string())),
        &Some(IoArg::Pipe),
    );
    assert_eq!(plan.len(), 2);
    assert!(matches!(plan[0].0, OutputTarget::StdOut));
    assert_eq!(plan[0].1, vec![Stream::StdOut, Stream::Results]);
    assert!(matches!(&plan[1].0, OutputTarget::File(p) if p == "/tmp/x"));
    assert_eq!(plan[1].1, vec![Stream::StdErr]);
    assert!(output_plan(&None, &None, &None).is_empty());
}

#[test]
fn results_are_printed_as_asked() {
    assert!(results_printer(Tristate::Auto, Tristate::Auto, false).is_none());
    let p = results_printer(Tristate::Auto, Tristate::Off, true).unwrap();
    assert!(p.pretty && !p.color);
    assert_eq!(format_result(&None, "{:a 1}"), Ok("{:a 1}\n".to_string()));
    let pretty = results_printer(Tristate::On, Tristate::Off, false);
    assert_eq!(format_result(&pretty, "[1   2]"), Ok("[1 2]\n".to_string()));
    assert_eq!(format_result(&pretty, "(1"), Err(Error::FailedToParseResult));
}

#[test]
fn pretty_results_with_strings_too_short_to_cut_are_refused() {
    let pretty = results_printer(Tristate::On, Tristate::Off, false);
    assert_eq!(format_result(&pretty, "[\"abc\"]"), Ok("[\"b\"]\n".to_string()));
    assert_eq!(format_result(&pretty, "\"\""), Err(Error::FailedToParseResult));
    assert_eq!(format_result(&pretty, "[\"a\"]"), Err(Error::FailedToParseResult));
    assert_eq!(format_result(&pretty, "\"é1\""), Err(Error::FailedToParseResult));
    let plain = results_printer(Tristate::Off, Tristate::On, false);
    assert!(format_result(&plain, "\"\"").is_ok());
}

#[test]
fn port_sets_carry_over() {
    let e = route_expr("3-1");
    assert_eq!(e.ports, PortSet(vec![3, 2, 1]));
}

#[test]
fn pretty_results_with_keys_too_wide_to_line_up_are_refused() {
    let pretty = results_printer(Tristate::On, Tristate::Off, false);
    let widest = format!("{{:{} 1}}", "a".repeat(32764));
    assert!(format_result(&pretty, &widest).is_ok());
    let past_the_column_limit = format!("{{:{} 1}}", "a".repeat(32765));
    assert_eq!(format_result(&pretty, &past_the_column_limit), Err(Error::FailedToParseResult));
    let too_wide = format!("{{:{} 1}}", "a".repeat(32766));
    assert_eq!(format_result(&pretty, &too_wide), Err(Error::FailedToParseResult));
}
