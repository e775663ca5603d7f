use nreplops_tool::conn_expr::{ConnectionExpr, PortSet, RouteExpr};
use nreplops_tool::error::Error;
use nreplops_tool::port_file::{parse_port_file, port_file_step, PortFileStep};

fn local(port: u16) -> ConnectionExpr {
    ConnectionExpr::RouteExpr(RouteExpr { ports: PortSet(vec![port]), addr: None, tunnel: None })
}

#[test]
fn port_file_text_is_trimmed_and_parsed() {
    assert_eq!(parse_port_file("  7888\n", ".nrepl-port"), Ok(local(7888)));
    assert_eq!(parse_port_file("7888", "p"), Ok(local(7888)));
    assert_eq!(
        parse_port_file("a b", "/a/.nrepl-port"),
        Err(Error::CannotParsePortFile("/a/.nrepl-port".to_string()))
    );
    assert_eq!(parse_port_file("", "p"), Err(Error::CannotParsePortFile("p".to_string())));
}

#[test]
fn found_expression_ends_the_wait() {
    assert!(matches!(port_file_step(Ok(local(1)), true, false), PortFileStep::Found(e) if e == local(1)));
    assert!(matches!(port_file_step(Ok(local(1)), false, true), PortFileStep::Found(_)));
}

#[test]
fn missing_file_is_waited_for_until_the_deadline() {
    assert!(matches!(port_file_step(Err(Error::NotSpecified), true, false), PortFileStep::Retry));
    assert!(matches!(
        port_file_step(Err(Error::NotFound("f".to_string())), true, false),
        PortFileStep::Retry
    ));
    assert!(matches!(
        port_file_step(Err(Error::NotSpecified), true, true),
        PortFileStep::Fail(Error::PortFileTimeout)
    ));
}

#[test]
fn other_failures_are_not_waited_for() {
    assert!(matches!(
        port_file_step(Err(Error::NotSpecified), false, false),
        PortFileStep::Fail(Error::NotSpecified)
    ));
    assert!(matches!(
        port_file_step(Err(Error::CannotParsePortFile("f".to_string())), true, false),
        PortFileStep::Fail(Error::CannotParsePortFile(_))
    ));
}
