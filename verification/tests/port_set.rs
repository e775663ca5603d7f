use nreplops_tool::conn_expr::PortSet;
use nreplops_tool::port_set::PortSetParseError;

#[test]
fn port_set_port_set_parsing() {
    assert_eq!("1".parse(), Ok(PortSet(vec![1])));
    assert_eq!("65535".parse(), Ok(PortSet(vec![65535])));
    assert_eq!("1,2".parse(), Ok(PortSet(vec![1, 2])));
    assert_eq!("1-3".parse(), Ok(PortSet(vec![1, 2, 3])));
    assert_eq!("3-1".parse(), Ok(PortSet(vec![3, 2, 1])));
    assert_eq!("1,1-2,5,2-4".parse(), Ok(PortSet(vec![1, 2, 5, 3, 4])));
    assert_eq!("".parse::<PortSet>(), Err(PortSetParseError));
    assert_eq!(" 1".parse::<PortSet>(), Err(PortSetParseError));
    assert_eq!("1 ".parse::<PortSet>(), Err(PortSetParseError));
    assert_eq!(",".parse::<PortSet>(), Err(PortSetParseError));
    assert_eq!(",1".parse::<PortSet>(), Err(PortSetParseError));
    assert_eq!("1,".parse::<PortSet>(), Err(PortSetParseError));
    assert_eq!("-1".parse::<PortSet>(), Err(PortSetParseError));
    assert_eq!("1-".parse::<PortSet>(), Err(PortSetParseError));
    assert_eq!("1,,2".parse::<PortSet>(), Err(PortSetParseError));
    assert_eq!("1--2".parse::<PortSet>(), Err(PortSetParseError));
    assert_eq!("1-2-3".parse::<PortSet>(), Err(PortSetParseError));
    assert_eq!("65536".parse::<PortSet>(), Err(PortSetParseError));
}

#[test]
fn host_expression_port_set_parsing() {
    assert_eq!("1".parse(), Ok(PortSet(vec![1])));
    assert_eq!("65535".parse(), Ok(PortSet(vec![65535])));
    assert_eq!("1,2".parse(), Ok(PortSet(vec![1, 2])));
    assert_eq!("1-3".parse(), Ok(PortSet(vec![1, 2, 3])));
    assert_eq!("3-1".parse(), Ok(PortSet(vec![3, 2, 1])));
    assert_eq!("1,1-2,5,2-4".parse(), Ok(PortSet(vec![1, 2, 5, 3, 4])));
    assert_eq!("".parse::<PortSet>(), Err(PortSetParseError));
    assert_eq!(" 1".parse::<PortSet>(), Err(PortSetParseError));
    assert_eq!("1 ".parse::<PortSet>(), Err(PortSetParseError));
    assert_eq!(",".parse::<PortSet>(), Err(PortSetParseError));
    assert_eq!(",1".parse::<PortSet>(), Err(PortSetParseError));
    assert_eq!("1,".parse::<PortSet>(), Err(PortSetParseError));
    assert_eq!("-1".parse::<PortSet>(), Err(PortSetParseError));
    assert_eq!("1-".parse::<PortSet>(), Err(PortSetParseError));
    assert_eq!("1,,2".parse::<PortSet>(), Err(PortSetParseError));
    assert_eq!("1--2".parse::<PortSet>(), Err(PortSetParseError));
    assert_eq!("1-2-3".parse::<PortSet>(), Err(PortSetParseError));
    assert_eq!("65536".parse::<PortSet>(), Err(PortSetParseError));
}

#[test]
fn overlapping_ranges_keep_each_port_once() {
    let PortSet(ports) = "5-1,3-7,2".parse().unwrap();
    assert_eq!(ports, vec![5, 4, 3, 2, 1, 6, 7]);
}

#[test]
fn the_whole_port_range_fits() {
    let PortSet(ports) = "65534-65535,0".parse().unwrap();
    assert_eq!(ports, vec![65534, 65535, 0]);
}
