use lethal_potato::config::Arguments;
use lethal_potato::errors::ScanError;
use lethal_potato::ports::{build_port_list, parse_octets, Pattern};

fn args_for(ip: &str, ports: Option<&str>) -> Arguments {
    Arguments {
        ip: ip.to_string(),
        ports: ports.map(|p| p.to_string()),
        debug: false,
        output: None,
        verbose: false,
        timeout: 300,
        threads: 2,
        banner_grab: false,
        banner_len: 256,
    }
}

#[test]
fn range_spec_builds_inclusive_range() {
    let ip = args_for("127.0.0.1", Some("1-5")).create_address().unwrap();
    assert_eq!(ip.ports, vec![1, 2, 3, 4, 5]);
}

#[test]
fn csv_spec_builds_listed_ports() {
    let ip = args_for("127.0.0.1", Some("22,80,443")).create_address().unwrap();
    assert_eq!(ip.ports, vec![22, 80, 443]);
}

#[test]
fn single_spec_builds_one_port() {
    let ip = args_for("127.0.0.1", Some("8080")).create_address().unwrap();
    assert_eq!(ip.ports, vec![8080]);
}

#[test]
fn absent_spec_builds_all_ports() {
    let ip = args_for("127.0.0.1", None).create_address().unwrap();
    assert_eq!(ip.ports.len(), 65535);
    assert_eq!(ip.ports[0], 1);
    assert_eq!(ip.ports[65534], 65535);
}

#[test]
fn octets_are_parsed() {
    let ip = args_for("10.20.30.40", Some("80")).create_address().unwrap();
    assert_eq!((ip.a, ip.b, ip.c, ip.d), (10, 20, 30, 40));
}

#[test]
fn boundary_ports_one_and_65535_are_valid() {
    assert_eq!(build_port_list("1").unwrap(), vec![1]);
    assert_eq!(build_port_list("65535").unwrap(), vec![65535]);
    assert_eq!(build_port_list("1-65535").unwrap().len(), 65535);
}

#[test]
fn port_zero_is_rejected() {
    assert!(matches!(build_port_list("0"), Err(ScanError::InvalidPortSpec(_))));
    assert!(matches!(build_port_list("0-5"), Err(ScanError::InvalidPortSpec(_))));
    assert!(matches!(build_port_list("22,0,80"), Err(ScanError::InvalidPortSpec(_))));
}

#[test]
fn port_65536_is_rejected() {
    assert!(matches!(build_port_list("65536"), Err(ScanError::InvalidPortSpec(_))));
    assert!(matches!(build_port_list("65534-65536"), Err(ScanError::InvalidPortSpec(_))));
    assert!(matches!(build_port_list("22,65536"), Err(ScanError::InvalidPortSpec(_))));
}

#[test]
fn reversed_range_is_rejected() {
    assert!(matches!(build_port_list("5-1"), Err(ScanError::InvalidPortSpec(_))));
}

#[test]
fn csv_error_names_offending_token() {
    match build_port_list("22,x,80") {
        Err(ScanError::InvalidPortSpec(tok)) => assert_eq!(tok, "x"),
        other => panic!("expected InvalidPortSpec, got {:?}", other),
    }
}

#[test]
fn range_error_names_offending_bound() {
    match build_port_list("1-x") {
        Err(ScanError::InvalidPortSpec(tok)) => assert_eq!(tok, "x"),
        other => panic!("expected InvalidPortSpec, got {:?}", other),
    }
    match build_port_list("y-5") {
        Err(ScanError::InvalidPortSpec(tok)) => assert_eq!(tok, "y"),
        other => panic!("expected InvalidPortSpec, got {:?}", other),
    }
    match build_port_list("5-1") {
        Err(ScanError::InvalidPortSpec(tok)) => assert_eq!(tok, "5-1"),
        other => panic!("expected InvalidPortSpec, got {:?}", other),
    }
}

#[test]
fn address_error_names_the_address() {
    match args_for("1.2.3", Some("80")).create_address() {
        Err(ScanError::InvalidAddress(t)) => assert_eq!(t, "1.2.3"),
        other => panic!("expected InvalidAddress, got {:?}", other),
    }
}

#[test]
fn port_spec_error_reaches_create_address_with_the_token() {
    match args_for("127.0.0.1", Some("22,foo,443")).create_address() {
        Err(ScanError::InvalidPortSpec(t)) => assert_eq!(t, "foo"),
        other => panic!("expected InvalidPortSpec, got {:?}", other),
    }
}

#[test]
fn dash_takes_precedence_over_comma() {
    // classified as a range first, whose second bound then fails to parse
    assert_eq!(Arguments::find_pattern("1-5,10".to_string()), Pattern::Range);
    assert!(matches!(build_port_list("1-5,10"), Err(ScanError::InvalidPortSpec(_))));
}

#[test]
fn pattern_classification() {
    assert_eq!(Arguments::find_pattern("1-1024".to_string()), Pattern::Range);
    assert_eq!(Arguments::find_pattern("1,2,3,4".to_string()), Pattern::Csv);
    assert_eq!(Arguments::find_pattern("8080".to_string()), Pattern::Single);
    assert_eq!(Arguments::find_pattern("abc".to_string()), Pattern::Unknown);
    assert_eq!(Arguments::find_pattern("".to_string()), Pattern::Unknown);
    assert_eq!(Arguments::find_pattern("1-2-3".to_string()), Pattern::Unknown);
}

#[test]
fn invalid_addresses_are_rejected() {
    assert!(matches!(
        args_for("1.2.3", Some("80")).create_address(),
        Err(ScanError::InvalidAddress(_))
    ));
    assert!(matches!(
        args_for("1.2.3.4.5", Some("80")).create_address(),
        Err(ScanError::InvalidAddress(_))
    ));
    assert!(matches!(
        args_for("256.1.1.1", Some("80")).create_address(),
        Err(ScanError::InvalidAddress(_))
    ));
    assert!(matches!(
        args_for("1.2.x.4", Some("80")).create_address(),
        Err(ScanError::InvalidAddress(_))
    ));
}

#[test]
fn address_is_checked_before_ports() {
    assert!(matches!(
        args_for("bad", Some("0")).create_address(),
        Err(ScanError::InvalidAddress(_))
    ));
}

#[test]
fn parse_octets_exact() {
    assert_eq!(parse_octets("0.0.0.0"), Some((0, 0, 0, 0)));
    assert_eq!(parse_octets("255.255.255.255"), Some((255, 255, 255, 255)));
    assert_eq!(parse_octets("1.2.3"), None);
    assert_eq!(parse_octets("1..2.3"), None);
}

#[test]
fn parse_helpers() {
    assert_eq!(Arguments::parse_u8("255"), Some(255));
    assert_eq!(Arguments::parse_u8("256"), None);
    assert_eq!(Arguments::parse_u8(""), None);
    assert_eq!(Arguments::parse_u32("4294967295"), Some(4294967295));
    assert_eq!(Arguments::parse_u32("4294967296"), None);
    assert_eq!(Arguments::parse_u32("17"), Some(17));
}

#[test]
fn error_messages_name_the_text() {
    let e = ScanError::InvalidPortSpec("5-1".to_string());
    assert_eq!(e.message(), "invalid port specification: 5-1");
    let e = ScanError::InvalidAddress("1.2.3".to_string());
    assert_eq!(e.message(), "invalid ip address: 1.2.3");
}
