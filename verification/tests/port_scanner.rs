use lanscan::port_scanner::{
    all_ports, format_tcp_ports, format_udp_ports, open_udp_ports, parse_ports, sort_open_ports,
    ProbeOutcome, UdpState,
};
use lanscan::text::ParseIntError;

#[test]
fn parse_single_port() {
    assert_eq!(parse_ports("22").unwrap(), vec![22]);
}

#[test]
fn parse_range() {
    assert_eq!(parse_ports("20-22").unwrap(), vec![20, 21, 22]);
}

#[test]
fn parse_mixed() {
    assert_eq!(parse_ports("22,80,100-102").unwrap(), vec![22, 80, 100, 101, 102]);
}

#[test]
fn parse_dedup() {
    assert_eq!(parse_ports("22,22,80").unwrap(), vec![22, 80]);
}

#[test]
fn parse_invalid_returns_err() {
    assert!(parse_ports("abc").is_err());
    assert!(parse_ports("22,xyz").is_err());
}

#[test]
fn parse_ports_sorts_and_merges_ranges() {
    assert_eq!(parse_ports("443,100-102,22,101-103").unwrap(), vec![22, 100, 101, 102, 103, 443]);
    assert_eq!(parse_ports(" 22 , 80 - 82 ").unwrap(), vec![22, 80, 81, 82]);
    assert_eq!(parse_ports("+22,0080").unwrap(), vec![22, 80]);
    assert_eq!(parse_ports("65535").unwrap(), vec![65535]);
    assert_eq!(parse_ports("0").unwrap(), vec![0]);
}

#[test]
fn parse_ports_reversed_range_is_empty() {
    assert_eq!(parse_ports("5-3").unwrap(), Vec::<u16>::new());
    assert_eq!(parse_ports("5-3,7").unwrap(), vec![7]);
}

#[test]
fn parse_ports_error_kinds() {
    assert_eq!(parse_ports(""), Err(ParseIntError::Empty));
    assert_eq!(parse_ports("22,"), Err(ParseIntError::Empty));
    assert_eq!(parse_ports("-5"), Err(ParseIntError::Empty));
    assert_eq!(parse_ports("abc"), Err(ParseIntError::InvalidDigit));
    assert_eq!(parse_ports("1-2-3"), Err(ParseIntError::InvalidDigit));
    assert_eq!(parse_ports("+"), Err(ParseIntError::InvalidDigit));
    assert_eq!(parse_ports("65536"), Err(ParseIntError::PosOverflow));
    assert_eq!(parse_ports("99999x"), Err(ParseIntError::PosOverflow));
    assert_eq!(parse_ports("9x"), Err(ParseIntError::InvalidDigit));
    // The first piece that does not read decides the error.
    assert_eq!(parse_ports("1,x,70000"), Err(ParseIntError::InvalidDigit));
    assert_eq!(parse_ports("1,70000,x"), Err(ParseIntError::PosOverflow));
}

#[test]
fn parse_ports_full_range() {
    let all = parse_ports("0-65535").unwrap();
    assert_eq!(all.len(), 65536);
    assert_eq!(all[0], 0);
    assert_eq!(all[65535], 65535);
}

#[test]
fn all_ports_is_one_to_65535() {
    let ports = all_ports();
    assert_eq!(ports.len(), 65535);
    assert_eq!(ports[0], 1);
    assert_eq!(ports[65534], 65535);
}

#[test]
fn sort_open_ports_sorts_keeping_each() {
    assert_eq!(sort_open_ports(vec![443, 22, 80, 22]), vec![22, 22, 80, 443]);
    assert_eq!(sort_open_ports(vec![]), Vec::<u16>::new());
}

#[test]
fn open_udp_ports_drops_closed_and_sorts() {
    let probes = vec![
        (161, UdpState::OpenFiltered),
        (53, UdpState::Open),
        (123, UdpState::Closed),
        (5353, UdpState::OpenFiltered),
    ];
    assert_eq!(
        open_udp_ports(probes),
        vec![(53, UdpState::Open), (161, UdpState::OpenFiltered), (5353, UdpState::OpenFiltered)]
    );
    assert_eq!(open_udp_ports(vec![(7, UdpState::Closed)]), vec![]);
}

#[test]
fn udp_state_from_probe() {
    assert_eq!(UdpState::from_probe(ProbeOutcome::Reply), UdpState::Open);
    assert_eq!(UdpState::from_probe(ProbeOutcome::Refused), UdpState::Closed);
    assert_eq!(UdpState::from_probe(ProbeOutcome::NoReply), UdpState::OpenFiltered);
    assert_eq!(UdpState::from_probe(ProbeOutcome::NoSocket), UdpState::OpenFiltered);
}

#[test]
fn udp_state_text() {
    assert_eq!(UdpState::Open.to_string(), "open");
    assert_eq!(UdpState::Closed.to_string(), "closed");
    assert_eq!(UdpState::OpenFiltered.to_string(), "open|filtered");
}

#[test]
fn scan_table_port_lists() {
    assert_eq!(format_tcp_ports(&vec![22, 80, 443]), "22, 80, 443");
    assert_eq!(format_tcp_ports(&vec![22]), "22");
    assert_eq!(format_tcp_ports(&vec![]), "(none)");
    assert_eq!(
        format_udp_ports(&vec![(53, UdpState::Open), (5353, UdpState::OpenFiltered)]),
        "53, 5353?"
    );
    assert_eq!(format_udp_ports(&vec![]), "(none)");
}

#[test]
fn parse_ports_trims_unicode_white_space() {
    assert_eq!(parse_ports("\u{3000}22\t,\u{a0}80-81\n").unwrap(), vec![22, 80, 81]);
    assert_eq!(parse_ports("２２"), Err(ParseIntError::InvalidDigit));
}
