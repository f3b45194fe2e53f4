use lanscan::device::MacAddr;
use lanscan::ipv4::{Ipv4Addr, Ipv4Net};
use lanscan::scanner::{arp_targets, build_arp_request, parse_arp_reply, ArpCollector, RxEvent};

fn test_mac() -> MacAddr {
    MacAddr([0x90, 0x2e, 0x16, 0x93, 0xb9, 0x03])
}
fn src_ip() -> Ipv4Addr {
    Ipv4Addr::new(192, 168, 0, 225)
}
fn dst_ip() -> Ipv4Addr {
    Ipv4Addr::new(192, 168, 0, 1)
}

#[test]
fn arp_request_frame_length() {
    let f = build_arp_request(test_mac(), src_ip(), dst_ip());
    assert_eq!(f.len(), 42);
}

#[test]
fn arp_request_dest_is_broadcast() {
    let f = build_arp_request(test_mac(), src_ip(), dst_ip());
    assert_eq!(&f[0..6], &[0xff; 6]);
}

#[test]
fn arp_request_ethertype_is_0806() {
    let f = build_arp_request(test_mac(), src_ip(), dst_ip());
    assert_eq!(f[12], 0x08);
    assert_eq!(f[13], 0x06);
}

#[test]
fn arp_request_operation_is_1() {
    let f = build_arp_request(test_mac(), src_ip(), dst_ip());
    assert_eq!(f[20], 0x00);
    assert_eq!(f[21], 0x01);
}

#[test]
fn parse_non_arp_returns_none() {
    let mut f = vec![0u8; 60];
    f[12] = 0x08;
    f[13] = 0x00; // IPv4
    assert!(parse_arp_reply(&f).is_none());
}

#[test]
fn parse_arp_request_returns_none() {
    let f = build_arp_request(test_mac(), src_ip(), dst_ip());
    assert!(parse_arp_reply(&f).is_none());
}

fn synthetic_reply(mac: [u8; 6], ip: [u8; 4]) -> Vec<u8> {
    let mut f = vec![0u8; 42];
    f[12] = 0x08;
    f[13] = 0x06; // ARP ethertype
    f[14] = 0x00;
    f[15] = 0x01; // hw type = Ethernet
    f[16] = 0x08;
    f[17] = 0x00; // proto = IPv4
    f[18] = 6;
    f[19] = 4;
    f[20] = 0x00;
    f[21] = 0x02; // operation = reply
    f[22..28].copy_from_slice(&mac); // sender MAC
    f[28..32].copy_from_slice(&ip); // sender IP
    f
}

#[test]
fn parse_synthetic_arp_reply() {
    let f = synthetic_reply([0x54, 0xdf, 0x1b, 0x1f, 0x7a, 0x06], [192, 168, 0, 247]);
    let (ip, mac) = parse_arp_reply(&f).expect("should parse");
    assert_eq!(ip, Ipv4Addr::new(192, 168, 0, 247));
    assert_eq!(mac.to_string(), "54:df:1b:1f:7a:06");
}

#[test]
fn arp_request_whole_frame() {
    let f = build_arp_request(test_mac(), src_ip(), dst_ip());
    let expected: Vec<u8> = vec![
        0xff, 0xff, 0xff, 0xff, 0xff, 0xff, 0x90, 0x2e, 0x16, 0x93, 0xb9, 0x03, 0x08, 0x06, 0x00,
        0x01, 0x08, 0x00, 6, 4, 0x00, 0x01, 0x90, 0x2e, 0x16, 0x93, 0xb9, 0x03, 192, 168, 0, 225,
        0, 0, 0, 0, 0, 0, 192, 168, 0, 1,
    ];
    assert_eq!(f, expected);
}

#[test]
fn parse_arp_reply_edges() {
    let f = synthetic_reply([1, 2, 3, 4, 5, 6], [10, 0, 0, 9]);
    // One byte short of a full ARP packet.
    assert!(parse_arp_reply(&f[..41]).is_none());
    assert!(parse_arp_reply(&f[..13]).is_none());
    assert!(parse_arp_reply(&[]).is_none());
    // Trailing padding is ignored.
    let mut padded = f.clone();
    padded.extend_from_slice(&[0u8; 18]);
    assert_eq!(
        parse_arp_reply(&padded),
        Some((Ipv4Addr::new(10, 0, 0, 9), MacAddr([1, 2, 3, 4, 5, 6])))
    );
    // Any operation other than 2 is not a reply.
    let mut op3 = f.clone();
    op3[21] = 3;
    assert!(parse_arp_reply(&op3).is_none());
}

#[test]
fn arp_targets_of_slash24() {
    let net = Ipv4Net::parse("192.168.0.0/24").unwrap();
    let t = arp_targets(&net, src_ip());
    assert_eq!(t.len(), 253);
    assert_eq!(t[0], Ipv4Addr::new(192, 168, 0, 1));
    assert_eq!(t[252], Ipv4Addr::new(192, 168, 0, 254));
    assert!(!t.contains(&src_ip()));
    let outside = arp_targets(&net, Ipv4Addr::new(10, 0, 0, 1));
    assert_eq!(outside.len(), 254);
}

#[test]
fn arp_targets_of_small_networks() {
    let n30 = Ipv4Net::parse("10.0.0.0/30").unwrap();
    assert_eq!(arp_targets(&n30, Ipv4Addr::new(10, 0, 0, 1)), vec![Ipv4Addr::new(10, 0, 0, 2)]);
    let n31 = Ipv4Net::parse("10.0.0.0/31").unwrap();
    assert!(arp_targets(&n31, Ipv4Addr::new(1, 1, 1, 1)).is_empty());
    let n32 = Ipv4Net::parse("10.0.0.5/32").unwrap();
    assert!(arp_targets(&n32, Ipv4Addr::new(1, 1, 1, 1)).is_empty());
}

#[test]
fn arp_collector_keeps_first_reply_per_address() {
    let net = Ipv4Net::parse("192.168.0.0/24").unwrap();
    let mut c = ArpCollector::new(net);
    let r1 = synthetic_reply([1, 1, 1, 1, 1, 1], [192, 168, 0, 10]);
    let r2 = synthetic_reply([2, 2, 2, 2, 2, 2], [192, 168, 0, 10]);
    let r3 = synthetic_reply([3, 3, 3, 3, 3, 3], [192, 168, 0, 3]);
    let outside = synthetic_reply([4, 4, 4, 4, 4, 4], [10, 0, 0, 3]);
    assert!(c.handle(&RxEvent::Frame(r1)));
    assert!(c.handle(&RxEvent::Quiet));
    assert!(c.handle(&RxEvent::Frame(r2)));
    assert!(c.handle(&RxEvent::Frame(outside)));
    assert!(c.handle(&RxEvent::Frame(build_arp_request(test_mac(), src_ip(), dst_ip()))));
    assert!(c.handle(&RxEvent::Frame(r3)));
    assert!(!c.handle(&RxEvent::Failed));
    assert_eq!(
        c.devices(),
        vec![
            (Ipv4Addr::new(192, 168, 0, 10), MacAddr([1, 1, 1, 1, 1, 1])),
            (Ipv4Addr::new(192, 168, 0, 3), MacAddr([3, 3, 3, 3, 3, 3])),
        ]
    );
}
