use lanscan::ipv4::{Ipv4Addr, Ipv4Net};
use lanscan::network::{get_network, local_ipv4, select_interface, InterfaceInfo, IpNet, NetError};

#[test]
fn ipv4_slash24_has_256_addrs() {
    let net = Ipv4Net::parse("192.168.0.0/24").unwrap();
    assert_eq!(net.addresses().len(), 256);
}

#[test]
fn ipv4_slash24_has_254_hosts() {
    let net = Ipv4Net::parse("192.168.0.0/24").unwrap();
    let hosts: Vec<_> = net
        .addresses()
        .into_iter()
        .filter(|ip| *ip != net.network() && *ip != net.broadcast())
        .collect();
    assert_eq!(hosts.len(), 254);
    assert_eq!(hosts[0], Ipv4Addr::new(192, 168, 0, 1));
    assert_eq!(hosts[253], Ipv4Addr::new(192, 168, 0, 254));
}

#[test]
fn ipv4_slash30_has_4_addrs() {
    let net = Ipv4Net::parse("10.0.0.0/30").unwrap();
    assert_eq!(net.size(), 4);
}

#[test]
fn ipv4_net_parse_reads_address_and_prefix() {
    let net = Ipv4Net::parse("192.168.7.9/20").unwrap();
    assert_eq!(net.ip(), Ipv4Addr::new(192, 168, 7, 9));
    assert_eq!(net.prefix(), 20);
    assert_eq!(net.network(), Ipv4Addr::new(192, 168, 0, 0));
    assert_eq!(net.broadcast(), Ipv4Addr::new(192, 168, 15, 255));
    assert_eq!(net.size(), 4096);
    let host = Ipv4Net::parse("10.1.2.3").unwrap();
    assert_eq!(host.prefix(), 32);
    assert!(Ipv4Net::parse("10.0.0.0/33").is_none());
    assert!(Ipv4Net::parse("not a network").is_none());
}

#[test]
fn ipv4_net_new_refuses_long_prefix() {
    assert!(Ipv4Net::new(Ipv4Addr::new(10, 0, 0, 1), 33).is_none());
    let n = Ipv4Net::new(Ipv4Addr::new(10, 0, 0, 1), 0).unwrap();
    assert_eq!(n.network(), Ipv4Addr::new(0, 0, 0, 0));
    assert_eq!(n.broadcast(), Ipv4Addr::new(255, 255, 255, 255));
    assert_eq!(n.size(), 1u64 << 32);
    let one = Ipv4Net::new(Ipv4Addr::new(10, 0, 0, 1), 32).unwrap();
    assert_eq!(one.network(), one.broadcast());
    assert_eq!(one.addresses(), vec![Ipv4Addr::new(10, 0, 0, 1)]);
}

#[test]
fn ipv4_net_contains() {
    let net = Ipv4Net::new(Ipv4Addr::new(192, 168, 1, 77), 24).unwrap();
    assert!(net.contains(Ipv4Addr::new(192, 168, 1, 0)));
    assert!(net.contains(Ipv4Addr::new(192, 168, 1, 255)));
    assert!(!net.contains(Ipv4Addr::new(192, 168, 2, 0)));
    assert!(!net.contains(Ipv4Addr::new(192, 168, 0, 255)));
}

#[test]
fn ipv4_addr_octets_and_text() {
    let a = Ipv4Addr::new(10, 20, 0, 255);
    assert_eq!(a.0, 0x0a1400ff);
    assert_eq!(a.octets(), [10, 20, 0, 255]);
    assert_eq!(a.to_string(), "10.20.0.255");
    assert_eq!(Ipv4Addr::new(0, 0, 0, 0).to_string(), "0.0.0.0");
}

fn iface(name: &str, up: bool, loopback: bool, ips: Vec<IpNet>) -> InterfaceInfo {
    InterfaceInfo { name: name.to_string(), is_up: up, is_loopback: loopback, ips }
}

fn v4(a: u8, b: u8, c: u8, d: u8, p: u8) -> IpNet {
    IpNet::V4(Ipv4Net::new(Ipv4Addr::new(a, b, c, d), p).unwrap())
}

#[test]
fn select_interface_by_name() {
    let ifs = vec![
        iface("lo", true, true, vec![v4(127, 0, 0, 1, 8)]),
        iface("eth0", true, false, vec![v4(192, 168, 0, 225, 24)]),
        iface("eth0", true, false, vec![]),
    ];
    assert_eq!(select_interface(&ifs, Some("eth0")).unwrap(), 1);
    assert_eq!(select_interface(&ifs, Some("lo")).unwrap(), 0);
    match select_interface(&ifs, Some("wlan9")) {
        Err(NetError::InterfaceNotFound(n)) => assert_eq!(n, "wlan9"),
        other => panic!("unexpected {:?}", other),
    }
}

#[test]
fn select_interface_prefers_wired() {
    let ifs = vec![
        iface("lo", true, true, vec![v4(127, 0, 0, 1, 8)]),
        iface("wlan0", true, false, vec![v4(192, 168, 1, 5, 24)]),
        iface("eth1", false, false, vec![v4(10, 0, 0, 2, 8)]),
        iface("eth0", true, false, vec![IpNet::V6, v4(192, 168, 0, 225, 24)]),
        iface("eth2", true, false, vec![v4(10, 1, 0, 2, 16)]),
        iface("docker0", true, false, vec![IpNet::V6]),
    ];
    assert_eq!(select_interface(&ifs, None).unwrap(), 3);
}

#[test]
fn select_interface_falls_back_to_wireless() {
    let ifs = vec![
        iface("lo", true, true, vec![v4(127, 0, 0, 1, 8)]),
        iface("wlp2s0", true, false, vec![v4(192, 168, 1, 5, 24)]),
        iface("wlan0", true, false, vec![v4(192, 168, 2, 5, 24)]),
    ];
    assert_eq!(select_interface(&ifs, None).unwrap(), 1);
}

#[test]
fn select_interface_none_suitable() {
    let ifs = vec![
        iface("lo", true, true, vec![v4(127, 0, 0, 1, 8)]),
        iface("eth0", false, false, vec![v4(10, 0, 0, 1, 8)]),
        iface("eth1", true, false, vec![IpNet::V6]),
    ];
    assert!(matches!(select_interface(&ifs, None), Err(NetError::NoSuitableInterface)));
    assert!(matches!(select_interface(&vec![], None), Err(NetError::NoSuitableInterface)));
}

#[test]
fn get_network_takes_first_ipv4() {
    let f = iface("eth0", true, false, vec![IpNet::V6, v4(192, 168, 0, 225, 24), v4(10, 0, 0, 1, 8)]);
    let net = get_network(&f).unwrap();
    assert_eq!(net.ip(), Ipv4Addr::new(192, 168, 0, 225));
    assert_eq!(net.prefix(), 24);
    assert_eq!(local_ipv4(&f).unwrap(), Ipv4Addr::new(192, 168, 0, 225));
    let g = iface("eth9", true, false, vec![IpNet::V6]);
    match get_network(&g) {
        Err(NetError::NoIpv4Address(n)) => assert_eq!(n, "eth9"),
        other => panic!("unexpected {:?}", other),
    }
    assert!(matches!(local_ipv4(&g), Err(NetError::NoIpv4Address(_))));
}
