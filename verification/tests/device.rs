use lanscan::device::{Device, MacAddr};
use lanscan::ipv4::Ipv4Addr;

#[test]
fn mac_display_lowercase_hex() {
    let mac = MacAddr([0x54, 0xdf, 0x1b, 0x1f, 0x7a, 0x06]);
    assert_eq!(mac.to_string(), "54:df:1b:1f:7a:06");
}

#[test]
fn mac_parse_roundtrip() {
    let s = "54:df:1b:1f:7a:06";
    let mac = MacAddr::parse(s).expect("valid MAC");
    assert_eq!(mac.to_string(), s);
}

#[test]
fn mac_parse_invalid_returns_none() {
    assert!(MacAddr::parse("zz:gg:hh:00:00:00").is_none());
    assert!(MacAddr::parse("aa:bb:cc").is_none());
    assert!(MacAddr::parse("").is_none());
}

#[test]
fn mac_all_zeroes() {
    let mac = MacAddr([0u8; 6]);
    assert_eq!(mac.to_string(), "00:00:00:00:00:00");
}

#[test]
fn device_display() {
    let d = Device::new(
        Ipv4Addr::new(192, 168, 0, 1),
        MacAddr([0x4c, 0x22, 0xf3, 0x6a, 0x0b, 0x4f]),
        "router.local",
    );
    assert_eq!(d.to_string(), "192.168.0.1\t4c:22:f3:6a:0b:4f\trouter.local");
}

#[test]
fn mac_parse_reads_uppercase_and_short_pieces() {
    let mac = MacAddr::parse("AA:b:0C:1:FF:00").expect("valid MAC");
    assert_eq!(mac, MacAddr([0xaa, 0x0b, 0x0c, 0x01, 0xff, 0x00]));
    assert_eq!(mac.to_string(), "aa:0b:0c:01:ff:00");
}

#[test]
fn mac_parse_follows_from_str_radix() {
    // A leading `+` and leading zeros are accepted, as `u8::from_str_radix` accepts them.
    assert_eq!(MacAddr::parse("+1:2:3:4:5:006"), Some(MacAddr([1, 2, 3, 4, 5, 6])));
    // A value above 0xff, a sign alone, a minus sign and an empty piece are refused.
    assert!(MacAddr::parse("100:0:0:0:0:0").is_none());
    assert!(MacAddr::parse("+:0:0:0:0:0").is_none());
    assert!(MacAddr::parse("-1:0:0:0:0:0").is_none());
    assert!(MacAddr::parse("00::00:00:00:00").is_none());
    // Seven pieces, and surrounding white space, are refused.
    assert!(MacAddr::parse("00:00:00:00:00:00:00").is_none());
    assert!(MacAddr::parse(" 00:00:00:00:00:00").is_none());
}

#[test]
fn mac_text_round_trips_for_many_addresses() {
    for b in [0u8, 1, 9, 10, 15, 16, 127, 128, 200, 255] {
        let mac = MacAddr([b, 255 - b, b / 2, b ^ 0x5a, 0x10, b]);
        assert_eq!(MacAddr::parse(&mac.to_string()), Some(mac));
    }
}

#[test]
fn device_new_keeps_fields() {
    let d = Device::new(Ipv4Addr::new(10, 0, 0, 7), MacAddr([1, 2, 3, 4, 5, 6]), "(unknown)");
    assert_eq!(d.ip, Ipv4Addr::new(10, 0, 0, 7));
    assert_eq!(d.mac, MacAddr([1, 2, 3, 4, 5, 6]));
    assert_eq!(d.hostname, "(unknown)");
    assert_eq!(d.to_string(), "10.0.0.7\t01:02:03:04:05:06\t(unknown)");
}
