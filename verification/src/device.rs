//! Hardware (MAC) addresses and the devices that a scan finds.

use vstd::prelude::*;
use crate::ipv4::{Ipv4Addr, dotted};
use crate::text::{
    push_chars,
    hex_digit, hex_digit_char, hex_pair, parse_uint, parse_uint_chars, split, split_chars,
    str_chars, lemma_hex_digit_reads, lemma_hex_pair_reads, split_from, lemma_split_from_run, digits_value, digit_value,
};

verus! {

/// A 48-bit Ethernet hardware address.
#[derive(Debug, Clone, Copy, PartialEq, Eq)]
pub struct MacAddr(pub [u8; 6]);

/// The octets of `b` as lowercase hexadecimal pairs joined by `:`, as
/// `{:02x}:{:02x}:...` writes them.
pub open spec fn hex_join(b: Seq<u8>) -> Seq<char>
    decreases b.len(),
{
    if b.len() == 0 {
        Seq::empty()
    } else if b.len() == 1 {
        hex_pair(b[0])
    } else {
        hex_join(b.drop_last()) + seq![':'] + hex_pair(b.last())
    }
}

/// The value of the `i`-th piece of a MAC address text read as a hexadecimal
/// byte (zero if it does not read).
pub open spec fn mac_piece_value(pieces: Seq<Seq<char>>, i: int) -> u8 {
    match parse_uint(pieces[i], 16, 255) {
        Ok(v) => v as u8,
        Err(_) => 0,
    }
}

/// The octets that the text `s` names as a MAC address: it has six pieces
/// between colons, each a hexadecimal number that fits in a byte as
/// `u8::from_str_radix(_, 16)` reads it.
pub open spec fn parse_mac(s: Seq<char>) -> Option<Seq<u8>> {
    let pieces = split(s, ':');
    if pieces.len() == 6 && forall|i: int| 0 <= i < 6 ==> #[trigger] parse_uint(pieces[i], 16, 255) is Ok {
        Some(Seq::new(6, |i: int| mac_piece_value(pieces, i)))
    } else {
        None
    }
}

impl MacAddr {
    /// Reads a MAC address written as six hexadecimal bytes between colons,
    /// such as `54:df:1b:1f:7a:06`.
    pub fn parse(s: &str) -> (r: Option<MacAddr>)
        ensures
            match r {
                Some(m) => parse_mac(s@) == Some(m.0@),
                None => parse_mac(s@) is None,
            },
    {
        let chars = str_chars(s);
        let pieces = split_chars(&chars, ':');
        let ghost ps = split(s@, ':');
        if pieces.len() != 6 {
            return None;
        }
        let mut bytes: Vec<u8> = Vec::new();
        let mut i: usize = 0;
        while i < 6
            invariant
                ps == split(s@, ':'),
                pieces@.len() == 6,
                ps.len() == 6,
                forall|j: int| 0 <= j < 6 ==> #[trigger] pieces@[j]@ == ps[j],
                i <= 6,
                bytes@.len() == i,
                forall|j: int| 0 <= j < i ==> #[trigger] parse_uint(ps[j], 16, 255) is Ok,
                forall|j: int| 0 <= j < i ==> bytes@[j] == #[trigger] mac_piece_value(ps, j),
            decreases 6 - i,
        {
            assert(pieces@[i as int]@ == ps[i as int]);
            match parse_uint_chars(&pieces[i], 16, 255) {
                Ok(v) => {
                    bytes.push(v as u8);
                },
                Err(_) => {
                    return None;
                },
            }
            i = i + 1;
        }
        let m = MacAddr([bytes[0], bytes[1], bytes[2], bytes[3], bytes[4], bytes[5]]);
        assert(m.0@ =~= Seq::new(6, |i: int| mac_piece_value(ps, i)));
        Some(m)
    }

    /// The address as six lowercase hexadecimal pairs joined by colons.
    pub fn to_string(&self) -> (r: String)
        ensures
            r@ == hex_join(self.0@),
    {
        let mut out = String::new();
        let mut i: usize = 0;
        while i < 6
            invariant
                i <= 6,
                self.0@.len() == 6,
                out@ == hex_join(self.0@.subrange(0, i as int)),
            decreases 6 - i,
        {
            let b = self.0[i];
            let ghost pre = self.0@.subrange(0, i as int);
            let ghost post = self.0@.subrange(0, i + 1);
            assert(post.drop_last() =~= pre);
            assert(post.last() == b);
            if i > 0 {
                out.push(':');
            }
            out.push(hex_digit_char(b / 16));
            out.push(hex_digit_char(b % 16));
            if i == 0 {
                assert(out@ =~= hex_pair(b));
            } else {
                assert(out@ =~= hex_join(pre) + seq![':'] + hex_pair(b));
            }
            i = i + 1;
        }
        assert(self.0@.subrange(0, 6) =~= self.0@);
        out
    }
}

/// A device found on the network: its IPv4 address, its hardware address and
/// its host name.
#[derive(Debug)]
pub struct Device {
    pub ip: Ipv4Addr,
    pub mac: MacAddr,
    pub hostname: String,
}

/// The line of the scan table for a device: address, hardware address and
/// host name, separated by tabs.
pub open spec fn device_text(ip: Ipv4Addr, mac: MacAddr, hostname: Seq<char>) -> Seq<char> {
    dotted(ip.0) + seq!['\t'] + hex_join(mac.0@) + seq!['\t'] + hostname
}

impl Device {
    pub fn new(ip: Ipv4Addr, mac: MacAddr, hostname: &str) -> (r: Device)
        ensures
            r.ip == ip,
            r.mac == mac,
            r.hostname@ == hostname@,
    {
        Device { ip, mac, hostname: hostname.to_owned() }
    }

    /// `address<TAB>hardware address<TAB>host name`.
    pub fn to_string(&self) -> (r: String)
        ensures
            r@ == device_text(self.ip, self.mac, self.hostname@),
    {
        let mut s = self.ip.to_string();
        s.push('\t');
        let m = self.mac.to_string();
        push_chars(&mut s, &str_chars(m.as_str()));
        s.push('\t');
        push_chars(&mut s, &str_chars(self.hostname.as_str()));
        assert(s@ =~= device_text(self.ip, self.mac, self.hostname@));
        s
    }
}

/// How `split` cuts text laid out as six two-character pieces between
/// colons.
proof fn lemma_split_mac_layout(t: Seq<char>)
    requires
        t.len() == 17,
        forall|k: int| 0 <= k < 5 ==> #[trigger] t[3 * k + 2] == ':',
        forall|k: int| 0 <= k < 6 ==> #[trigger] t[3 * k] != ':' && t[3 * k + 1] != ':',
    ensures
        split(t, ':') == seq![
            t.subrange(0, 2),
            t.subrange(3, 5),
            t.subrange(6, 8),
            t.subrange(9, 11),
            t.subrange(12, 14),
            t.subrange(15, 17),
        ],
{
    let e = Seq::<char>::empty();
    let d0 = Seq::<Seq<char>>::empty();
    let d1 = d0.push(t.subrange(0, 2));
    let d2 = d1.push(t.subrange(3, 5));
    let d3 = d2.push(t.subrange(6, 8));
    let d4 = d3.push(t.subrange(9, 11));
    let d5 = d4.push(t.subrange(12, 14));
    let d6 = d5.push(t.subrange(15, 17));
    assert(t[0] != ':' && t[1] != ':') by {
        assert(t[3int * 0] != ':');
    }
    assert(t[2] == ':' && t[5] == ':' && t[8] == ':' && t[11] == ':' && t[14] == ':') by {
        assert(t[3int * 0 + 2] == ':');
        assert(t[3int * 1 + 2] == ':');
        assert(t[3int * 2 + 2] == ':');
        assert(t[3int * 3 + 2] == ':');
        assert(t[3int * 4 + 2] == ':');
    }
    assert(t[3int * 1] != ':' && t[3int * 2] != ':' && t[3int * 3] != ':' && t[3int * 4] != ':' && t[3int * 5]
        != ':');
    lemma_split_from_run(t, ':', 0, 2, e, d0);
    lemma_split_from_run(t, ':', 3, 5, e, d1);
    lemma_split_from_run(t, ':', 6, 8, e, d2);
    lemma_split_from_run(t, ':', 9, 11, e, d3);
    lemma_split_from_run(t, ':', 12, 14, e, d4);
    lemma_split_from_run(t, ':', 15, 17, e, d5);
    assert(e + t.subrange(0, 2) =~= t.subrange(0, 2));
    assert(e + t.subrange(3, 5) =~= t.subrange(3, 5));
    assert(e + t.subrange(6, 8) =~= t.subrange(6, 8));
    assert(e + t.subrange(9, 11) =~= t.subrange(9, 11));
    assert(e + t.subrange(12, 14) =~= t.subrange(12, 14));
    assert(e + t.subrange(15, 17) =~= t.subrange(15, 17));
    assert(split_from(t, ':', 2, t.subrange(0, 2), d0) == split_from(t, ':', 3, e, d1));
    assert(split_from(t, ':', 5, t.subrange(3, 5), d1) == split_from(t, ':', 6, e, d2));
    assert(split_from(t, ':', 8, t.subrange(6, 8), d2) == split_from(t, ':', 9, e, d3));
    assert(split_from(t, ':', 11, t.subrange(9, 11), d3) == split_from(t, ':', 12, e, d4));
    assert(split_from(t, ':', 14, t.subrange(12, 14), d4) == split_from(t, ':', 15, e, d5));
    assert(split_from(t, ':', 17, t.subrange(15, 17), d5) == d6);
    assert(d6 =~= seq![
        t.subrange(0, 2),
        t.subrange(3, 5),
        t.subrange(6, 8),
        t.subrange(9, 11),
        t.subrange(12, 14),
        t.subrange(15, 17),
    ]);
}

/// The text of a MAC address reads back as the same address: `parse` of
/// `to_string` gives the address that was written.
pub proof fn lemma_mac_text_round_trip(m: MacAddr)
    ensures
        parse_mac(hex_join(m.0@)) == Some(m.0@),
{
    let b = m.0@;
    let t = hex_join(b);
    reveal_with_fuel(hex_join, 7);
    assert(b.drop_last().drop_last().drop_last().drop_last().drop_last() =~= seq![b[0]]);
    assert(b.drop_last().drop_last().drop_last().drop_last() =~= seq![b[0], b[1]]);
    assert(b.drop_last().drop_last().drop_last() =~= seq![b[0], b[1], b[2]]);
    assert(b.drop_last().drop_last() =~= seq![b[0], b[1], b[2], b[3]]);
    assert(b.drop_last() =~= seq![b[0], b[1], b[2], b[3], b[4]]);
    assert(t =~= hex_pair(b[0]) + seq![':'] + hex_pair(b[1]) + seq![':'] + hex_pair(b[2]) + seq![':']
        + hex_pair(b[3]) + seq![':'] + hex_pair(b[4]) + seq![':'] + hex_pair(b[5]));
    assert forall|k: int| 0 <= k < 6 implies #[trigger] t[3 * k] != ':' && t[3 * k + 1] != ':'
        && t.subrange(3 * k, 3 * k + 2) =~= hex_pair(b[k]) by {
        lemma_hex_digit_reads(b[k] as nat / 16);
        lemma_hex_digit_reads(b[k] as nat % 16);
    }
    assert forall|k: int| 0 <= k < 5 implies #[trigger] t[3 * k + 2] == ':' by {}
    lemma_split_mac_layout(t);
    let pieces = split(t, ':');
    assert forall|i: int| 0 <= i < 6 implies #[trigger] parse_uint(pieces[i], 16, 255)
        == Ok::<nat, crate::text::ParseIntError>(b[i] as nat) by {
        assert(t[3 * i] != ':');
        assert(pieces[i] == t.subrange(3 * i, 3 * i + 2));
        lemma_hex_pair_reads(b[i]);
    }
    assert(Seq::new(6, |i: int| mac_piece_value(pieces, i)) =~= b);
}

/// Whether `c` is a lowercase hexadecimal digit.
pub open spec fn is_lower_hex_digit(c: char) -> bool {
    let u = c as u32;
    (0x30 <= u <= 0x39) || (0x61 <= u <= 0x66)
}

/// Whether `s` is written as `to_string` writes a MAC address: six pairs of
/// lowercase hexadecimal digits joined by colons.
pub open spec fn is_canonical_mac_text(s: Seq<char>) -> bool {
    &&& s.len() == 17
    &&& forall|i: int| 0 <= i < 17 ==> if i % 3 == 2 {
        s[i] == ':'
    } else {
        is_lower_hex_digit(#[trigger] s[i])
    }
}

/// Text written the way `to_string` writes addresses reads as an address
/// whose `to_string` is that text again.
pub proof fn lemma_canonical_mac_text_round_trip(s: Seq<char>)
    requires
        is_canonical_mac_text(s),
    ensures
        parse_mac(s) matches Some(b) && hex_join(b) == s,
{
    assert forall|k: int| 0 <= k < 5 implies #[trigger] s[3 * k + 2] == ':' by {
        assert((3 * k + 2) % 3 == 2);
    }
    assert forall|k: int| 0 <= k < 6 implies #[trigger] s[3 * k] != ':' && s[3 * k + 1] != ':' && (
    is_lower_hex_digit(s[3 * k]) && is_lower_hex_digit(s[3 * k + 1])) by {
        assert((3 * k) % 3 == 0);
        assert((3 * k + 1) % 3 == 1);
        assert(is_lower_hex_digit(s[3 * k]));
        assert(is_lower_hex_digit(s[3 * k + 1]));
    }
    lemma_split_mac_layout(s);
    let pieces = split(s, ':');
    assert forall|i: int| 0 <= i < 6 implies {
        &&& #[trigger] parse_uint(pieces[i], 16, 255) is Ok
        &&& hex_pair(mac_piece_value(pieces, i)) == pieces[i]
    } by {
        assert(s[3 * i] != ':');
        assert(pieces[i] == s.subrange(3 * i, 3 * i + 2));
        lemma_lower_hex_pair_reads(s[3 * i], s[3 * i + 1]);
        assert(pieces[i] =~= seq![s[3 * i], s[3 * i + 1]]);
    }
    let b = Seq::new(6, |i: int| mac_piece_value(pieces, i));
    reveal_with_fuel(hex_join, 7);
    assert(b.drop_last().drop_last().drop_last().drop_last().drop_last() =~= seq![b[0]]);
    assert(b.drop_last().drop_last().drop_last().drop_last() =~= seq![b[0], b[1]]);
    assert(b.drop_last().drop_last().drop_last() =~= seq![b[0], b[1], b[2]]);
    assert(b.drop_last().drop_last() =~= seq![b[0], b[1], b[2], b[3]]);
    assert(b.drop_last() =~= seq![b[0], b[1], b[2], b[3], b[4]]);
    assert(hex_join(b) =~= pieces[0] + seq![':'] + pieces[1] + seq![':'] + pieces[2] + seq![':']
        + pieces[3] + seq![':'] + pieces[4] + seq![':'] + pieces[5]);
    assert(hex_join(b) =~= s);
}

/// Two lowercase hexadecimal digits read as a byte whose two digits they are.
proof fn lemma_lower_hex_pair_reads(c1: char, c2: char)
    requires
        is_lower_hex_digit(c1),
        is_lower_hex_digit(c2),
    ensures
        parse_uint(seq![c1, c2], 16, 255) matches Ok(v) && v < 256 && hex_pair(v as u8) == seq![
            c1,
            c2,
        ],
{
    let d1 = if (c1 as u32) <= 0x39 { (c1 as u32 - 0x30) as nat } else { (c1 as u32 - 0x61 + 10) as nat };
    let d2 = if (c2 as u32) <= 0x39 { (c2 as u32 - 0x30) as nat } else { (c2 as u32 - 0x61 + 10) as nat };
    assert(digit_value(c1, 16) == Some(d1));
    assert(digit_value(c2, 16) == Some(d2));
    let s = seq![c1, c2];
    let v = d1 * 16 + d2;
    assert(digits_value(s, 16, 255, 2, v) == Ok::<nat, crate::text::ParseIntError>(v));
    assert(digits_value(s, 16, 255, 1, d1) == Ok::<nat, crate::text::ParseIntError>(v));
    assert(v / 16 == d1 && v % 16 == d2);
    assert(hex_digit(d1) as u32 == c1 as u32);
    assert(hex_digit(d2) as u32 == c2 as u32);
    assert(hex_pair(v as u8) =~= seq![c1, c2]);
}

} // verus!
