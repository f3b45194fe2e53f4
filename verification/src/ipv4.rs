//! IPv4 addresses and networks (an address with a prefix length), with the
//! address arithmetic that a subnet scan needs.

use vstd::prelude::*;
use vstd::arithmetic::power2::{pow2, lemma_pow2_unfold, lemma_pow2_adds, lemma2_to64};
use vstd::arithmetic::div_mod::lemma_fundamental_div_mod;
use crate::text::{decimal, push_decimal};

verus! {

/// An IPv4 address, held as its 32-bit value (the first octet most significant).
#[derive(Debug, Clone, Copy, PartialEq, Eq)]
pub struct Ipv4Addr(pub u32);

/// The value of the address with octets `a.b.c.d`.
pub open spec fn octets_value(a: u8, b: u8, c: u8, d: u8) -> nat {
    a as nat * 16777216 + b as nat * 65536 + c as nat * 256 + d as nat
}

/// The four octets of the address value `v`, most significant first.
pub open spec fn octets_of(v: u32) -> Seq<u8> {
    seq![
        (v as nat / 16777216) as u8,
        (v as nat / 65536 % 256) as u8,
        (v as nat / 256 % 256) as u8,
        (v as nat % 256) as u8,
    ]
}

/// The dotted-decimal text of the address value `v`, as `{}` writes an
/// `Ipv4Addr`.
pub open spec fn dotted(v: u32) -> Seq<char> {
    let o = octets_of(v);
    decimal(o[0] as nat) + seq!['.'] + decimal(o[1] as nat) + seq!['.'] + decimal(o[2] as nat)
        + seq!['.'] + decimal(o[3] as nat)
}

impl Ipv4Addr {
    /// The address `a.b.c.d`.
    pub fn new(a: u8, b: u8, c: u8, d: u8) -> (r: Ipv4Addr)
        ensures
            r.0 == octets_value(a, b, c, d),
    {
        Ipv4Addr(a as u32 * 16777216 + b as u32 * 65536 + c as u32 * 256 + d as u32)
    }

    /// The four octets, most significant first.
    pub fn octets(&self) -> (r: [u8; 4])
        ensures
            r@ == octets_of(self.0),
    {
        let v = self.0;
        let r = [(v / 16777216) as u8, (v / 65536 % 256) as u8, (v / 256 % 256) as u8, (v % 256) as u8];
        assert(r@ =~= octets_of(v));
        r
    }

    /// The address in dotted-decimal form, such as `192.168.0.1`.
    pub fn to_string(&self) -> (r: String)
        ensures
            r@ == dotted(self.0),
    {
        let o = self.octets();
        let mut s = String::new();
        push_decimal(&mut s, o[0] as u16);
        s.push('.');
        push_decimal(&mut s, o[1] as u16);
        s.push('.');
        push_decimal(&mut s, o[2] as u16);
        s.push('.');
        push_decimal(&mut s, o[3] as u16);
        assert(s@ =~= dotted(self.0));
        s
    }
}

/// The octets of `a.b.c.d` are `a`, `b`, `c` and `d`.
pub proof fn lemma_octets_of_value(a: u8, b: u8, c: u8, d: u8)
    ensures
        octets_value(a, b, c, d) <= u32::MAX,
        octets_of(octets_value(a, b, c, d) as u32) == seq![a, b, c, d],
{
    let v = octets_value(a, b, c, d);
    assert(v / 16777216 == a) by (nonlinear_arith)
        requires
            v == a as nat * 16777216 + b as nat * 65536 + c as nat * 256 + d as nat,
            a < 256,
            b < 256,
            c < 256,
            d < 256,
    ;
    assert(v / 65536 % 256 == b) by (nonlinear_arith)
        requires
            v == a as nat * 16777216 + b as nat * 65536 + c as nat * 256 + d as nat,
            b < 256,
            c < 256,
            d < 256,
    ;
    assert(v / 256 % 256 == c) by (nonlinear_arith)
        requires
            v == a as nat * 16777216 + b as nat * 65536 + c as nat * 256 + d as nat,
            c < 256,
            d < 256,
    ;
    assert(v % 256 == d) by (nonlinear_arith)
        requires
            v == a as nat * 16777216 + b as nat * 65536 + c as nat * 256 + d as nat,
            d < 256,
    ;
    assert(octets_of(v as u32) =~= seq![a, b, c, d]);
}

/// The number of addresses in a network with a prefix of `prefix` bits.
pub open spec fn block_size(prefix: nat) -> nat {
    pow2((32 - prefix) as nat)
}

/// The value of the lowest address (the network address) of the network of
/// `addr` with a prefix of `prefix` bits.
pub open spec fn net_first(addr: u32, prefix: nat) -> nat {
    (addr as int - (addr as int) % (block_size(prefix) as int)) as nat
}

/// The value of the highest address (the broadcast address) of that network.
pub open spec fn net_last(addr: u32, prefix: nat) -> nat {
    (net_first(addr, prefix) + block_size(prefix) - 1) as nat
}

/// Whether the network of `addr` with a prefix of `prefix` bits holds `ip`.
pub open spec fn net_holds(addr: u32, prefix: nat, ip: u32) -> bool {
    net_first(addr, prefix) <= ip <= net_last(addr, prefix)
}

/// A network's block is a power of two that divides 2^32, so the network lies
/// within the address space and holds its own address.
pub proof fn lemma_net_bounds(addr: u32, prefix: nat)
    requires
        prefix <= 32,
    ensures
        1 <= block_size(prefix) <= 4294967296,
        net_first(addr, prefix) <= addr <= net_last(addr, prefix),
        net_last(addr, prefix) <= u32::MAX,
        net_first(addr, prefix) % block_size(prefix) == 0,
        0 <= (addr as int) % (block_size(prefix) as int) <= addr,
        net_first(addr, prefix) == addr - (addr as int) % (block_size(prefix) as int),
{
    let bs = block_size(prefix);
    let hosts = (32 - prefix) as nat;
    lemma2_to64();
    lemma_pow2_adds(hosts, prefix);
    let p = pow2(prefix);
    assert(bs * p == 4294967296);
    lemma_pow2_pos_local(hosts);
    lemma_pow2_pos_local(prefix);
    lemma_fundamental_div_mod(addr as int, bs as int);
    let q = addr as int / bs as int;
    let r = addr as int % bs as int;
    assert(0 <= r < bs) by (nonlinear_arith)
        requires
            bs >= 1,
            r == addr as int % bs as int,
    ;
    assert(bs <= 4294967296) by (nonlinear_arith)
        requires
            bs * p == 4294967296,
            p >= 1,
            bs >= 1,
    ;
    assert(q >= 0) by (nonlinear_arith)
        requires
            bs >= 1,
            addr >= 0,
            q == addr as int / bs as int,
    ;
    assert(q < p) by (nonlinear_arith)
        requires
            addr == bs * q + r,
            0 <= r,
            addr < 4294967296,
            bs * p == 4294967296,
            bs >= 1,
    ;
    assert(bs * q + bs <= bs * p) by (nonlinear_arith)
        requires
            q < p,
            bs >= 1,
    ;
    assert((bs * q) % (bs as int) == 0) by (nonlinear_arith)
        requires
            bs >= 1,
            q >= 0,
    ;
}

/// The network of `addr` is the block of `block_size(prefix)` addresses that
/// share its quotient by the block size: an address lies in it exactly when
/// it has that quotient, the network address is the one of remainder zero,
/// and the broadcast address the one of the largest remainder.
pub proof fn lemma_net_by_division(addr: u32, prefix: nat, x: u32)
    requires
        prefix <= 32,
    ensures
        net_holds(addr, prefix, x) <==> (x as int) / (block_size(prefix) as int) == (addr as int)
            / (block_size(prefix) as int),
        x == net_first(addr, prefix) <==> (net_holds(addr, prefix, x) && (x as int) % (block_size(
            prefix,
        ) as int) == 0),
        x == net_last(addr, prefix) <==> (net_holds(addr, prefix, x) && (x as int) % (block_size(
            prefix,
        ) as int) == block_size(prefix) - 1),
{
    lemma_net_bounds(addr, prefix);
    let b = block_size(prefix) as int;
    let a = addr as int;
    let xi = x as int;
    lemma_fundamental_div_mod(a, b);
    lemma_fundamental_div_mod(xi, b);
    let q = a / b;
    let qx = xi / b;
    let rx = xi % b;
    assert(0 <= rx < b) by (nonlinear_arith)
        requires
            b >= 1,
            rx == xi % b,
    ;
    assert(net_first(addr, prefix) == b * q);
    assert(net_holds(addr, prefix, x) <==> qx == q) by (nonlinear_arith)
        requires
            xi == b * qx + rx,
            0 <= rx < b,
            net_holds(addr, prefix, x) <==> (b * q <= xi && xi <= b * q + b - 1),
    ;
    let f = net_first(addr, prefix) as int;
    let l = net_last(addr, prefix) as int;
    assert(l == f + b - 1);
    if xi == f || xi == l {
        assert(net_holds(addr, prefix, x));
        assert(qx == q);
        assert(xi == b * q + rx) by (nonlinear_arith)
            requires
                xi == b * qx + rx,
                qx == q,
        ;
    }
    if qx == q && rx == 0 {
        assert(xi == b * q) by (nonlinear_arith)
            requires
                xi == b * qx + rx,
                qx == q,
                rx == 0,
        ;
    }
    if qx == q && rx == b - 1 {
        assert(xi == b * q + b - 1) by (nonlinear_arith)
            requires
                xi == b * qx + rx,
                qx == q,
                rx == b - 1,
        ;
    }
}

proof fn lemma_pow2_pos_local(e: nat)
    ensures
        pow2(e) >= 1,
    decreases e,
{
    if e > 0 {
        lemma_pow2_unfold(e);
        lemma_pow2_pos_local((e - 1) as nat);
    } else {
        lemma2_to64();
    }
}

/// `pow2(e)` for `e <= 32`, computed.
fn block_of(prefix: u8) -> (r: u64)
    requires
        prefix <= 32,
    ensures
        r == block_size(prefix as nat),
        1 <= r <= 4294967296,
{
    let hosts: u8 = 32 - prefix;
    let mut b: u64 = 1;
    let mut k: u8 = 0;
    proof {
        lemma2_to64();
    }
    while k < hosts
        invariant
            k <= hosts <= 32,
            b == pow2(k as nat),
            b <= 4294967296,
        decreases hosts - k,
    {
        proof {
            lemma_pow2_unfold((k + 1) as nat);
            lemma2_to64();
            if k < 32 {
                assert(pow2(k as nat) <= pow2(31)) by {
                    lemma_pow2_monotone(k as nat, 31);
                }
            }
        }
        b = b * 2;
        k = k + 1;
    }
    proof {
        lemma_net_bounds(0, prefix as nat);
    }
    b
}

proof fn lemma_pow2_monotone(e1: nat, e2: nat)
    requires
        e1 <= e2,
    ensures
        pow2(e1) <= pow2(e2),
    decreases e2 - e1,
{
    if e1 < e2 {
        lemma_pow2_monotone(e1, (e2 - 1) as nat);
        lemma_pow2_unfold(e2);
    }
}

/// What `ipnetwork`'s `Ipv4Network::from_str` reads from a text: the address
/// value and the prefix length, or `None` where it returns an error.
pub uninterp spec fn ipnetwork_parse_v4(s: Seq<char>) -> Option<(u32, u8)>;

/// Calls `<ipnetwork::Ipv4Network as FromStr>::from_str` on `s`. Trusted: the
/// result is named `ipnetwork_parse_v4(s@)` (a function of the text alone), and
/// a prefix it returns is at most 32, since it builds every network through
/// `Ipv4Network::new`, which refuses a longer prefix. Which texts it accepts
/// (`a.b.c.d`, `a.b.c.d/n`, `a.b.c.d/netmask`) is not stated.
#[verifier::external_body]
fn ipnetwork_from_str(s: &str) -> (r: Option<(u32, u8)>)
    ensures
        r == ipnetwork_parse_v4(s@),
        r matches Some((_, p)) ==> p <= 32,
{
    match s.parse::<ipnetwork::Ipv4Network>() {
        Ok(n) => Some((u32::from(n.ip()), n.prefix())),
        Err(_) => None,
    }
}

/// An IPv4 network: an address and a prefix length of at most 32 bits.
#[derive(Debug, Clone, Copy, PartialEq, Eq)]
pub struct Ipv4Net {
    addr: Ipv4Addr,
    prefix: u8,
}

impl View for Ipv4Net {
    /// The address value and the prefix length.
    type V = (u32, nat);

    closed spec fn view(&self) -> (u32, nat) {
        (self.addr.0, self.prefix as nat)
    }
}

impl Ipv4Net {
    #[verifier::type_invariant]
    spec fn prefix_fits(self) -> bool {
        self.prefix <= 32
    }

    /// The network of `ip` with a prefix of `prefix` bits; `None` when the
    /// prefix is longer than 32 bits.
    pub fn new(ip: Ipv4Addr, prefix: u8) -> (r: Option<Ipv4Net>)
        ensures
            match r {
                Some(n) => prefix <= 32 && n@ == (ip.0, prefix as nat),
                None => prefix > 32,
            },
    {
        if prefix > 32 {
            None
        } else {
            Some(Ipv4Net { addr: ip, prefix })
        }
    }

    /// Reads a network in CIDR notation, such as `192.168.0.0/24`, as the
    /// `ipnetwork` crate reads an `Ipv4Network`.
    pub fn parse(s: &str) -> (r: Option<Ipv4Net>)
        ensures
            match r {
                Some(n) => ipnetwork_parse_v4(s@) == Some((n@.0, n@.1 as u8)),
                None => ipnetwork_parse_v4(s@) is None,
            },
    {
        match ipnetwork_from_str(s) {
            Some((a, p)) => Ipv4Net::new(Ipv4Addr(a), p),
            None => None,
        }
    }

    /// The address the network was given.
    pub fn ip(&self) -> (r: Ipv4Addr)
        ensures
            r.0 == self@.0,
    {
        self.addr
    }

    /// The prefix length, at most 32.
    pub fn prefix(&self) -> (r: u8)
        ensures
            r == self@.1,
            r <= 32,
    {
        proof {
            use_type_invariant(self);
        }
        self.prefix
    }

    /// The number of addresses in the network, 2^(32 - prefix).
    pub fn size(&self) -> (r: u64)
        ensures
            r == block_size(self@.1),
    {
        proof {
            use_type_invariant(self);
        }
        block_of(self.prefix)
    }

    /// The lowest address of the network.
    pub fn network(&self) -> (r: Ipv4Addr)
        ensures
            r.0 == net_first(self@.0, self@.1),
    {
        proof {
            use_type_invariant(self);
            lemma_net_bounds(self.addr.0, self.prefix as nat);
        }
        let b = block_of(self.prefix);
        let a = self.addr.0 as u64;
        Ipv4Addr((a - a % b) as u32)
    }

    /// The highest address of the network.
    pub fn broadcast(&self) -> (r: Ipv4Addr)
        ensures
            r.0 == net_last(self@.0, self@.1),
    {
        proof {
            use_type_invariant(self);
            lemma_net_bounds(self.addr.0, self.prefix as nat);
        }
        let b = block_of(self.prefix);
        let a = self.addr.0 as u64;
        Ipv4Addr((a - a % b + (b - 1)) as u32)
    }

    /// Whether `ip` lies in the network.
    pub fn contains(&self, ip: Ipv4Addr) -> (r: bool)
        ensures
            r == net_holds(self@.0, self@.1, ip.0),
    {
        let first = self.network();
        let last = self.broadcast();
        first.0 <= ip.0 && ip.0 <= last.0
    }

    /// Every address of the network, lowest first.
    pub fn addresses(&self) -> (r: Vec<Ipv4Addr>)
        ensures
            r@.len() == block_size(self@.1),
            forall|i: int| 0 <= i < r@.len() ==> #[trigger] r@[i].0 == net_first(self@.0, self@.1) + i,
    {
        proof {
            use_type_invariant(self);
            lemma_net_bounds(self.addr.0, self.prefix as nat);
        }
        let b = block_of(self.prefix);
        let first = self.network().0 as u64;
        let mut out: Vec<Ipv4Addr> = Vec::new();
        let mut i: u64 = 0;
        while i < b
            invariant
                b == block_size(self@.1),
                first == net_first(self@.0, self@.1),
                first + b <= 4294967296,
                i <= b,
                out@.len() == i,
                forall|k: int| 0 <= k < out@.len() ==> #[trigger] out@[k].0 == first + k,
            decreases b - i,
        {
            out.push(Ipv4Addr((first + i) as u32));
            i = i + 1;
        }
        out
    }
}

} // verus!
