//! ARP discovery: the request frames sent to each host of a subnet, the
//! reading of reply frames, and the collection of the replies that arrive.

use vstd::prelude::*;
use crate::device::MacAddr;
use crate::ipv4::{
    Ipv4Addr, Ipv4Net, octets_of, net_first, net_last, net_holds, lemma_net_bounds, block_size,
    lemma_net_by_division, lemma_octets_of_value,
};

verus! {

/// The 42-byte Ethernet frame that asks, from `sender_mac` / `sender_ip`, who
/// has `target_ip`: broadcast destination, EtherType ARP (0x0806), then an ARP
/// request (hardware type Ethernet, protocol IPv4, lengths 6 and 4, operation
/// 1) with the sender's addresses, a zero target hardware address and the
/// target's IPv4 address.
pub open spec fn arp_request_frame(sender_mac: Seq<u8>, sender_ip: u32, target_ip: u32) -> Seq<u8> {
    seq![0xffu8, 0xff, 0xff, 0xff, 0xff, 0xff] + sender_mac + seq![0x08u8, 0x06] + seq![
        0x00u8,
        0x01,
        0x08,
        0x00,
        6,
        4,
        0x00,
        0x01,
    ] + sender_mac + octets_of(sender_ip) + seq![0u8, 0, 0, 0, 0, 0] + octets_of(target_ip)
}

/// The value of the four bytes of `f` from index `i`, most significant first.
pub open spec fn be32_at(f: Seq<u8>, i: int) -> nat {
    f[i] as nat * 16777216 + f[i + 1] as nat * 65536 + f[i + 2] as nat * 256 + f[i + 3] as nat
}

/// What a received frame says when it is an ARP reply: the sender's IPv4
/// address value and hardware address. That is so when the frame holds an
/// Ethernet header (14 bytes) with EtherType ARP followed by a full ARP
/// packet (28 bytes) whose operation is 2 (reply); other fields are not
/// checked.
pub open spec fn arp_reply_sender(f: Seq<u8>) -> Option<(nat, Seq<u8>)> {
    if f.len() >= 42 && f[12] == 0x08 && f[13] == 0x06 && f[20] == 0x00 && f[21] == 0x02 {
        Some((be32_at(f, 28), f.subrange(22, 28)))
    } else {
        None
    }
}

fn push_mac(v: &mut Vec<u8>, mac: &MacAddr)
    ensures
        final(v)@ == old(v)@ + mac.0@,
{
    let mut i: usize = 0;
    while i < 6
        invariant
            i <= 6,
            mac.0@.len() == 6,
            v@ == old(v)@ + mac.0@.subrange(0, i as int),
        decreases 6 - i,
    {
        v.push(mac.0[i]);
        i = i + 1;
        assert(mac.0@.subrange(0, i as int) =~= mac.0@.subrange(0, i - 1).push(mac.0@[i - 1]));
    }
    assert(mac.0@.subrange(0, 6) =~= mac.0@);
}

fn push_ip(v: &mut Vec<u8>, ip: &Ipv4Addr)
    ensures
        final(v)@ == old(v)@ + octets_of(ip.0),
{
    let o = ip.octets();
    v.push(o[0]);
    v.push(o[1]);
    v.push(o[2]);
    v.push(o[3]);
    assert(v@ =~= old(v)@ + octets_of(ip.0));
}

/// The ARP request frame asking who has `target_ip`, sent from `sender_mac`
/// and `sender_ip`.
pub fn build_arp_request(sender_mac: MacAddr, sender_ip: Ipv4Addr, target_ip: Ipv4Addr) -> (r: Vec<u8>)
    ensures
        r@ == arp_request_frame(sender_mac.0@, sender_ip.0, target_ip.0),
        r@.len() == 42,
{
    let mut f: Vec<u8> = Vec::new();
    let mut i: usize = 0;
    while i < 6
        invariant
            i <= 6,
            f@ == Seq::new(i as nat, |k: int| 0xffu8),
        decreases 6 - i,
    {
        f.push(0xff);
        i = i + 1;
        assert(f@ =~= Seq::new(i as nat, |k: int| 0xffu8));
    }
    push_mac(&mut f, &sender_mac);
    f.push(0x08);
    f.push(0x06);
    f.push(0x00);
    f.push(0x01);
    f.push(0x08);
    f.push(0x00);
    f.push(6);
    f.push(4);
    f.push(0x00);
    f.push(0x01);
    push_mac(&mut f, &sender_mac);
    push_ip(&mut f, &sender_ip);
    let mut j: usize = 0;
    let ghost before = f@;
    while j < 6
        invariant
            j <= 6,
            f@ == before + Seq::new(j as nat, |k: int| 0u8),
        decreases 6 - j,
    {
        f.push(0);
        j = j + 1;
        assert(f@ =~= before + Seq::new(j as nat, |k: int| 0u8));
    }
    push_ip(&mut f, &target_ip);
    assert(f@ =~= arp_request_frame(sender_mac.0@, sender_ip.0, target_ip.0));
    f
}

/// Reads a received frame as an ARP reply: the sender's IPv4 address and
/// hardware address, or `None` for any other frame.
pub fn parse_arp_reply(frame: &[u8]) -> (r: Option<(Ipv4Addr, MacAddr)>)
    ensures
        match r {
            Some((ip, mac)) => arp_reply_sender(frame@) == Some((ip.0 as nat, mac.0@)),
            None => arp_reply_sender(frame@) is None,
        },
        r is Some <==> (frame@.len() >= 42 && frame@[12] == 0x08 && frame@[13] == 0x06
            && frame@[20] == 0x00 && frame@[21] == 0x02),
        r matches Some((ip, mac)) ==> octets_of(ip.0) == frame@.subrange(28, 32) && mac.0@
            == frame@.subrange(22, 28),
{
    proof {
        lemma_arp_reply_fields(frame@);
    }
    if frame.len() < 14 {
        return None;
    }
    if frame[12] != 0x08 || frame[13] != 0x06 {
        return None;
    }
    if frame.len() - 14 < 28 {
        return None;
    }
    if frame[20] != 0x00 || frame[21] != 0x02 {
        return None;
    }
    let ip = Ipv4Addr::new(frame[28], frame[29], frame[30], frame[31]);
    let mac = MacAddr([frame[22], frame[23], frame[24], frame[25], frame[26], frame[27]]);
    assert(mac.0@ =~= frame@.subrange(22, 28));
    Some((ip, mac))
}

/// Whether the scan of `net` from `sender` sends a request to `x`: every
/// address of the network except its network and broadcast addresses and
/// the sender's own.
pub open spec fn is_arp_target(net: (u32, nat), sender: u32, x: u32) -> bool {
    &&& net_holds(net.0, net.1, x)
    &&& x != net_first(net.0, net.1)
    &&& x != net_last(net.0, net.1)
    &&& x != sender
}

/// How many addresses a scan of `net` from `sender` asks for: all but the
/// network and broadcast addresses, less one when the sender is a host of
/// the network.
pub open spec fn arp_target_count(net: (u32, nat), sender: u32) -> nat {
    let b = block_size(net.1);
    let host = net_holds(net.0, net.1, sender) && sender != net_first(net.0, net.1) && sender
        != net_last(net.0, net.1);
    if b <= 2 {
        0
    } else if host {
        (b - 3) as nat
    } else {
        (b - 2) as nat
    }
}

/// How many of the addresses from `first` up to (not including) `x` a scan
/// asks for.
pub open spec fn targets_below(first: nat, last: nat, sender: nat, x: nat) -> int {
    (x - first) - (if x > first { 1int } else { 0 }) - (if x > last && last != first {
        1int
    } else {
        0
    }) - (if first < sender < x && sender != last {
        1int
    } else {
        0
    })
}

/// The addresses asked for are those that share the network's quotient by
/// the block size, other than the ones of remainder zero (the network
/// address) and of the largest remainder (the broadcast address), and other
/// than the sender's.
pub proof fn lemma_arp_target_by_division(net: (u32, nat), sender: u32, x: u32)
    requires
        net.1 <= 32,
    ensures
        is_arp_target(net, sender, x) <==> {
            &&& (x as int) / (block_size(net.1) as int) == (net.0 as int) / (block_size(
                net.1,
            ) as int)
            &&& (x as int) % (block_size(net.1) as int) != 0
            &&& (x as int) % (block_size(net.1) as int) != block_size(net.1) - 1
            &&& x != sender
        },
{
    lemma_net_by_division(net.0, net.1, x);
}

/// A scan asks for all the addresses of its network but two (the network
/// and broadcast addresses), and one fewer when the sender is one of them.
pub proof fn lemma_arp_target_count(net: (u32, nat), sender: u32)
    requires
        net.1 <= 32,
    ensures
        arp_target_count(net, sender) == if block_size(net.1) <= 2 {
            0
        } else if (sender as int) / (block_size(net.1) as int) == (net.0 as int) / (block_size(
            net.1,
        ) as int) && (sender as int) % (block_size(net.1) as int) != 0 && (sender as int) % (
        block_size(net.1) as int) != block_size(net.1) - 1 {
            block_size(net.1) - 3
        } else {
            block_size(net.1) - 2
        },
{
    lemma_net_by_division(net.0, net.1, sender);
}

/// Whether the addresses in `v` strictly increase.
pub open spec fn ascending_addrs(v: Seq<Ipv4Addr>) -> bool {
    forall|i: int, j: int| 0 <= i < j < v.len() ==> v[i].0 < v[j].0
}

/// The addresses an ARP scan of `net` from `sender_ip` asks for, lowest first.
pub fn arp_targets(net: &Ipv4Net, sender_ip: Ipv4Addr) -> (r: Vec<Ipv4Addr>)
    ensures
        ascending_addrs(r@),
        forall|x: u32| r@.contains(Ipv4Addr(x)) <==> is_arp_target(net@, sender_ip.0, x),
        r@.len() == arp_target_count(net@, sender_ip.0),
        forall|x: u32|
            r@.contains(Ipv4Addr(x)) <==> {
                &&& (x as int) / (block_size(net@.1) as int) == (net@.0 as int) / (block_size(
                    net@.1,
                ) as int)
                &&& (x as int) % (block_size(net@.1) as int) != 0
                &&& (x as int) % (block_size(net@.1) as int) != block_size(net@.1) - 1
                &&& x != sender_ip.0
            },
        r@.len() == if block_size(net@.1) <= 2 {
            0
        } else if (sender_ip.0 as int) / (block_size(net@.1) as int) == (net@.0 as int) / (
        block_size(net@.1) as int) && (sender_ip.0 as int) % (block_size(net@.1) as int) != 0 && (
        sender_ip.0 as int) % (block_size(net@.1) as int) != block_size(net@.1) - 1 {
            block_size(net@.1) - 3
        } else {
            block_size(net@.1) - 2
        },
{
    let first = net.network().0;
    let last = net.broadcast().0;
    let _p = net.prefix();
    proof {
        lemma_net_bounds(net@.0, net@.1);
    }
    let mut out: Vec<Ipv4Addr> = Vec::new();
    let mut x: u64 = first as u64;
    while x <= last as u64
        invariant
            first == net_first(net@.0, net@.1),
            last == net_last(net@.0, net@.1),
            first <= x <= last as u64 + 1,
            out@.len() == targets_below(first as nat, last as nat, sender_ip.0 as nat, x as nat),
            ascending_addrs(out@),
            forall|k: int| 0 <= k < out@.len() ==> (#[trigger] out@[k]).0 < x,
            forall|y: u32|
                out@.contains(Ipv4Addr(y)) <==> (y < x && is_arp_target(net@, sender_ip.0, y)),
        decreases last as u64 + 1 - x,
    {
        let y = x as u32;
        if y != first && y != last && y != sender_ip.0 {
            let ghost before = out@;
            out.push(Ipv4Addr(y));
            assert forall|z: u32|
                out@.contains(Ipv4Addr(z)) <==> (z < x + 1 && is_arp_target(
                    net@,
                    sender_ip.0,
                    z,
                )) by {
                if z == y {
                    assert(out@[before.len() as int] == Ipv4Addr(z));
                } else if before.contains(Ipv4Addr(z)) {
                    let k = choose|k: int| 0 <= k < before.len() && before[k] == Ipv4Addr(z);
                    assert(out@[k] == Ipv4Addr(z));
                } else if out@.contains(Ipv4Addr(z)) {
                    let k = choose|k: int| 0 <= k < out@.len() && out@[k] == Ipv4Addr(z);
                    assert(k < before.len());
                    assert(before[k] == Ipv4Addr(z));
                }
            }
        } else {
            assert forall|z: u32|
                out@.contains(Ipv4Addr(z)) <==> (z < x + 1 && is_arp_target(
                    net@,
                    sender_ip.0,
                    z,
                )) by {
                if out@.contains(Ipv4Addr(z)) {
                    assert(z < x);
                }
            }
        }
        x = x + 1;
    }
    proof {
        lemma_net_bounds(net@.0, net@.1);
        lemma_net_by_division(net@.0, net@.1, sender_ip.0);
        assert forall|z: u32| #[trigger] is_arp_target(net@, sender_ip.0, z) <==> {
            &&& (z as int) / (block_size(net@.1) as int) == (net@.0 as int) / (block_size(
                net@.1,
            ) as int)
            &&& (z as int) % (block_size(net@.1) as int) != 0
            &&& (z as int) % (block_size(net@.1) as int) != block_size(net@.1) - 1
            &&& z != sender_ip.0
        } by {
            lemma_net_by_division(net@.0, net@.1, z);
        }
        assert forall|z: u32| out@.contains(Ipv4Addr(z)) <==> {
            &&& (z as int) / (block_size(net@.1) as int) == (net@.0 as int) / (block_size(
                net@.1,
            ) as int)
            &&& (z as int) % (block_size(net@.1) as int) != 0
            &&& (z as int) % (block_size(net@.1) as int) != block_size(net@.1) - 1
            &&& z != sender_ip.0
        } by {
            lemma_net_by_division(net@.0, net@.1, z);
            if out@.contains(Ipv4Addr(z)) {
                assert(is_arp_target(net@, sender_ip.0, z));
            }
            if is_arp_target(net@, sender_ip.0, z) {
                assert(z as u64 <= last as u64);
                assert(out@.contains(Ipv4Addr(z)));
            }
        }
    }
    out
}

/// A request frame is never read as a reply.
pub proof fn lemma_request_is_not_reply(sender_mac: Seq<u8>, sender_ip: u32, target_ip: u32)
    requires
        sender_mac.len() == 6,
    ensures
        arp_reply_sender(arp_request_frame(sender_mac, sender_ip, target_ip)) is None,
{
    let f = arp_request_frame(sender_mac, sender_ip, target_ip);
    assert(f[21] == 0x01);
}

/// A frame is a reply exactly when it is at least 42 bytes long with
/// EtherType 0x0806 and ARP operation 2; its sender is then the hardware
/// address in bytes 22 to 27 and the IPv4 address whose octets are bytes 28
/// to 31.
pub proof fn lemma_arp_reply_fields(f: Seq<u8>)
    ensures
        arp_reply_sender(f) is Some <==> (f.len() >= 42 && f[12] == 0x08 && f[13] == 0x06 && f[20]
            == 0x00 && f[21] == 0x02),
        arp_reply_sender(f) matches Some((ip, mac)) ==> {
            &&& ip <= u32::MAX
            &&& octets_of(ip as u32) == f.subrange(28, 32)
            &&& mac == f.subrange(22, 28)
        },
{
    if f.len() >= 42 {
        lemma_octets_of_value(f[28], f[29], f[30], f[31]);
        assert(seq![f[28], f[29], f[30], f[31]] =~= f.subrange(28, 32));
    }
}

/// Reading a frame as a reply looks at its length, its EtherType, its ARP
/// operation and the sender's addresses only: frames that agree on these
/// read alike, whatever their other bytes.
pub proof fn lemma_arp_reply_reads_only_its_fields(f: Seq<u8>, g: Seq<u8>)
    requires
        f.len() >= 42,
        g.len() >= 42,
        f[12] == g[12] && f[13] == g[13],
        f[20] == g[20] && f[21] == g[21],
        forall|i: int| 22 <= i < 32 ==> f[i] == g[i],
    ensures
        arp_reply_sender(f) == arp_reply_sender(g),
{
    assert(f.subrange(22, 28) =~= g.subrange(22, 28));
    assert(f[28] == g[28] && f[29] == g[29] && f[30] == g[30] && f[31] == g[31]);
}

/// A request with its operation turned into 2 reads as a reply from the
/// requester: the request carries the sender's addresses where a reply's
/// sender is read.
pub proof fn lemma_request_as_reply(sender_mac: Seq<u8>, sender_ip: u32, target_ip: u32)
    requires
        sender_mac.len() == 6,
    ensures
        arp_reply_sender(arp_request_frame(sender_mac, sender_ip, target_ip).update(21, 0x02))
            == Some((sender_ip as nat, sender_mac)),
{
    let f = arp_request_frame(sender_mac, sender_ip, target_ip).update(21, 0x02);
    assert(f.subrange(22, 28) =~= sender_mac);
    let o = octets_of(sender_ip);
    assert(f[28] == o[0] && f[29] == o[1] && f[30] == o[2] && f[31] == o[3]);
    assert(be32_at(f, 28) == sender_ip) by (nonlinear_arith)
        requires
            be32_at(f, 28) == f[28] as nat * 16777216 + f[29] as nat * 65536 + f[30] as nat
                * 256 + f[31] as nat,
            f[28] == (sender_ip as nat / 16777216) as u8,
            f[29] == (sender_ip as nat / 65536 % 256) as u8,
            f[30] == (sender_ip as nat / 256 % 256) as u8,
            f[31] == (sender_ip as nat % 256) as u8,
    ;
}

/// Whether some entry of `s` is for the address value `ip`.
pub open spec fn has_ip(s: Seq<(Ipv4Addr, MacAddr)>, ip: nat) -> bool {
    exists|i: int| 0 <= i < s.len() && s[i].0.0 == ip
}

/// Whether no two entries of `s` are for the same address.
pub open spec fn distinct_ips(s: Seq<(Ipv4Addr, MacAddr)>) -> bool {
    forall|i: int, j: int| 0 <= i < j < s.len() ==> s[i].0.0 != s[j].0.0
}

/// Whether every entry of `s` is for an address of `net`.
pub open spec fn all_in_net(s: Seq<(Ipv4Addr, MacAddr)>, net: (u32, nat)) -> bool {
    forall|i: int| 0 <= i < s.len() ==> net_holds(net.0, net.1, #[trigger] s[i].0.0)
}

/// Whether `f` is a reply that the collection of `net` keeps, given the
/// entries `s` already kept: a reply from an address of `net` that has no
/// entry yet.
pub open spec fn keeps_reply(net: (u32, nat), s: Seq<(Ipv4Addr, MacAddr)>, f: Seq<u8>) -> bool {
    match arp_reply_sender(f) {
        Some((ip, _)) => ip <= u32::MAX && net_holds(net.0, net.1, ip as u32) && !has_ip(s, ip),
        None => false,
    }
}

/// A reply is kept exactly when it comes from an address of the network and
/// no entry is for that same address.
pub proof fn lemma_keeps_reply_exactly(net: (u32, nat), s: Seq<(Ipv4Addr, MacAddr)>, f: Seq<u8>)
    ensures
        keeps_reply(net, s, f) <==> match arp_reply_sender(f) {
            Some((ip, _)) => {
                &&& ip <= u32::MAX
                &&& net_holds(net.0, net.1, ip as u32)
                &&& forall|i: int| 0 <= i < s.len() ==> s[i].0.0 != ip
            },
            None => false,
        },
{
}

/// What the receiving side of an ARP scan hears next.
pub enum RxEvent {
    /// A frame arrived.
    Frame(Vec<u8>),
    /// Nothing arrived within the read timeout.
    Quiet,
    /// Reading failed for another reason.
    Failed,
}

/// The replies of an ARP scan of one network: for each address of the
/// network that answered, the hardware address of its first reply.
pub struct ArpCollector {
    network: Ipv4Net,
    found: Vec<(Ipv4Addr, MacAddr)>,
}

impl View for ArpCollector {
    /// The entries kept so far, in the order their replies arrived.
    type V = Seq<(Ipv4Addr, MacAddr)>;

    closed spec fn view(&self) -> Seq<(Ipv4Addr, MacAddr)> {
        self.found@
    }
}

impl ArpCollector {
    #[verifier::type_invariant]
    spec fn entries_ok(self) -> bool {
        distinct_ips(self.found@) && all_in_net(self.found@, self.network@)
    }

    /// The network whose replies are collected.
    pub closed spec fn net(self) -> (u32, nat) {
        self.network@
    }

    /// A collection for `network` with nothing in it yet.
    pub fn new(network: Ipv4Net) -> (r: ArpCollector)
        ensures
            r@ == Seq::<(Ipv4Addr, MacAddr)>::empty(),
            r.net() == network@,
    {
        ArpCollector { network, found: Vec::new() }
    }

    fn has(&self, ip: Ipv4Addr) -> (r: bool)
        ensures
            r == has_ip(self@, ip.0 as nat),
    {
        let mut i: usize = 0;
        while i < self.found.len()
            invariant
                i <= self.found@.len(),
                forall|k: int| 0 <= k < i ==> self.found@[k].0.0 != ip.0,
            decreases self.found@.len() - i,
        {
            if self.found[i].0.0 == ip.0 {
                return true;
            }
            i = i + 1;
        }
        false
    }

    /// Takes in a received frame: a reply from an address of the network
    /// that has no entry yet is added at the end; anything else changes
    /// nothing, so the first reply from an address is the one kept.
    pub fn record_frame(&mut self, frame: &[u8])
        ensures
            final(self).net() == old(self).net(),
            if keeps_reply(old(self).net(), old(self)@, frame@) {
                let (ip, mac) = arp_reply_sender(frame@)->Some_0;
                &&& final(self)@.len() == old(self)@.len() + 1
                &&& final(self)@.subrange(0, old(self)@.len() as int) == old(self)@
                &&& final(self)@.last().0.0 == ip
                &&& final(self)@.last().1.0@ == mac
            } else {
                final(self)@ == old(self)@
            },
            match arp_reply_sender(frame@) {
                Some((ip, mac)) => ip <= u32::MAX && net_holds(
                    old(self).net().0,
                    old(self).net().1,
                    ip as u32,
                ) ==> {
                    &&& exists|i: int| 0 <= i < final(self)@.len() && final(self)@[i].0.0 == ip
                    &&& (forall|i: int| 0 <= i < old(self)@.len() ==> old(self)@[i].0.0 != ip) ==> {
                        &&& final(self)@.len() == old(self)@.len() + 1
                        &&& final(self)@.last().0.0 == ip
                        &&& final(self)@.last().1.0@ == mac
                    }
                },
                None => true,
            },
    {
        proof {
            use_type_invariant(&*self);
        }
        match parse_arp_reply(frame) {
            Some((ip, mac)) => {
                if self.network.contains(ip) && !self.has(ip) {
                    let ghost before = self.found@;
                    let mut found: Vec<(Ipv4Addr, MacAddr)> = Vec::new();
                    std::mem::swap(&mut found, &mut self.found);
                    found.push((ip, mac));
                    assert(found@.subrange(0, before.len() as int) =~= before);
                    assert(distinct_ips(found@)) by {
                        assert forall|i: int, j: int|
                            0 <= i < j < found@.len() implies found@[i].0.0 != found@[j].0.0 by {
                            if j == before.len() {
                                assert(before[i].0.0 == found@[i].0.0);
                            }
                        }
                    }
                    assert(all_in_net(found@, self.network@));
                    self.found = found;
                    assert(self@[before.len() as int].0.0 == ip.0);
                } else if self.network.contains(ip) {
                    proof {
                        assert(has_ip(self@, ip.0 as nat));
                        let k = choose|k: int| 0 <= k < self@.len() && self@[k].0.0 == ip.0;
                        assert(self@[k].0.0 == ip.0);
                    }
                }
            },
            None => {},
        }
    }

    /// Takes in the next thing the receiving side hears, and says whether to
    /// keep listening: a frame is recorded and listening goes on, a quiet
    /// read goes on, a failed read ends the scan.
    pub fn handle(&mut self, event: &RxEvent) -> (keep_going: bool)
        ensures
            final(self).net() == old(self).net(),
            match event {
                RxEvent::Frame(f) => {
                    &&& keep_going
                    &&& if keeps_reply(old(self).net(), old(self)@, f@) {
                        let (ip, mac) = arp_reply_sender(f@)->Some_0;
                        &&& final(self)@.len() == old(self)@.len() + 1
                        &&& final(self)@.subrange(0, old(self)@.len() as int) == old(self)@
                        &&& final(self)@.last().0.0 == ip
                        &&& final(self)@.last().1.0@ == mac
                    } else {
                        final(self)@ == old(self)@
                    }
                },
                RxEvent::Quiet => keep_going && final(self)@ == old(self)@,
                RxEvent::Failed => !keep_going && final(self)@ == old(self)@,
            },
            match event {
                RxEvent::Frame(f) => match arp_reply_sender(f@) {
                    Some((ip, mac)) => ip <= u32::MAX && net_holds(
                        old(self).net().0,
                        old(self).net().1,
                        ip as u32,
                    ) ==> {
                        &&& exists|i: int| 0 <= i < final(self)@.len() && final(self)@[i].0.0 == ip
                        &&& (forall|i: int| 0 <= i < old(self)@.len() ==> old(self)@[i].0.0 != ip)
                            ==> {
                            &&& final(self)@.len() == old(self)@.len() + 1
                            &&& final(self)@.last().0.0 == ip
                            &&& final(self)@.last().1.0@ == mac
                        }
                    },
                    None => true,
                },
                _ => true,
            },
    {
        match event {
            RxEvent::Frame(f) => {
                self.record_frame(f.as_slice());
                true
            },
            RxEvent::Quiet => true,
            RxEvent::Failed => false,
        }
    }

    /// The devices found: each address of the network that replied, once,
    /// with the hardware address of its first reply, in order of arrival.
    pub fn devices(&self) -> (r: Vec<(Ipv4Addr, MacAddr)>)
        ensures
            r@ == self@,
            distinct_ips(r@),
            all_in_net(r@, self.net()),
    {
        proof {
            use_type_invariant(self);
        }
        let mut out: Vec<(Ipv4Addr, MacAddr)> = Vec::new();
        let mut i: usize = 0;
        while i < self.found.len()
            invariant
                i <= self.found@.len(),
                out@ == self.found@.subrange(0, i as int),
            decreases self.found@.len() - i,
        {
            out.push(self.found[i]);
            i = i + 1;
        }
        assert(self.found@.subrange(0, self.found@.len() as int) =~= self.found@);
        out
    }
}

} // verus!
