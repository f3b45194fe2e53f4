//! Choosing the network interface to scan from and the IPv4 network it is on.

use vstd::prelude::*;
use crate::ipv4::{Ipv4Addr, Ipv4Net};
use crate::text::{chars_eq, str_chars};

verus! {

/// One address of an interface: an IPv4 network, or an IPv6 one (whose
/// details the scan does not use).
#[derive(Debug, Clone, Copy)]
pub enum IpNet {
    V4(Ipv4Net),
    V6,
}

/// What the choice of an interface reads of a system network interface.
#[derive(Debug)]
pub struct InterfaceInfo {
    pub name: String,
    pub is_up: bool,
    pub is_loopback: bool,
    pub ips: Vec<IpNet>,
}

/// Why no interface or network could be chosen.
#[derive(Debug)]
pub enum NetError {
    /// No interface has the name asked for (the name).
    InterfaceNotFound(String),
    /// No interface is up, not a loopback, and has an IPv4 address.
    NoSuitableInterface,
    /// The interface (of this name) has no IPv4 address.
    NoIpv4Address(String),
}

/// Whether some address in `ips` is an IPv4 one.
pub open spec fn has_ipv4(ips: Seq<IpNet>) -> bool {
    exists|i: int| 0 <= i < ips.len() && #[trigger] ips[i] is V4
}

/// Whether an interface can be chosen when no name is given: it is up, it is
/// not a loopback, and it has an IPv4 address.
pub open spec fn suitable(f: InterfaceInfo) -> bool {
    f.is_up && !f.is_loopback && has_ipv4(f.ips@)
}

/// 1 for an interface whose name begins with `wl` (a wireless one), else 0;
/// among suitable interfaces one of the lowest rank is chosen.
pub open spec fn wireless_rank(f: InterfaceInfo) -> nat {
    if f.name@.len() >= 2 && f.name@[0] == 'w' && f.name@[1] == 'l' {
        1
    } else {
        0
    }
}

/// An interface ranks 1 exactly when its name begins with the two letters
/// `wl`, and 0 otherwise.
pub proof fn lemma_wireless_rank_is_wl_prefix(f: InterfaceInfo)
    ensures
        wireless_rank(f) == if f.name@.len() >= 2 && f.name@.subrange(0, 2) == seq!['w', 'l'] {
            1nat
        } else {
            0nat
        },
{
    if f.name@.len() >= 2 {
        if f.name@[0] == 'w' && f.name@[1] == 'l' {
            assert(f.name@.subrange(0, 2) =~= seq!['w', 'l']);
        } else if f.name@.subrange(0, 2) == seq!['w', 'l'] {
            assert(f.name@.subrange(0, 2)[0] == f.name@[0]);
            assert(f.name@.subrange(0, 2)[1] == f.name@[1]);
        }
    }
}

/// The first IPv4 network among `ips` from index `i` on.
pub open spec fn first_ipv4_from(ips: Seq<IpNet>, i: int) -> Option<Ipv4Net>
    decreases ips.len() - i,
{
    if i >= ips.len() {
        None
    } else {
        match ips[i] {
            IpNet::V4(n) => Some(n),
            IpNet::V6 => first_ipv4_from(ips, i + 1),
        }
    }
}

/// The first IPv4 network among `ips`.
pub open spec fn first_ipv4(ips: Seq<IpNet>) -> Option<Ipv4Net> {
    first_ipv4_from(ips, 0)
}

/// The first IPv4 network of a list of addresses is an IPv4 entry with only
/// IPv6 entries before it, and there is none exactly when no entry is IPv4.
pub proof fn lemma_first_ipv4(ips: Seq<IpNet>)
    ensures
        first_ipv4(ips) matches Some(n) ==> exists|k: int|
            0 <= k < ips.len() && ips[k] == IpNet::V4(n) && forall|j: int|
                0 <= j < k ==> !(#[trigger] ips[j] is V4),
        first_ipv4(ips) is None <==> !has_ipv4(ips),
{
    lemma_first_ipv4_from(ips, 0);
}

proof fn lemma_first_ipv4_from(ips: Seq<IpNet>, i: int)
    requires
        0 <= i <= ips.len(),
    ensures
        first_ipv4_from(ips, i) matches Some(n) ==> exists|k: int|
            i <= k < ips.len() && ips[k] == IpNet::V4(n) && forall|j: int|
                i <= j < k ==> !(#[trigger] ips[j] is V4),
        first_ipv4_from(ips, i) is None <==> forall|j: int| i <= j < ips.len() ==> !(
        #[trigger] ips[j] is V4),
    decreases ips.len() - i,
{
    if i < ips.len() {
        lemma_first_ipv4_from(ips, i + 1);
        match ips[i] {
            IpNet::V4(n) => {
                assert(ips[i] == IpNet::V4(n));
            },
            IpNet::V6 => {
                if first_ipv4_from(ips, i + 1) is Some {
                    let n = first_ipv4_from(ips, i + 1)->Some_0;
                    let k = choose|k: int|
                        i + 1 <= k < ips.len() && ips[k] == IpNet::V4(n) && forall|j: int|
                            i + 1 <= j < k ==> !(#[trigger] ips[j] is V4);
                    assert(forall|j: int| i <= j < k ==> !(#[trigger] ips[j] is V4));
                }
            },
        }
    }
}

fn rank_of(f: &InterfaceInfo) -> (r: u8)
    ensures
        r == wireless_rank(*f),
{
    let name = str_chars(f.name.as_str());
    if name.len() >= 2 && name[0] == 'w' && name[1] == 'l' {
        1
    } else {
        0
    }
}

fn is_suitable(f: &InterfaceInfo) -> (r: bool)
    ensures
        r == suitable(*f),
{
    if !f.is_up || f.is_loopback {
        return false;
    }
    let mut i: usize = 0;
    while i < f.ips.len()
        invariant
            f.is_up && !f.is_loopback,
            i <= f.ips@.len(),
            forall|k: int| 0 <= k < i ==> !(#[trigger] f.ips@[k] is V4),
        decreases f.ips@.len() - i,
    {
        match f.ips[i] {
            IpNet::V4(_) => {
                assert(f.ips@[i as int] is V4);
                return true;
            },
            IpNet::V6 => {},
        }
        i = i + 1;
    }
    false
}

/// Chooses the interface to scan from, by its index in `interfaces`. With a
/// name, the first interface of that name. Without one, the first of the
/// suitable interfaces whose name does not begin with `wl`, or if all
/// suitable ones do, the first of them.
pub fn select_interface(interfaces: &Vec<InterfaceInfo>, name: Option<&str>) -> (r: Result<
    usize,
    NetError,
>)
    ensures
        match name {
            Some(n) => match r {
                Ok(k) => {
                    &&& k < interfaces@.len()
                    &&& interfaces@[k as int].name@ == n@
                    &&& forall|j: int| 0 <= j < k ==> interfaces@[j].name@ != n@
                },
                Err(e) => {
                    &&& e matches NetError::InterfaceNotFound(s) && s@ == n@
                    &&& forall|j: int| 0 <= j < interfaces@.len() ==> interfaces@[j].name@ != n@
                },
            },
            None => match r {
                Ok(k) => {
                    &&& k < interfaces@.len()
                    &&& suitable(interfaces@[k as int])
                    &&& forall|j: int|
                        0 <= j < interfaces@.len() && suitable(#[trigger] interfaces@[j])
                            ==> wireless_rank(interfaces@[k as int]) <= wireless_rank(interfaces@[j])
                    &&& forall|j: int|
                        0 <= j < k && suitable(#[trigger] interfaces@[j]) ==> wireless_rank(
                            interfaces@[k as int],
                        ) < wireless_rank(interfaces@[j])
                    &&& (exists|j: int|
                        0 <= j < interfaces@.len() && suitable(#[trigger] interfaces@[j]) && !(
                        interfaces@[j].name@.len() >= 2 && interfaces@[j].name@.subrange(0, 2)
                            == seq!['w', 'l'])) ==> !(interfaces@[k as int].name@.len() >= 2
                        && interfaces@[k as int].name@.subrange(0, 2) == seq!['w', 'l'])
                },
                Err(e) => {
                    &&& e is NoSuitableInterface
                    &&& forall|j: int| 0 <= j < interfaces@.len() ==> !suitable(#[trigger] interfaces@[j])
                },
            },
        },
{
    match name {
        Some(n) => {
            let want = str_chars(n);
            let mut i: usize = 0;
            while i < interfaces.len()
                invariant
                    name == Some(n),
                    want@ == n@,
                    i <= interfaces@.len(),
                    forall|j: int| 0 <= j < i ==> interfaces@[j].name@ != n@,
                decreases interfaces@.len() - i,
            {
                let nm = interfaces[i].name.as_str();
                assert(nm@ == interfaces@[i as int].name@);
                let have = str_chars(nm);
                if chars_eq(&have, &want) {
                    return Ok(i);
                }
                i = i + 1;
            }
            Err(NetError::InterfaceNotFound(n.to_owned()))
        },
        None => {
            let mut best: Option<usize> = None;
            let mut i: usize = 0;
            while i < interfaces.len()
                invariant
                    name is None,
                    i <= interfaces@.len(),
                    match best {
                        Some(k) => {
                            &&& k < i
                            &&& suitable(interfaces@[k as int])
                            &&& forall|j: int|
                                0 <= j < i && suitable(#[trigger] interfaces@[j]) ==> wireless_rank(
                                    interfaces@[k as int],
                                ) <= wireless_rank(interfaces@[j])
                            &&& forall|j: int|
                                0 <= j < k && suitable(#[trigger] interfaces@[j]) ==> wireless_rank(
                                    interfaces@[k as int],
                                ) < wireless_rank(interfaces@[j])
                        },
                        None => forall|j: int| 0 <= j < i ==> !suitable(#[trigger] interfaces@[j]),
                    },
                decreases interfaces@.len() - i,
            {
                if is_suitable(&interfaces[i]) {
                    match best {
                        None => {
                            best = Some(i);
                        },
                        Some(k) => {
                            if rank_of(&interfaces[i]) < rank_of(&interfaces[k]) {
                                best = Some(i);
                            }
                        },
                    }
                }
                i = i + 1;
            }
            proof {
                assert forall|j: int| 0 <= j < interfaces@.len() implies wireless_rank(
                    #[trigger] interfaces@[j],
                ) == if interfaces@[j].name@.len() >= 2 && interfaces@[j].name@.subrange(0, 2)
                    == seq!['w', 'l'] {
                    1nat
                } else {
                    0nat
                } by {
                    lemma_wireless_rank_is_wl_prefix(interfaces@[j]);
                }
            }
            match best {
                Some(k) => Ok(k),
                None => Err(NetError::NoSuitableInterface),
            }
        },
    }
}

/// The IPv4 network of an interface: its first IPv4 address with that
/// address's prefix.
pub fn get_network(iface: &InterfaceInfo) -> (r: Result<Ipv4Net, NetError>)
    ensures
        match r {
            Ok(n) => first_ipv4(iface.ips@) == Some(n),
            Err(e) => {
                &&& first_ipv4(iface.ips@) is None
                &&& e matches NetError::NoIpv4Address(s) && s@ == iface.name@
            },
        },
{
    let mut i: usize = 0;
    while i < iface.ips.len()
        invariant
            i <= iface.ips@.len(),
            first_ipv4(iface.ips@) == first_ipv4_from(iface.ips@, i as int),
        decreases iface.ips@.len() - i,
    {
        match iface.ips[i] {
            IpNet::V4(n) => {
                return Ok(n);
            },
            IpNet::V6 => {},
        }
        i = i + 1;
    }
    Err(NetError::NoIpv4Address(iface.name.clone()))
}

/// The interface's own IPv4 address: the address of its network.
pub fn local_ipv4(iface: &InterfaceInfo) -> (r: Result<Ipv4Addr, NetError>)
    ensures
        match r {
            Ok(a) => first_ipv4(iface.ips@) matches Some(n) && a.0 == n@.0,
            Err(e) => {
                &&& first_ipv4(iface.ips@) is None
                &&& e matches NetError::NoIpv4Address(s) && s@ == iface.name@
            },
        },
{
    match get_network(iface) {
        Ok(n) => Ok(n.ip()),
        Err(e) => Err(e),
    }
}

} // verus!
