//! Port lists: reading a port specification such as `22,80,100-200`, and the
//! bookkeeping of TCP connect and UDP probe results.

use vstd::prelude::*;
use crate::text::{
    decimal, push_decimal,
    parse_uint, parse_uint_chars, split, split_chars, split_once, split_once_chars, str_chars, trim,
    trim_chars, ParseIntError, lemma_split_join, is_white_space, lemma_decimal_digits,
    lemma_decimal_reads_back, lemma_trim_unchanged, lemma_split_without_sep, lemma_split_once_join,
};

verus! {

/// The port range that one comma-separated piece of a port specification
/// names: `a-b` is the range from `a` to `b` (empty when `a > b`), a single
/// number `p` is the range from `p` to `p`. The piece and both ends of a
/// range are read with surrounding white space removed.
pub open spec fn port_piece(raw: Seq<char>) -> Result<(nat, nat), ParseIntError> {
    let piece = trim(raw);
    match split_once(piece, '-') {
        Some((a, b)) => match parse_uint(trim(a), 10, 65535) {
            Err(e) => Err(e),
            Ok(lo) => match parse_uint(trim(b), 10, 65535) {
                Err(e) => Err(e),
                Ok(hi) => Ok((lo, hi)),
            },
        },
        None => match parse_uint(piece, 10, 65535) {
            Err(e) => Err(e),
            Ok(p) => Ok((p, p)),
        },
    }
}

/// Whether the piece `raw` reads without error and its range holds `p`.
pub open spec fn piece_covers(raw: Seq<char>, p: int) -> bool {
    port_piece(raw) matches Ok((lo, hi)) && lo <= p <= hi
}

/// The error of the first piece, from index `i` on, that does not read.
pub open spec fn first_piece_error(pieces: Seq<Seq<char>>, i: int) -> Option<ParseIntError>
    decreases pieces.len() - i,
{
    if i >= pieces.len() {
        None
    } else {
        match port_piece(pieces[i]) {
            Err(e) => Some(e),
            Ok(_) => first_piece_error(pieces, i + 1),
        }
    }
}

/// The error that a port specification is refused with, if any: that of its
/// first comma-separated piece that does not read.
pub open spec fn port_spec_error(s: Seq<char>) -> Option<ParseIntError> {
    first_piece_error(split(s, ','), 0)
}

/// Whether one of the first `n` pieces covers `p`.
pub open spec fn covered_by(pieces: Seq<Seq<char>>, n: int, p: int) -> bool {
    exists|j: int| 0 <= j < n && #[trigger] piece_covers(pieces[j], p)
}

/// Whether the port specification `s` names the port `p`.
pub open spec fn port_spec_names(s: Seq<char>, p: int) -> bool {
    covered_by(split(s, ','), split(s, ',').len() as int, p)
}

proof fn lemma_first_piece_error_shift(x: Seq<Seq<char>>, y: Seq<Seq<char>>, j: int)
    requires
        0 <= j <= y.len(),
    ensures
        first_piece_error(x + y, x.len() + j) == first_piece_error(y, j),
    decreases y.len() - j,
{
    if j < y.len() {
        assert((x + y)[x.len() + j] == y[j]);
        lemma_first_piece_error_shift(x, y, j + 1);
    }
}

proof fn lemma_first_piece_error_join(x: Seq<Seq<char>>, y: Seq<Seq<char>>, i: int)
    requires
        0 <= i <= x.len(),
    ensures
        first_piece_error(x + y, i) == match first_piece_error(x, i) {
            Some(e) => Some(e),
            None => first_piece_error(y, 0),
        },
    decreases x.len() - i,
{
    if i == x.len() {
        lemma_first_piece_error_shift(x, y, 0);
    } else {
        assert((x + y)[i] == x[i]);
        lemma_first_piece_error_join(x, y, i + 1);
    }
}

/// Joining two port specifications with a comma names the ports that either
/// names, and is refused exactly when one of them is, with the error of the
/// first one refused.
pub proof fn lemma_port_spec_join(a: Seq<char>, b: Seq<char>)
    ensures
        port_spec_error(a + seq![','] + b) == match port_spec_error(a) {
            Some(e) => Some(e),
            None => port_spec_error(b),
        },
        forall|p: int|
            port_spec_names(a + seq![','] + b, p) <==> (port_spec_names(a, p) || port_spec_names(
                b,
                p,
            )),
{
    let x = split(a, ',');
    let y = split(b, ',');
    lemma_split_join(a, b, ',');
    let z = split(a + seq![','] + b, ',');
    assert(z == x + y);
    lemma_first_piece_error_join(x, y, 0);
    assert forall|p: int|
        port_spec_names(a + seq![','] + b, p) <==> (port_spec_names(a, p) || port_spec_names(
            b,
            p,
        )) by {
        if covered_by(z, z.len() as int, p) {
            let j = choose|j: int| 0 <= j < z.len() && #[trigger] piece_covers(z[j], p);
            if j < x.len() {
                assert(z[j] == x[j]);
                assert(covered_by(x, x.len() as int, p));
            } else {
                assert(z[j] == y[j - x.len()]);
                assert(piece_covers(y[j - x.len()], p));
                assert(covered_by(y, y.len() as int, p));
            }
        }
        if covered_by(x, x.len() as int, p) {
            let j = choose|j: int| 0 <= j < x.len() && #[trigger] piece_covers(x[j], p);
            assert(z[j] == x[j]);
            assert(covered_by(z, z.len() as int, p));
        }
        if covered_by(y, y.len() as int, p) {
            let j = choose|j: int| 0 <= j < y.len() && #[trigger] piece_covers(y[j], p);
            assert(z[x.len() + j] == y[j]);
            assert(piece_covers(z[x.len() + j], p));
            assert(covered_by(z, z.len() as int, p));
        }
    }
}

/// The decimal text of a port is made of digits only, none of them white
/// space, a comma or a hyphen.
proof fn lemma_decimal_plain(a: u16)
    ensures
        decimal(a as nat).len() >= 1,
        forall|k: int|
            0 <= k < decimal(a as nat).len() ==> {
                let c = #[trigger] decimal(a as nat)[k];
                !is_white_space(c) && c != ',' && c != '-'
            },
        !decimal(a as nat).contains(','),
        !decimal(a as nat).contains('-'),
        trim(decimal(a as nat)) == decimal(a as nat),
        parse_uint(decimal(a as nat), 10, 65535) == Ok::<nat, ParseIntError>(a as nat),
{
    let d = decimal(a as nat);
    lemma_decimal_digits(a as nat);
    lemma_decimal_reads_back(a);
    assert forall|k: int| 0 <= k < d.len() implies {
        let c = #[trigger] d[k];
        !is_white_space(c) && c != ',' && c != '-'
    } by {
        assert(0x30 <= d[k] as u32 <= 0x39);
    }
    if d.contains(',') {
        let k = choose|k: int| 0 <= k < d.len() && d[k] == ',';
        assert(d[k] != ',');
    }
    if d.contains('-') {
        let k = choose|k: int| 0 <= k < d.len() && d[k] == '-';
        assert(d[k] != '-');
    }
    lemma_trim_unchanged(d);
}

/// A port specification that is a single port number, written in decimal,
/// reads without error and names exactly that port.
pub proof fn lemma_port_spec_single(a: u16)
    ensures
        port_spec_error(decimal(a as nat)) is None,
        forall|p: int| port_spec_names(decimal(a as nat), p) <==> p == a,
{
    let d = decimal(a as nat);
    lemma_decimal_plain(a);
    lemma_split_without_sep(d, ',');
    lemma_split_once_join(d, Seq::empty(), '-');
    assert(port_piece(d) == Ok::<(nat, nat), ParseIntError>((a as nat, a as nat)));
    let pieces = split(d, ',');
    assert(pieces[0] == d);
    assert(first_piece_error(pieces, 1) is None);
    assert forall|p: int| port_spec_names(d, p) <==> p == a by {
        if p == a {
            assert(piece_covers(pieces[0], p));
        }
        if port_spec_names(d, p) {
            let j = choose|j: int| 0 <= j < pieces.len() && #[trigger] piece_covers(pieces[j], p);
            assert(j == 0);
        }
    }
}

/// A port specification `a-b`, both ends written in decimal, reads without
/// error and names exactly the ports from `a` to `b`.
pub proof fn lemma_port_spec_range(a: u16, b: u16)
    ensures
        port_spec_error(decimal(a as nat) + seq!['-'] + decimal(b as nat)) is None,
        forall|p: int|
            port_spec_names(decimal(a as nat) + seq!['-'] + decimal(b as nat), p) <==> a <= p
                <= b,
{
    let da = decimal(a as nat);
    let db = decimal(b as nat);
    let t = da + seq!['-'] + db;
    lemma_decimal_plain(a);
    lemma_decimal_plain(b);
    assert forall|k: int| 0 <= k < t.len() implies t[k] != ',' by {
        if k < da.len() {
            assert(t[k] == da[k]);
        } else if k > da.len() {
            assert(t[k] == db[k - da.len() - 1]);
        }
    }
    if t.contains(',') {
        let k = choose|k: int| 0 <= k < t.len() && t[k] == ',';
        assert(t[k] != ',');
    }
    assert(t[0] == da[0]);
    assert(t[t.len() - 1] == db[db.len() - 1]);
    lemma_trim_unchanged(t);
    lemma_split_without_sep(t, ',');
    lemma_split_once_join(da, db, '-');
    assert(port_piece(t) == Ok::<(nat, nat), ParseIntError>((a as nat, b as nat)));
    let pieces = split(t, ',');
    assert(pieces[0] == t);
    assert(first_piece_error(pieces, 1) is None);
    assert forall|p: int| port_spec_names(t, p) <==> a <= p <= b by {
        if a <= p <= b {
            assert(piece_covers(pieces[0], p));
        }
        if port_spec_names(t, p) {
            let j = choose|j: int| 0 <= j < pieces.len() && #[trigger] piece_covers(pieces[j], p);
            assert(j == 0);
        }
    }
}

/// Whether each element of `v` is smaller than the next.
pub open spec fn strictly_ascending(v: Seq<u16>) -> bool {
    forall|i: int, j: int| 0 <= i < j < v.len() ==> v[i] < v[j]
}

/// Reads one piece of a port specification.
fn parse_piece(raw: &Vec<char>) -> (r: Result<(u16, u16), ParseIntError>)
    ensures
        match r {
            Ok((lo, hi)) => port_piece(raw@) == Ok::<(nat, nat), ParseIntError>(
                (lo as nat, hi as nat),
            ),
            Err(e) => port_piece(raw@) == Err::<(nat, nat), ParseIntError>(e),
        },
{
    let piece = trim_chars(raw);
    match split_once_chars(&piece, '-') {
        Some((a, b)) => {
            let a = trim_chars(&a);
            match parse_uint_chars(&a, 10, 65535) {
                Err(e) => Err(e),
                Ok(lo) => {
                    let b = trim_chars(&b);
                    match parse_uint_chars(&b, 10, 65535) {
                        Err(e) => Err(e),
                        Ok(hi) => Ok((lo as u16, hi as u16)),
                    }
                },
            }
        },
        None => match parse_uint_chars(&piece, 10, 65535) {
            Err(e) => Err(e),
            Ok(p) => Ok((p as u16, p as u16)),
        },
    }
}

/// Parses a port specification like `"22,80,100-200,443"` into the ports it
/// names, ascending and each once. A piece that does not read refuses the
/// whole specification with that piece's error.
pub fn parse_ports(s: &str) -> (r: Result<Vec<u16>, ParseIntError>)
    ensures
        match r {
            Ok(v) => {
                &&& port_spec_error(s@) is None
                &&& strictly_ascending(v@)
                &&& forall|p: u16| v@.contains(p) <==> port_spec_names(s@, p as int)
            },
            Err(e) => port_spec_error(s@) == Some(e),
        },
{
    let chars = str_chars(s);
    let pieces = split_chars(&chars, ',');
    let ghost ps = split(s@, ',');
    let mut marks: Vec<bool> = Vec::new();
    while marks.len() < 65536
        invariant
            marks@.len() <= 65536,
            forall|q: int| 0 <= q < marks@.len() ==> !marks@[q],
        decreases 65536 - marks@.len(),
    {
        marks.push(false);
    }
    let mut i: usize = 0;
    while i < pieces.len()
        invariant
            ps == split(s@, ','),
            pieces@.len() == ps.len(),
            forall|j: int| 0 <= j < pieces@.len() ==> #[trigger] pieces@[j]@ == ps[j],
            i <= pieces@.len(),
            marks@.len() == 65536,
            first_piece_error(ps, 0) == first_piece_error(ps, i as int),
            forall|q: int| 0 <= q < 65536 ==> (marks@[q] <==> covered_by(ps, i as int, q)),
        decreases pieces@.len() - i,
    {
        assert(pieces@[i as int]@ == ps[i as int]);
        match parse_piece(&pieces[i]) {
            Err(e) => {
                assert(first_piece_error(ps, i as int) == Some(e));
                return Err(e);
            },
            Ok((lo, hi)) => {
                let ghost before = marks@;
                let mut p: u32 = lo as u32;
                while p <= hi as u32
                    invariant
                        lo <= p,
                        p <= hi as u32 + 1 || p == lo,
                        marks@.len() == 65536,
                        before.len() == 65536,
                        forall|q: int|
                            0 <= q < 65536 ==> (marks@[q] <==> (before[q] || (lo <= q < p))),
                    decreases hi as u32 + 1 - p,
                {
                    marks.set(p as usize, true);
                    p = p + 1;
                }
                assert forall|q: int| 0 <= q < 65536 implies (marks@[q] <==> covered_by(
                    ps,
                    i + 1,
                    q,
                )) by {
                    if piece_covers(ps[i as int], q) {
                        assert(covered_by(ps, i + 1, q));
                    }
                    if covered_by(ps, i + 1, q) {
                        let j = choose|j: int| 0 <= j < i + 1 && #[trigger] piece_covers(ps[j], q);
                        if j < i {
                            assert(covered_by(ps, i as int, q));
                        }
                    }
                    if covered_by(ps, i as int, q) {
                        let j = choose|j: int| 0 <= j < i && #[trigger] piece_covers(ps[j], q);
                        assert(0 <= j < i + 1 && piece_covers(ps[j], q));
                    }
                }
            },
        }
        i = i + 1;
    }
    let mut out: Vec<u16> = Vec::new();
    let mut q: u32 = 0;
    while q < 65536
        invariant
            marks@.len() == 65536,
            q <= 65536,
            strictly_ascending(out@),
            forall|k: int| 0 <= k < out@.len() ==> out@[k] < q,
            forall|p: u16| out@.contains(p) <==> (p < q && marks@[p as int]),
        decreases 65536 - q,
    {
        if marks[q as usize] {
            let ghost before = out@;
            out.push(q as u16);
            assert forall|p: u16| out@.contains(p) <==> (p < q + 1 && marks@[p as int]) by {
                if p == q {
                    assert(out@[before.len() as int] == p);
                } else if before.contains(p) {
                    let k = choose|k: int| 0 <= k < before.len() && before[k] == p;
                    assert(out@[k] == p);
                } else if out@.contains(p) {
                    let k = choose|k: int| 0 <= k < out@.len() && out@[k] == p;
                    assert(k < before.len());
                    assert(before[k] == p);
                }
            }
        }
        q = q + 1;
    }
    Ok(out)
}

/// What one UDP probe found.
#[derive(Debug, Clone, Copy, PartialEq, Eq)]
pub enum UdpState {
    /// The service responded with data.
    Open,
    /// An ICMP port unreachable came back: no service on this port.
    Closed,
    /// No response within the timeout: the port may be open or firewalled.
    OpenFiltered,
}

/// What happened to one UDP probe.
#[derive(Debug, Clone, Copy, PartialEq, Eq)]
pub enum ProbeOutcome {
    /// No socket could be bound or connected to send the probe from.
    NoSocket,
    /// Data came back.
    Reply,
    /// The connection was refused (an ICMP port unreachable came back).
    Refused,
    /// Reading failed otherwise, as by the timeout running out.
    NoReply,
}

/// The text of a UDP state, as its `Display` writes it.
pub open spec fn udp_state_text(s: UdpState) -> Seq<char> {
    match s {
        UdpState::Open => seq!['o', 'p', 'e', 'n'],
        UdpState::Closed => seq!['c', 'l', 'o', 's', 'e', 'd'],
        UdpState::OpenFiltered => seq![
            'o',
            'p',
            'e',
            'n',
            '|',
            'f',
            'i',
            'l',
            't',
            'e',
            'r',
            'e',
            'd',
        ],
    }
}

fn push_all(s: &mut String, t: &[char])
    ensures
        final(s)@ == old(s)@ + t@,
{
    let mut i: usize = 0;
    while i < t.len()
        invariant
            i <= t@.len(),
            s@ == old(s)@ + t@.subrange(0, i as int),
        decreases t@.len() - i,
    {
        s.push(t[i]);
        i = i + 1;
        assert(t@.subrange(0, i as int) =~= t@.subrange(0, i - 1).push(t@[i - 1]));
    }
    assert(t@.subrange(0, t@.len() as int) =~= t@);
}

impl UdpState {
    /// The state a probe leaves the port in: data back means open, a refusal
    /// means closed, and anything else (no socket, no answer) means open or
    /// filtered.
    pub fn from_probe(outcome: ProbeOutcome) -> (r: UdpState)
        ensures
            r == match outcome {
                ProbeOutcome::Reply => UdpState::Open,
                ProbeOutcome::Refused => UdpState::Closed,
                ProbeOutcome::NoSocket => UdpState::OpenFiltered,
                ProbeOutcome::NoReply => UdpState::OpenFiltered,
            },
    {
        match outcome {
            ProbeOutcome::Reply => UdpState::Open,
            ProbeOutcome::Refused => UdpState::Closed,
            ProbeOutcome::NoSocket => UdpState::OpenFiltered,
            ProbeOutcome::NoReply => UdpState::OpenFiltered,
        }
    }

    /// `open`, `closed` or `open|filtered`.
    pub fn to_string(&self) -> (r: String)
        ensures
            r@ == udp_state_text(*self),
    {
        let mut s = String::new();
        match self {
            UdpState::Open => push_all(&mut s, &['o', 'p', 'e', 'n']),
            UdpState::Closed => push_all(&mut s, &['c', 'l', 'o', 's', 'e', 'd']),
            UdpState::OpenFiltered => push_all(
                &mut s,
                &['o', 'p', 'e', 'n', '|', 'f', 'i', 'l', 't', 'e', 'r', 'e', 'd'],
            ),
        }
        assert(s@ =~= udp_state_text(*self));
        s
    }
}

/// Whether the elements of `v` do not decrease.
pub open spec fn ascending(v: Seq<u16>) -> bool {
    forall|i: int, j: int| 0 <= i < j < v.len() ==> v[i] <= v[j]
}

/// The open ports that a TCP connect scan found, ascending: the same ports,
/// as often as they were found.
pub fn sort_open_ports(found: Vec<u16>) -> (r: Vec<u16>)
    ensures
        ascending(r@),
        r@.to_multiset() == found@.to_multiset(),
{
    broadcast use vstd::seq_lib::group_to_multiset_ensures;

    let mut out: Vec<u16> = Vec::new();
    let mut i: usize = 0;
    while i < found.len()
        invariant
            i <= found@.len(),
            ascending(out@),
            out@.to_multiset() == found@.subrange(0, i as int).to_multiset(),
        decreases found@.len() - i,
    {
        let x = found[i];
        // Found ports mostly arrive in order, so the place is sought from the end.
        let mut pos: usize = out.len();
        while pos > 0 && out[pos - 1] > x
            invariant
                pos <= out@.len(),
                ascending(out@),
                forall|k: int| pos <= k < out@.len() ==> out@[k] > x,
            decreases pos,
        {
            pos = pos - 1;
        }
        assert(forall|k: int| 0 <= k < pos ==> out@[k] <= x) by {
            if pos > 0 {
                assert(out@[pos - 1] <= x);
            }
        }
        let ghost before = out@;
        out.insert(pos, x);
        assert(ascending(out@)) by {
            assert forall|a: int, b: int| 0 <= a < b < out@.len() implies out@[a] <= out@[b] by {
                if b < pos {
                } else if b == pos {
                } else if a < pos {
                    assert(out@[b] == before[b - 1]);
                } else if a == pos {
                    assert(out@[b] == before[b - 1]);
                    assert(before[pos as int] > x);
                } else {
                    assert(out@[a] == before[a - 1]);
                    assert(out@[b] == before[b - 1]);
                }
            }
        }
        assert(found@.subrange(0, i + 1) =~= found@.subrange(0, i as int).push(x));
        proof {
            vstd::seq_lib::to_multiset_insert(before, pos as int, x);
            vstd::seq_lib::to_multiset_build(found@.subrange(0, i as int), x);
        }
        i = i + 1;
    }
    assert(found@.subrange(0, found@.len() as int) =~= found@);
    out
}

/// Whether the ports of `v` do not decrease.
pub open spec fn ascending_by_port(v: Seq<(u16, UdpState)>) -> bool {
    forall|i: int, j: int| 0 <= i < j < v.len() ==> v[i].0 <= v[j].0
}

/// The result of a UDP probe scan from the states of all probes: the ports
/// that were not found closed, with their states, ascending by port.
pub fn open_udp_ports(probes: Vec<(u16, UdpState)>) -> (r: Vec<(u16, UdpState)>)
    ensures
        ascending_by_port(r@),
        forall|x: (u16, UdpState)|
            #[trigger] r@.to_multiset().count(x) == if x.1 == UdpState::Closed {
                0
            } else {
                probes@.to_multiset().count(x)
            },
        forall|i: int| 0 <= i < r@.len() ==> #[trigger] r@[i].1 != UdpState::Closed,
{
    broadcast use vstd::seq_lib::group_to_multiset_ensures;
    broadcast use vstd::multiset::group_multiset_axioms;

    let mut out: Vec<(u16, UdpState)> = Vec::new();
    let mut i: usize = 0;
    while i < probes.len()
        invariant
            i <= probes@.len(),
            ascending_by_port(out@),
            forall|x: (u16, UdpState)|
                #[trigger] out@.to_multiset().count(x) == if x.1 == UdpState::Closed {
                    0
                } else {
                    probes@.subrange(0, i as int).to_multiset().count(x)
                },
        decreases probes@.len() - i,
    {
        let x = probes[i];
        assert(probes@.subrange(0, i + 1) =~= probes@.subrange(0, i as int).push(x));
        proof {
            vstd::seq_lib::to_multiset_build(probes@.subrange(0, i as int), x);
        }
        let ghost old_out = out@;
        let closed = match x.1 {
            UdpState::Closed => true,
            _ => false,
        };
        if !closed {
            // Probes mostly finish in port order, so the place is sought from the end.
            let mut pos: usize = out.len();
            while pos > 0 && out[pos - 1].0 > x.0
                invariant
                    pos <= out@.len(),
                    ascending_by_port(out@),
                    forall|k: int| pos <= k < out@.len() ==> out@[k].0 > x.0,
                decreases pos,
            {
                pos = pos - 1;
            }
            assert(forall|k: int| 0 <= k < pos ==> out@[k].0 <= x.0) by {
                if pos > 0 {
                    assert(out@[pos - 1].0 <= x.0);
                }
            }
            let ghost before = out@;
            out.insert(pos, x);
            assert(ascending_by_port(out@)) by {
                assert forall|a: int, b: int| 0 <= a < b < out@.len() implies out@[a].0
                    <= out@[b].0 by {
                    if b < pos {
                    } else if b == pos {
                    } else if a < pos {
                        assert(out@[b] == before[b - 1]);
                    } else if a == pos {
                        assert(out@[b] == before[b - 1]);
                        assert(before[pos as int].0 > x.0);
                    } else {
                        assert(out@[a] == before[a - 1]);
                        assert(out@[b] == before[b - 1]);
                    }
                }
            }
            proof {
                vstd::seq_lib::to_multiset_insert(before, pos as int, x);
            }
        }
        assert forall|y: (u16, UdpState)|
            #[trigger] out@.to_multiset().count(y) == if y.1 == UdpState::Closed {
                0
            } else {
                probes@.subrange(0, i + 1).to_multiset().count(y)
            } by {
            assert(old_out.to_multiset().count(y) == if y.1 == UdpState::Closed {
                0
            } else {
                probes@.subrange(0, i as int).to_multiset().count(y)
            });
        }
        i = i + 1;
    }
    assert(probes@.subrange(0, probes@.len() as int) =~= probes@);
    assert forall|k: int| 0 <= k < out@.len() implies #[trigger] out@[k].1 != UdpState::Closed by {
        vstd::seq_lib::to_multiset_contains(out@, out@[k]);
        assert(out@.contains(out@[k]));
    }
    out
}

/// `(none)`, the text of an empty list of ports.
pub open spec fn none_text() -> Seq<char> {
    seq!['(', 'n', 'o', 'n', 'e', ')']
}

/// The texts of `items` joined by `, `.
pub open spec fn comma_join(items: Seq<Seq<char>>) -> Seq<char>
    decreases items.len(),
{
    if items.len() == 0 {
        Seq::empty()
    } else if items.len() == 1 {
        items[0]
    } else {
        comma_join(items.drop_last()) + seq![',', ' '] + items.last()
    }
}

/// A list of open TCP ports as the scan table shows it: `22, 80, 443`, or
/// `(none)` when there are none.
pub open spec fn tcp_ports_text(ports: Seq<u16>) -> Seq<char> {
    if ports.len() == 0 {
        none_text()
    } else {
        comma_join(ports.map_values(|p: u16| decimal(p as nat)))
    }
}

/// One UDP result as the scan table shows it: the port, with `?` after it
/// when the port is open or filtered.
pub open spec fn udp_entry_text(e: (u16, UdpState)) -> Seq<char> {
    if e.1 == UdpState::OpenFiltered {
        decimal(e.0 as nat).push('?')
    } else {
        decimal(e.0 as nat)
    }
}

/// A list of UDP results as the scan table shows it: `53, 5353?`, or
/// `(none)` when there are none.
pub open spec fn udp_ports_text(results: Seq<(u16, UdpState)>) -> Seq<char> {
    if results.len() == 0 {
        none_text()
    } else {
        comma_join(results.map_values(|e: (u16, UdpState)| udp_entry_text(e)))
    }
}

/// The open TCP ports of a host, for the scan table.
pub fn format_tcp_ports(ports: &Vec<u16>) -> (r: String)
    ensures
        r@ == tcp_ports_text(ports@),
{
    let mut s = String::new();
    if ports.len() == 0 {
        push_all(&mut s, &['(', 'n', 'o', 'n', 'e', ')']);
        return s;
    }
    let ghost items = ports@.map_values(|p: u16| decimal(p as nat));
    let mut i: usize = 0;
    while i < ports.len()
        invariant
            items == ports@.map_values(|p: u16| decimal(p as nat)),
            ports@.len() > 0,
            i <= ports@.len(),
            s@ == comma_join(items.subrange(0, i as int)),
        decreases ports@.len() - i,
    {
        let ghost pre = items.subrange(0, i as int);
        let ghost post = items.subrange(0, i + 1);
        assert(post.drop_last() =~= pre);
        if i > 0 {
            push_all(&mut s, &[',', ' ']);
        }
        push_decimal(&mut s, ports[i]);
        if i == 0 {
            assert(s@ =~= comma_join(post));
        } else {
            assert(s@ =~= comma_join(post));
        }
        i = i + 1;
    }
    assert(items.subrange(0, ports@.len() as int) =~= items);
    s
}

/// The UDP results of a host, for the scan table.
pub fn format_udp_ports(results: &Vec<(u16, UdpState)>) -> (r: String)
    ensures
        r@ == udp_ports_text(results@),
{
    let mut s = String::new();
    if results.len() == 0 {
        push_all(&mut s, &['(', 'n', 'o', 'n', 'e', ')']);
        return s;
    }
    let ghost items = results@.map_values(|e: (u16, UdpState)| udp_entry_text(e));
    let mut i: usize = 0;
    while i < results.len()
        invariant
            items == results@.map_values(|e: (u16, UdpState)| udp_entry_text(e)),
            results@.len() > 0,
            i <= results@.len(),
            s@ == comma_join(items.subrange(0, i as int)),
        decreases results@.len() - i,
    {
        let ghost pre = items.subrange(0, i as int);
        let ghost post = items.subrange(0, i + 1);
        assert(post.drop_last() =~= pre);
        if i > 0 {
            push_all(&mut s, &[',', ' ']);
        }
        let (port, state) = results[i];
        push_decimal(&mut s, port);
        match state {
            UdpState::OpenFiltered => {
                s.push('?');
            },
            _ => {},
        }
        assert(s@ =~= comma_join(post));
        i = i + 1;
    }
    assert(items.subrange(0, results@.len() as int) =~= items);
    s
}

/// Every port, 1 to 65535, ascending: what a scan covers when no port list
/// is given.
pub fn all_ports() -> (r: Vec<u16>)
    ensures
        r@.len() == 65535,
        forall|i: int| 0 <= i < 65535 ==> #[trigger] r@[i] == i + 1,
{
    let mut out: Vec<u16> = Vec::new();
    let mut p: u32 = 1;
    while p <= 65535
        invariant
            1 <= p <= 65536,
            out@.len() == p - 1,
            forall|i: int| 0 <= i < out@.len() ==> #[trigger] out@[i] == i + 1,
        decreases 65536 - p,
    {
        out.push(p as u16);
        p = p + 1;
    }
    out
}

} // verus!
