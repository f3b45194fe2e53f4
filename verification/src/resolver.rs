//! Host names for the devices found.

use vstd::prelude::*;

verus! {

/// `(unknown)`, the host name shown when a reverse lookup fails.
pub open spec fn unknown_text() -> Seq<char> {
    seq!['(', 'u', 'n', 'k', 'n', 'o', 'w', 'n', ')']
}

/// The host name to show for a device, from the result of its reverse DNS
/// lookup: the name found, or `(unknown)` when the lookup failed.
pub fn hostname_or_unknown(lookup: Option<String>) -> (r: String)
    ensures
        match lookup {
            Some(h) => r@ == h@,
            None => r@ == unknown_text(),
        },
{
    match lookup {
        Some(h) => h,
        None => {
            let mut s = String::new();
            s.push('(');
            s.push('u');
            s.push('n');
            s.push('k');
            s.push('n');
            s.push('o');
            s.push('w');
            s.push('n');
            s.push(')');
            assert(s@ =~= unknown_text());
            s
        },
    }
}

} // verus!
