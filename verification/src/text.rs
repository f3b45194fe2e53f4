//! Character-level text handling shared by the parsers and formatters:
//! white space, trimming, splitting, unsigned integer parsing in the manner
//! of `u16::from_str_radix`, and decimal / hexadecimal rendering.

use vstd::prelude::*;

verus! {

/// Trusted: std's `String::push` appends the character `ch` at the end of
/// `s`, as its documentation says ("Appends the given `char` to the end of
/// this `String`").
pub assume_specification[ String::push ](s: &mut String, ch: char)
    ensures
        final(s)@ == old(s)@.push(ch),
;

/// The characters of `s`, in order.
pub fn str_chars(s: &str) -> (r: Vec<char>)
    ensures
        r@ == s@,
{
    broadcast use vstd::string::group_string_axioms;

    let mut out: Vec<char> = Vec::new();
    let mut it = s.chars();
    loop
        invariant
            vstd::std_specs::iter::IteratorSpec::obeys_prophetic_iter_laws(&it),
            out@ + vstd::std_specs::iter::IteratorSpec::remaining(&it) == s@,
            vstd::std_specs::iter::IteratorSpec::decrease(&it) is Some,
        ensures
            out@ == s@,
        decreases vstd::std_specs::iter::IteratorSpec::decrease(&it)->Some_0,
    {
        let ghost before = vstd::std_specs::iter::IteratorSpec::remaining(&it);
        match it.next() {
            Some(c) => {
                assert(out@.push(c) + before.drop_first() =~= out@ + before);
                out.push(c);
            },
            None => {
                assert(before.len() == 0);
                assert(out@ + before =~= out@);
                break;
            },
        }
    }
    out
}

/// Appends the characters of `v` to `s`.
pub fn push_chars(s: &mut String, v: &Vec<char>)
    ensures
        final(s)@ == old(s)@ + v@,
{
    let mut i: usize = 0;
    while i < v.len()
        invariant
            i <= v@.len(),
            s@ == old(s)@ + v@.subrange(0, i as int),
        decreases v@.len() - i,
    {
        s.push(v[i]);
        i = i + 1;
    }
}

/// Whether `a` and `b` hold the same characters.
pub fn chars_eq(a: &Vec<char>, b: &Vec<char>) -> (r: bool)
    ensures
        r == (a@ == b@),
{
    if a.len() != b.len() {
        return false;
    }
    let mut i: usize = 0;
    while i < a.len()
        invariant
            a@.len() == b@.len(),
            i <= a@.len(),
            forall|k: int| 0 <= k < i ==> a@[k] == b@[k],
        decreases a@.len() - i,
    {
        if a[i] != b[i] {
            return false;
        }
        i = i + 1;
    }
    assert(a@ =~= b@);
    true
}

/// Unicode `White_Space`, the property that `char::is_whitespace` tests.
pub open spec fn is_white_space(c: char) -> bool {
    let u = c as u32;
    ||| 0x9 <= u <= 0xD
    ||| u == 0x20
    ||| u == 0x85
    ||| u == 0xA0
    ||| u == 0x1680
    ||| 0x2000 <= u <= 0x200A
    ||| u == 0x2028
    ||| u == 0x2029
    ||| u == 0x202F
    ||| u == 0x205F
    ||| u == 0x3000
}

/// Whether `c` is white space, as `char::is_whitespace` says.
pub fn is_white_space_char(c: char) -> (r: bool)
    ensures
        r == is_white_space(c),
{
    let u = c as u32;
    if 0x9 <= u && u <= 0xD {
        true
    } else if 0x2000 <= u && u <= 0x200A {
        true
    } else {
        u == 0x20 || u == 0x85 || u == 0xA0 || u == 0x1680 || u == 0x2028 || u == 0x2029 || u
            == 0x202F || u == 0x205F || u == 0x3000
    }
}

/// The index of the first character at or after `i` that is not white space
/// (or the length of `s` if there is none).
pub open spec fn leading_ws_end(s: Seq<char>, i: int) -> int
    decreases s.len() - i,
{
    if 0 <= i < s.len() && is_white_space(s[i]) {
        leading_ws_end(s, i + 1)
    } else {
        i
    }
}

/// The index just after the last character before `j` that is not white space,
/// looking no further back than `lo`.
pub open spec fn trailing_ws_start(s: Seq<char>, lo: int, j: int) -> int
    decreases j,
{
    if 0 <= lo < j <= s.len() && is_white_space(s[j - 1]) {
        trailing_ws_start(s, lo, j - 1)
    } else {
        j
    }
}

/// `s` without leading and trailing white space, as `str::trim` gives it.
pub open spec fn trim(s: Seq<char>) -> Seq<char> {
    let lo = leading_ws_end(s, 0);
    s.subrange(lo, trailing_ws_start(s, lo, s.len() as int))
}

pub fn trim_chars(v: &Vec<char>) -> (r: Vec<char>)
    ensures
        r@ == trim(v@),
{
    let n = v.len();
    let mut lo: usize = 0;
    while lo < n && is_white_space_char(v[lo])
        invariant
            n == v@.len(),
            lo <= n,
            leading_ws_end(v@, 0) == leading_ws_end(v@, lo as int),
        decreases n - lo,
    {
        lo = lo + 1;
    }
    let mut hi: usize = n;
    while hi > lo && is_white_space_char(v[hi - 1])
        invariant
            n == v@.len(),
            lo <= hi <= n,
            leading_ws_end(v@, 0) == lo,
            trailing_ws_start(v@, lo as int, n as int) == trailing_ws_start(v@, lo as int, hi as int),
        decreases hi,
    {
        hi = hi - 1;
    }
    sub_chars(v, lo, hi)
}

/// The characters of `v` from `lo` up to (not including) `hi`.
pub fn sub_chars(v: &Vec<char>, lo: usize, hi: usize) -> (r: Vec<char>)
    requires
        lo <= hi <= v@.len(),
    ensures
        r@ == v@.subrange(lo as int, hi as int),
{
    let mut out: Vec<char> = Vec::new();
    let mut i: usize = lo;
    while i < hi
        invariant
            lo <= i <= hi <= v@.len(),
            out@ == v@.subrange(lo as int, i as int),
        decreases hi - i,
    {
        out.push(v[i]);
        i = i + 1;
    }
    out
}

/// Splitting `s` at each occurrence of `sep`, as `str::split` with a `char`
/// pattern does: scanning from index `i`, with `cur` the piece begun so far and
/// `done` the pieces already complete.
pub open spec fn split_from(
    s: Seq<char>,
    sep: char,
    i: int,
    cur: Seq<char>,
    done: Seq<Seq<char>>,
) -> Seq<Seq<char>>
    decreases s.len() - i,
{
    if i >= s.len() {
        done.push(cur)
    } else if s[i] == sep {
        split_from(s, sep, i + 1, Seq::empty(), done.push(cur))
    } else {
        split_from(s, sep, i + 1, cur.push(s[i]), done)
    }
}

/// The pieces of `s` between occurrences of `sep`; there is always at least one.
pub open spec fn split(s: Seq<char>, sep: char) -> Seq<Seq<char>> {
    split_from(s, sep, 0, Seq::empty(), Seq::empty())
}

pub fn split_chars(v: &Vec<char>, sep: char) -> (r: Vec<Vec<char>>)
    ensures
        r@.len() == split(v@, sep).len(),
        forall|j: int| 0 <= j < r@.len() ==> #[trigger] r@[j]@ == split(v@, sep)[j],
{
    let mut done: Vec<Vec<char>> = Vec::new();
    let ghost mut done_v: Seq<Seq<char>> = Seq::empty();
    let mut cur: Vec<char> = Vec::new();
    let mut i: usize = 0;
    while i < v.len()
        invariant
            i <= v@.len(),
            split(v@, sep) == split_from(v@, sep, i as int, cur@, done_v),
            done@.len() == done_v.len(),
            forall|j: int| 0 <= j < done@.len() ==> #[trigger] done@[j]@ == done_v[j],
        decreases v@.len() - i,
    {
        if v[i] == sep {
            proof {
                done_v = done_v.push(cur@);
            }
            let finished = cur;
            cur = Vec::new();
            done.push(finished);
            assert(cur@ =~= Seq::<char>::empty());
        } else {
            cur.push(v[i]);
        }
        i = i + 1;
    }
    proof {
        done_v = done_v.push(cur@);
    }
    done.push(cur);
    done
}

/// The index of the first `c` in `s` at or after `i`, or the length of `s`.
pub open spec fn find_char(s: Seq<char>, c: char, i: int) -> int
    decreases s.len() - i,
{
    if i >= s.len() {
        s.len() as int
    } else if s[i] == c {
        i
    } else {
        find_char(s, c, i + 1)
    }
}

/// The text before and after the first `c` in `s`, as `str::split_once` gives
/// them; `None` when `s` holds no `c`.
pub open spec fn split_once(s: Seq<char>, c: char) -> Option<(Seq<char>, Seq<char>)> {
    let k = find_char(s, c, 0);
    if k < s.len() {
        Some((s.subrange(0, k), s.subrange(k + 1, s.len() as int)))
    } else {
        None
    }
}

pub fn split_once_chars(v: &Vec<char>, c: char) -> (r: Option<(Vec<char>, Vec<char>)>)
    ensures
        match r {
            Some((a, b)) => split_once(v@, c) == Some((a@, b@)),
            None => split_once(v@, c) is None,
        },
{
    let n = v.len();
    let mut k: usize = 0;
    while k < n && v[k] != c
        invariant
            n == v@.len(),
            k <= n,
            find_char(v@, c, 0) == find_char(v@, c, k as int),
        decreases n - k,
    {
        k = k + 1;
    }
    if k < n {
        Some((sub_chars(v, 0, k), sub_chars(v, k + 1, n)))
    } else {
        None
    }
}

/// Why text is not an unsigned integer, in the terms of `std::num::IntErrorKind`.
#[derive(Debug, Clone, Copy, PartialEq, Eq)]
pub enum ParseIntError {
    /// The text is empty.
    Empty,
    /// A character is not a digit of the radix.
    InvalidDigit,
    /// The value is larger than the type holds.
    PosOverflow,
}

/// The value of `c` as a digit of `radix`, as `char::to_digit` gives it.
pub open spec fn digit_value(c: char, radix: nat) -> Option<nat> {
    let u = c as u32;
    let d: int = if 0x30 <= u <= 0x39 {
        u - 0x30
    } else if 0x61 <= u <= 0x7A {
        u - 0x61 + 10
    } else if 0x41 <= u <= 0x5A {
        u - 0x41 + 10
    } else {
        36
    };
    if d < radix {
        Some(d as nat)
    } else {
        None
    }
}

/// Reading the digits of `d` from index `i` on, with `acc` the value of the
/// digits before: the first character that is not a digit is an
/// `InvalidDigit`, and a running value above `max` is a `PosOverflow`.
pub open spec fn digits_value(d: Seq<char>, radix: nat, max: nat, i: int, acc: nat) -> Result<
    nat,
    ParseIntError,
>
    decreases d.len() - i,
{
    if i >= d.len() {
        Ok(acc)
    } else {
        match digit_value(d[i], radix) {
            None => Err(ParseIntError::InvalidDigit),
            Some(x) => {
                let a = acc * radix + x;
                if a > max {
                    Err(ParseIntError::PosOverflow)
                } else {
                    digits_value(d, radix, max, i + 1, a)
                }
            },
        }
    }
}

/// An unsigned integer of at most `max` written in `radix`, as
/// `from_str_radix` reads it: an optional leading `+`, then digits only.
pub open spec fn parse_uint(s: Seq<char>, radix: nat, max: nat) -> Result<nat, ParseIntError> {
    if s.len() == 0 {
        Err(ParseIntError::Empty)
    } else if s.len() == 1 && (s[0] == '+' || s[0] == '-') {
        Err(ParseIntError::InvalidDigit)
    } else if s[0] == '+' {
        digits_value(s, radix, max, 1, 0)
    } else {
        digits_value(s, radix, max, 0, 0)
    }
}

pub fn digit_value_of(c: char, radix: u32) -> (r: Option<u32>)
    requires
        2 <= radix <= 36,
    ensures
        match r {
            Some(x) => digit_value(c, radix as nat) == Some(x as nat),
            None => digit_value(c, radix as nat) is None,
        },
{
    let u = c as u32;
    let d: u32 = if 0x30 <= u && u <= 0x39 {
        u - 0x30
    } else if 0x61 <= u && u <= 0x7A {
        u - 0x61 + 10
    } else if 0x41 <= u && u <= 0x5A {
        u - 0x41 + 10
    } else {
        36
    };
    if d < radix {
        Some(d)
    } else {
        None
    }
}

/// Reads `s` as `parse_uint` says.
pub fn parse_uint_chars(s: &Vec<char>, radix: u32, max: u32) -> (r: Result<u32, ParseIntError>)
    requires
        2 <= radix <= 16,
        max <= 65535,
    ensures
        match r {
            Ok(v) => parse_uint(s@, radix as nat, max as nat) == Ok::<nat, ParseIntError>(v as nat),
            Err(e) => parse_uint(s@, radix as nat, max as nat) == Err::<nat, ParseIntError>(e),
        },
        r matches Ok(v) ==> v <= max,
{
    let n = s.len();
    if n == 0 {
        return Err(ParseIntError::Empty);
    }
    if n == 1 && (s[0] == '+' || s[0] == '-') {
        return Err(ParseIntError::InvalidDigit);
    }
    let mut i: usize = if s[0] == '+' {
        1
    } else {
        0
    };
    let ghost start = i as int;
    let mut acc: u32 = 0;
    while i < n
        invariant
            n == s@.len(),
            start <= i <= n,
            2 <= radix <= 16,
            max <= 65535,
            acc <= max,
            parse_uint(s@, radix as nat, max as nat) == digits_value(
                s@,
                radix as nat,
                max as nat,
                i as int,
                acc as nat,
            ),
        decreases n - i,
    {
        match digit_value_of(s[i], radix) {
            None => {
                return Err(ParseIntError::InvalidDigit);
            },
            Some(x) => {
                assert(acc * radix <= 65535 * 16) by (nonlinear_arith)
                    requires
                        acc <= 65535,
                        radix <= 16,
                ;
                let a = acc * radix + x;
                if a > max {
                    return Err(ParseIntError::PosOverflow);
                }
                acc = a;
            },
        }
        i = i + 1;
    }
    Ok(acc)
}

/// The lowercase hexadecimal digit for `d` (below 16).
pub open spec fn hex_digit(d: nat) -> char {
    if d < 10 {
        (0x30 + d) as char
    } else {
        (0x61 + d - 10) as char
    }
}

/// The two lowercase hexadecimal digits of a byte, as `{:02x}` writes them.
pub open spec fn hex_pair(b: u8) -> Seq<char> {
    seq![hex_digit(b as nat / 16), hex_digit(b as nat % 16)]
}

pub fn hex_digit_char(d: u8) -> (c: char)
    requires
        d < 16,
    ensures
        c == hex_digit(d as nat),
{
    if d < 10 {
        (0x30u8 + d) as char
    } else {
        (0x61u8 + d - 10) as char
    }
}

/// The decimal digit for `d` (below 10).
pub open spec fn dec_digit(d: nat) -> char {
    (0x30 + d) as char
}

/// The decimal numeral of `n`, without leading zeros, as `{}` writes it.
pub open spec fn decimal(n: nat) -> Seq<char>
    decreases n,
{
    if n < 10 {
        seq![dec_digit(n)]
    } else {
        decimal(n / 10).push(dec_digit(n % 10))
    }
}

/// Appends the decimal numeral of `n` to `s`.
pub fn push_decimal(s: &mut String, n: u16)
    ensures
        final(s)@ == old(s)@ + decimal(n as nat),
        parse_uint(final(s)@.subrange(old(s)@.len() as int, final(s)@.len() as int), 10, 65535)
            == Ok::<nat, ParseIntError>(n as nat),
{
    proof {
        lemma_decimal_reads_back(n);
    }
    let mut digits: Vec<char> = Vec::new();
    let mut m: u16 = n;
    // Digits are produced least significant first.
    while m >= 10
        invariant
            decimal(n as nat) == decimal(m as nat) + digits@.reverse(),
        decreases m,
    {
        let ghost before = digits@;
        digits.push(((m % 10) as u8 + 0x30u8) as char);
        assert(decimal(m as nat) == decimal((m / 10) as nat).push(dec_digit((m % 10) as nat)));
        assert(digits@.reverse() =~= seq![dec_digit((m % 10) as nat)] + before.reverse());
        m = m / 10;
    }
    let ghost before = digits@;
    digits.push((m as u8 + 0x30u8) as char);
    assert(digits@.reverse() =~= seq![dec_digit(m as nat)] + before.reverse());
    assert(decimal(n as nat) =~= digits@.reverse());
    let mut k: usize = digits.len();
    while k > 0
        invariant
            k <= digits@.len(),
            decimal(n as nat) == digits@.reverse(),
            s@ == old(s)@ + digits@.reverse().subrange(0, digits@.len() - k),
        decreases k,
    {
        k = k - 1;
        s.push(digits[k]);
        assert(digits@.reverse().subrange(0, digits@.len() - k) =~= digits@.reverse().subrange(
            0,
            digits@.len() - k - 1,
        ).push(digits@[k as int]));
    }
    assert(digits@.reverse().subrange(0, digits@.len() as int) =~= digits@.reverse());
    assert(s@.subrange(old(s)@.len() as int, s@.len() as int) =~= decimal(n as nat));
}


/// A hexadecimal digit reads back as its value and is neither a sign nor a
/// separator.
pub proof fn lemma_hex_digit_reads(d: nat)
    requires
        d < 16,
    ensures
        digit_value(hex_digit(d), 16) == Some(d),
        hex_digit(d) != ':',
        hex_digit(d) != '+',
        hex_digit(d) != '-',
{
}

/// The two hexadecimal digits of a byte read back as the byte.
pub proof fn lemma_hex_pair_reads(b: u8)
    ensures
        parse_uint(hex_pair(b), 16, 255) == Ok::<nat, ParseIntError>(b as nat),
{
    let hi = b as nat / 16;
    let lo = b as nat % 16;
    lemma_hex_digit_reads(hi);
    lemma_hex_digit_reads(lo);
    let s = hex_pair(b);
    assert(hi * 16 + lo == b);
    assert(digits_value(s, 16, 255, 2, hi * 16 + lo) == Ok::<nat, ParseIntError>(b as nat));
    assert(digits_value(s, 16, 255, 1, hi) == Ok::<nat, ParseIntError>(b as nat));
    assert(digits_value(s, 16, 255, 0, 0) == Ok::<nat, ParseIntError>(b as nat));
}


/// Splitting passes over a run without separators by extending the current piece.
pub proof fn lemma_split_from_run(
    s: Seq<char>,
    sep: char,
    i: int,
    j: int,
    cur: Seq<char>,
    done: Seq<Seq<char>>,
)
    requires
        0 <= i <= j <= s.len(),
        forall|k: int| i <= k < j ==> s[k] != sep,
    ensures
        split_from(s, sep, i, cur, done) == split_from(s, sep, j, cur + s.subrange(i, j), done),
    decreases j - i,
{
    if i < j {
        assert(cur.push(s[i]) + s.subrange(i + 1, j) =~= cur + s.subrange(i, j));
        lemma_split_from_run(s, sep, i + 1, j, cur.push(s[i]), done);
    } else {
        assert(cur + s.subrange(i, j) =~= cur);
    }
}


/// The pieces already complete only stand in front of what the rest of the
/// scan yields.
pub proof fn lemma_split_from_done(
    s: Seq<char>,
    sep: char,
    i: int,
    cur: Seq<char>,
    done: Seq<Seq<char>>,
)
    ensures
        split_from(s, sep, i, cur, done) == done + split_from(s, sep, i, cur, Seq::empty()),
    decreases s.len() - i,
{
    if i >= s.len() {
        assert(done.push(cur) =~= done + Seq::<Seq<char>>::empty().push(cur));
    } else if s[i] == sep {
        lemma_split_from_done(s, sep, i + 1, Seq::empty(), done.push(cur));
        lemma_split_from_done(s, sep, i + 1, Seq::empty(), Seq::<Seq<char>>::empty().push(cur));
        assert(done.push(cur) + split_from(s, sep, i + 1, Seq::empty(), Seq::empty()) =~= done + (
        Seq::<Seq<char>>::empty().push(cur) + split_from(s, sep, i + 1, Seq::empty(), Seq::empty())));
    } else {
        lemma_split_from_done(s, sep, i + 1, cur.push(s[i]), done);
        lemma_split_from_done(s, sep, i + 1, cur.push(s[i]), Seq::empty());
    }
}

/// Scanning `p + b` past `p` is scanning `b`.
pub proof fn lemma_split_from_shift(
    p: Seq<char>,
    b: Seq<char>,
    sep: char,
    j: int,
    cur: Seq<char>,
    done: Seq<Seq<char>>,
)
    requires
        0 <= j <= b.len(),
    ensures
        split_from(p + b, sep, p.len() + j, cur, done) == split_from(b, sep, j, cur, done),
    decreases b.len() - j,
{
    let t = p + b;
    if j < b.len() {
        assert(t[p.len() + j] == b[j]);
        if b[j] == sep {
            lemma_split_from_shift(p, b, sep, j + 1, Seq::empty(), done.push(cur));
        } else {
            lemma_split_from_shift(p, b, sep, j + 1, cur.push(b[j]), done);
        }
    }
}

proof fn lemma_split_from_join(
    a: Seq<char>,
    b: Seq<char>,
    sep: char,
    i: int,
    cur: Seq<char>,
    done: Seq<Seq<char>>,
)
    requires
        0 <= i <= a.len(),
    ensures
        split_from(a + seq![sep] + b, sep, i, cur, done) == split_from(a, sep, i, cur, done) + split(
            b,
            sep,
        ),
    decreases a.len() - i,
{
    let p = a + seq![sep];
    let t = p + b;
    if i == a.len() {
        assert(t[i] == sep);
        lemma_split_from_shift(p, b, sep, 0, Seq::empty(), done.push(cur));
        lemma_split_from_done(b, sep, 0, Seq::empty(), done.push(cur));
    } else {
        assert(t[i] == a[i]);
        if a[i] == sep {
            lemma_split_from_join(a, b, sep, i + 1, Seq::empty(), done.push(cur));
        } else {
            lemma_split_from_join(a, b, sep, i + 1, cur.push(a[i]), done);
        }
    }
}

/// Splitting two texts joined by the separator gives the pieces of the first
/// followed by those of the second.
pub proof fn lemma_split_join(a: Seq<char>, b: Seq<char>, sep: char)
    ensures
        split(a + seq![sep] + b, sep) == split(a, sep) + split(b, sep),
{
    lemma_split_from_join(a, b, sep, 0, Seq::empty(), Seq::empty());
}

} // verus!

verus! {

/// Reading digits of `s` with one more character `c` at the end goes as
/// reading `s` and then taking `c` as the last digit.
proof fn lemma_digits_value_push(
    s: Seq<char>,
    c: char,
    radix: nat,
    max: nat,
    i: int,
    acc: nat,
)
    requires
        0 <= i <= s.len(),
    ensures
        digits_value(s.push(c), radix, max, i, acc) == match digits_value(s, radix, max, i, acc) {
            Ok(v) => match digit_value(c, radix) {
                None => Err(ParseIntError::InvalidDigit),
                Some(x) => if v * radix + x > max {
                    Err(ParseIntError::PosOverflow)
                } else {
                    Ok(v * radix + x)
                },
            },
            Err(e) => Err(e),
        },
    decreases s.len() - i,
{
    let t = s.push(c);
    if i == s.len() {
        assert(t[i] == c);
        match digit_value(c, radix) {
            None => {},
            Some(x) => {
                let a = acc * radix + x;
                if a <= max {
                    assert(digits_value(t, radix, max, i + 1, a) == Ok::<nat, ParseIntError>(a));
                }
            },
        }
    } else {
        assert(t[i] == s[i]);
        match digit_value(s[i], radix) {
            None => {},
            Some(x) => {
                let a = acc * radix + x;
                if a <= max {
                    lemma_digits_value_push(s, c, radix, max, i + 1, a);
                }
            },
        }
    }
}

proof fn lemma_dec_digit_reads(d: nat)
    requires
        d < 10,
    ensures
        digit_value(dec_digit(d), 10) == Some(d),
        dec_digit(d) != '+',
        dec_digit(d) != '-',
{
}

pub proof fn lemma_decimal_digits(n: nat)
    requires
        n <= 65535,
    ensures
        decimal(n).len() >= 1,
        decimal(n)[0] != '+' && decimal(n)[0] != '-',
        n > 0 ==> decimal(n)[0] != '0',
        n == 0 ==> decimal(n) == seq!['0'],
        forall|k: int| 0 <= k < decimal(n).len() ==> 0x30 <= (#[trigger] decimal(n)[k]) as u32 <= 0x39,
        digits_value(decimal(n), 10, 65535, 0, 0) == Ok::<nat, ParseIntError>(n),
    decreases n,
{
    if n < 10 {
        lemma_dec_digit_reads(n);
        let s = decimal(n);
        assert(digits_value(s, 10, 65535, 1, n) == Ok::<nat, ParseIntError>(n));
    } else {
        lemma_decimal_digits(n / 10);
        lemma_dec_digit_reads(n % 10);
        let s = decimal(n / 10);
        lemma_digits_value_push(s, dec_digit(n % 10), 10, 65535, 0, 0);
        assert((n / 10) * 10 + n % 10 == n);
        assert(s.push(dec_digit(n % 10))[0] == s[0]);
    }
}

/// The decimal text of a number up to 65535 reads back, as `u16::from_str`
/// reads it, as that number: it is made of digits only and their value is
/// the number. It has no leading zero, and zero is the single digit `0`.
pub proof fn lemma_decimal_reads_back(n: u16)
    ensures
        parse_uint(decimal(n as nat), 10, 65535) == Ok::<nat, ParseIntError>(n as nat),
        n > 0 ==> decimal(n as nat)[0] != '0',
        n == 0 ==> decimal(n as nat) == seq!['0'],
{
    lemma_decimal_digits(n as nat);
}

} // verus!

verus! {

/// The pieces `p` joined back together with `sep` between neighbours.
pub open spec fn join_pieces(p: Seq<Seq<char>>, sep: char) -> Seq<char>
    decreases p.len(),
{
    if p.len() == 0 {
        Seq::empty()
    } else if p.len() == 1 {
        p[0]
    } else {
        join_pieces(p.drop_last(), sep) + seq![sep] + p.last()
    }
}

proof fn lemma_join_push(p: Seq<Seq<char>>, q: Seq<char>, sep: char)
    ensures
        join_pieces(p.push(q), sep) == if p.len() == 0 {
            q
        } else {
            join_pieces(p, sep) + seq![sep] + q
        },
{
    assert(p.push(q).drop_last() =~= p);
}

proof fn lemma_split_from_pieces(
    s: Seq<char>,
    sep: char,
    i: int,
    cur: Seq<char>,
    done: Seq<Seq<char>>,
)
    requires
        0 <= i <= s.len(),
        !cur.contains(sep),
        forall|k: int| 0 <= k < done.len() ==> !(#[trigger] done[k]).contains(sep),
    ensures
        split_from(s, sep, i, cur, done).len() >= 1,
        forall|k: int|
            0 <= k < split_from(s, sep, i, cur, done).len() ==> !(#[trigger] split_from(
                s,
                sep,
                i,
                cur,
                done,
            )[k]).contains(sep),
        join_pieces(split_from(s, sep, i, cur, done), sep) == join_pieces(done.push(cur), sep)
            + s.subrange(i, s.len() as int),
    decreases s.len() - i,
{
    lemma_join_push(done, cur, sep);
    if i >= s.len() {
        assert(s.subrange(i, s.len() as int) =~= Seq::<char>::empty());
        assert(join_pieces(done.push(cur), sep) + Seq::<char>::empty() =~= join_pieces(
            done.push(cur),
            sep,
        ));
    } else if s[i] == sep {
        let e = Seq::<char>::empty();
        let d = done.push(cur);
        assert forall|k: int| 0 <= k < d.len() implies !(#[trigger] d[k]).contains(sep) by {
            if k < done.len() {
                assert(d[k] == done[k]);
            }
        }
        lemma_split_from_pieces(s, sep, i + 1, e, d);
        lemma_join_push(d, e, sep);
        assert(join_pieces(d, sep) + seq![sep] + e + s.subrange(i + 1, s.len() as int)
            =~= join_pieces(d, sep) + s.subrange(i, s.len() as int));
    } else {
        let c2 = cur.push(s[i]);
        assert(!c2.contains(sep)) by {
            if c2.contains(sep) {
                let k = choose|k: int| 0 <= k < c2.len() && c2[k] == sep;
                if k < cur.len() {
                    assert(cur[k] == sep);
                }
            }
        }
        lemma_split_from_pieces(s, sep, i + 1, c2, done);
        lemma_join_push(done, c2, sep);
        if done.len() == 0 {
            assert(c2 + s.subrange(i + 1, s.len() as int) =~= cur + s.subrange(i, s.len() as int));
        } else {
            assert(join_pieces(done, sep) + seq![sep] + c2 + s.subrange(i + 1, s.len() as int)
                =~= join_pieces(done, sep) + seq![sep] + cur + s.subrange(i, s.len() as int));
        }
    }
}

/// The pieces that `split` cuts hold no separator, and joined back with the
/// separator they give the text again.
pub proof fn lemma_split_pieces(s: Seq<char>, sep: char)
    ensures
        split(s, sep).len() >= 1,
        forall|k: int| 0 <= k < split(s, sep).len() ==> !(#[trigger] split(s, sep)[k]).contains(sep),
        join_pieces(split(s, sep), sep) == s,
{
    let e = Seq::<char>::empty();
    let d = Seq::<Seq<char>>::empty();
    lemma_split_from_pieces(s, sep, 0, e, d);
    lemma_join_push(d, e, sep);
    assert(e + s.subrange(0, s.len() as int) =~= s);
}

proof fn lemma_find_char_first(s: Seq<char>, c: char, i: int)
    requires
        0 <= i <= s.len(),
    ensures
        i <= find_char(s, c, i) <= s.len(),
        find_char(s, c, i) < s.len() ==> s[find_char(s, c, i)] == c,
        forall|k: int| i <= k < find_char(s, c, i) ==> s[k] != c,
    decreases s.len() - i,
{
    if i < s.len() && s[i] != c {
        lemma_find_char_first(s, c, i + 1);
    }
}

/// `split_once` cuts at the first occurrence: the text is the part before,
/// the character, and the part after, and the part before holds no such
/// character; with no occurrence there is no cut.
pub proof fn lemma_split_once_parts(s: Seq<char>, c: char)
    ensures
        split_once(s, c) matches Some((a, b)) ==> s == a + seq![c] + b && !a.contains(c),
        split_once(s, c) is None ==> !s.contains(c),
{
    lemma_find_char_first(s, c, 0);
    let k = find_char(s, c, 0);
    if k < s.len() {
        let a = s.subrange(0, k);
        let b = s.subrange(k + 1, s.len() as int);
        assert(s =~= a + seq![c] + b);
        if a.contains(c) {
            let j = choose|j: int| 0 <= j < a.len() && a[j] == c;
            assert(s[j] == c);
        }
    } else {
        if s.contains(c) {
            let j = choose|j: int| 0 <= j < s.len() && s[j] == c;
            assert(s[j] != c);
        }
    }
}

proof fn lemma_leading_ws(s: Seq<char>, i: int)
    requires
        0 <= i <= s.len(),
    ensures
        i <= leading_ws_end(s, i) <= s.len(),
        forall|k: int| i <= k < leading_ws_end(s, i) ==> is_white_space(s[k]),
        leading_ws_end(s, i) < s.len() ==> !is_white_space(s[leading_ws_end(s, i)]),
    decreases s.len() - i,
{
    if i < s.len() && is_white_space(s[i]) {
        lemma_leading_ws(s, i + 1);
    }
}

proof fn lemma_trailing_ws(s: Seq<char>, lo: int, j: int)
    requires
        0 <= lo <= j <= s.len(),
    ensures
        lo <= trailing_ws_start(s, lo, j) <= j,
        forall|k: int| trailing_ws_start(s, lo, j) <= k < j ==> is_white_space(s[k]),
        trailing_ws_start(s, lo, j) > lo ==> !is_white_space(s[trailing_ws_start(s, lo, j) - 1]),
    decreases j,
{
    if lo < j && is_white_space(s[j - 1]) {
        lemma_trailing_ws(s, lo, j - 1);
    }
}

/// `trim` removes white space at both ends and nothing else: what is left is
/// a contiguous part of the text, everything cut off before and after it is
/// white space, and it neither begins nor ends with white space.
pub proof fn lemma_trim_parts(s: Seq<char>)
    ensures
        exists|lo: int, hi: int|
            {
                &&& 0 <= lo <= hi <= s.len()
                &&& trim(s) == s.subrange(lo, hi)
                &&& forall|k: int| 0 <= k < lo ==> is_white_space(#[trigger] s[k])
                &&& forall|k: int| hi <= k < s.len() ==> is_white_space(#[trigger] s[k])
                &&& hi > lo ==> !is_white_space(s[lo]) && !is_white_space(s[hi - 1])
            },
{
    lemma_leading_ws(s, 0);
    let lo = leading_ws_end(s, 0);
    lemma_trailing_ws(s, lo, s.len() as int);
    let hi = trailing_ws_start(s, lo, s.len() as int);
    assert(trim(s) == s.subrange(lo, hi));
}

/// A decimal digit is one of the characters `0` to `9`, standing for its
/// place after `0`; a hexadecimal digit is a decimal one or a letter `a` to
/// `f` in either case, standing for ten and up.
pub proof fn lemma_digit_values(c: char)
    ensures
        digit_value(c, 10) matches Some(d) ==> d < 10 && c as u32 == 0x30 + d,
        (0x30 <= c as u32 <= 0x39) <==> digit_value(c, 10) is Some,
        digit_value(c, 16) matches Some(d) ==> d < 16 && (if d < 10 {
            c as u32 == 0x30 + d
        } else {
            c as u32 == 0x61 + d - 10 || c as u32 == 0x41 + d - 10
        }),
        (0x30 <= c as u32 <= 0x39 || 0x61 <= c as u32 <= 0x66 || 0x41 <= c as u32 <= 0x46)
            <==> digit_value(c, 16) is Some,
{
}

/// Text that neither begins nor ends with white space is its own trim.
pub proof fn lemma_trim_unchanged(s: Seq<char>)
    requires
        s.len() >= 1,
        !is_white_space(s[0]),
        !is_white_space(s[s.len() - 1]),
    ensures
        trim(s) == s,
{
    assert(leading_ws_end(s, 0) == 0);
    assert(trailing_ws_start(s, 0, s.len() as int) == s.len());
    assert(s.subrange(0, s.len() as int) =~= s);
}

/// Text without the separator is a single piece.
pub proof fn lemma_split_without_sep(s: Seq<char>, sep: char)
    requires
        !s.contains(sep),
    ensures
        split(s, sep) == seq![s],
{
    assert forall|k: int| 0 <= k < s.len() implies s[k] != sep by {
        if s[k] == sep {
            assert(s.contains(sep));
        }
    }
    lemma_split_from_run(s, sep, 0, s.len() as int, Seq::empty(), Seq::empty());
    assert(Seq::<char>::empty() + s.subrange(0, s.len() as int) =~= s);
    assert(Seq::<Seq<char>>::empty().push(s) =~= seq![s]);
}

/// `split_once` of two parts joined by a character the first part lacks
/// gives those parts back; text without the character is not cut.
pub proof fn lemma_split_once_join(a: Seq<char>, b: Seq<char>, c: char)
    ensures
        !a.contains(c) ==> split_once(a + seq![c] + b, c) == Some((a, b)),
        !a.contains(c) ==> split_once(a, c) is None,
{
    if !a.contains(c) {
        let t = a + seq![c] + b;
        lemma_find_char_first(t, c, 0);
        let k = find_char(t, c, 0);
        if k > a.len() {
            assert(t[a.len() as int] == c);
        }
        if k < a.len() {
            assert(t[k] == a[k]);
            assert(a.contains(c));
        }
        assert(t.subrange(0, a.len() as int) =~= a);
        assert(t.subrange((a.len() + 1) as int, t.len() as int) =~= b);
        lemma_find_char_first(a, c, 0);
        if find_char(a, c, 0) < a.len() {
            assert(a.contains(c));
        }
    }
}

} // verus!
