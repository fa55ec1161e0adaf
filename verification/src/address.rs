//! Parsing of numbers and breakpoint locations typed at the debugger prompt.

use vstd::prelude::*;

verus! {

/// Value of `c` as a digit in base `radix` (2..=36), as `char::to_digit` gives it.
pub open spec fn digit_value(c: char, radix: nat) -> Option<nat> {
    let v: int = if '0' <= c && c <= '9' {
        c as int - '0' as int
    } else if 'a' <= c && c <= 'z' {
        c as int - 'a' as int + 10
    } else if 'A' <= c && c <= 'Z' {
        c as int - 'A' as int + 10
    } else {
        radix as int
    };
    if v < radix {
        Some(v as nat)
    } else {
        None
    }
}

/// Whether every character of `s` is a digit in base `radix`.
pub open spec fn all_digits(s: Seq<char>, radix: nat) -> bool {
    forall|i: int| 0 <= i < s.len() ==> (#[trigger] digit_value(s[i], radix)) is Some
}

/// The number that the digits `s` denote in base `radix` (most significant first).
pub open spec fn digits_value(s: Seq<char>, radix: nat) -> nat
    decreases s.len(),
{
    if s.len() == 0 {
        0
    } else {
        digits_value(s.drop_last(), radix) * radix + digit_value(s.last(), radix).unwrap_or(0)
    }
}

/// What `usize::from_str_radix(s, radix)` returns: an optional `+` followed by
/// at least one digit, denoting a value that fits in `usize`.
pub open spec fn from_str_radix_spec(s: Seq<char>, radix: nat) -> Option<usize> {
    if s.len() == 0 || s =~= seq!['+'] || s =~= seq!['-'] {
        None
    } else {
        let digits = if s[0] == '+' {
            s.drop_first()
        } else {
            s
        };
        if all_digits(digits, radix) && digits_value(digits, radix) <= usize::MAX {
            Some(digits_value(digits, radix) as usize)
        } else {
            None
        }
    }
}

/// Whether `s` starts with `0x`, in either case.
pub open spec fn has_hex_prefix(s: Seq<char>) -> bool {
    s.len() >= 2 && s[0] == '0' && (s[1] == 'x' || s[1] == 'X')
}

/// The address that `parse_address` reads from `s`: hexadecimal digits,
/// optionally after a `0x` or `0X` prefix.
pub open spec fn address_spec(s: Seq<char>) -> Option<usize> {
    if has_hex_prefix(s) {
        from_str_radix_spec(s.subrange(2, s.len() as int), 16)
    } else {
        from_str_radix_spec(s, 16)
    }
}

fn char_digit(c: char, radix: u32) -> (res: Option<u32>)
    requires
        2 <= radix <= 36,
    ensures
        match res {
            Some(v) => digit_value(c, radix as nat) == Some(v as nat),
            None => digit_value(c, radix as nat) is None,
        },
{
    let v: u32 = if '0' <= c && c <= '9' {
        (c as u32) - ('0' as u32)
    } else if 'a' <= c && c <= 'z' {
        (c as u32) - ('a' as u32) + 10
    } else if 'A' <= c && c <= 'Z' {
        (c as u32) - ('A' as u32) + 10
    } else {
        radix
    };
    if v < radix {
        Some(v)
    } else {
        None
    }
}

proof fn lemma_digits_value_push(s: Seq<char>, radix: nat, c: char)
    ensures
        digits_value(s.push(c), radix) == digits_value(s, radix) * radix + digit_value(
            c,
            radix,
        ).unwrap_or(0),
{
    assert(s.push(c).drop_last() =~= s);
}

/// Parses the characters `s[start..]` as digits in base `radix`.
fn parse_digits(s: &str, start: usize, radix: u32) -> (res: Option<usize>)
    requires
        2 <= radix <= 36,
        start < s@.len(),
    ensures
        ({
            let d = s@.subrange(start as int, s@.len() as int);
            res == if all_digits(d, radix as nat) && digits_value(d, radix as nat) <= usize::MAX {
                Some(digits_value(d, radix as nat) as usize)
            } else {
                None
            }
        }),
{
    let n = s.unicode_len();
    let mut i = start;
    let mut acc: usize = 0;
    let mut overflow = false;
    let ghost d = s@.subrange(start as int, s@.len() as int);
    while i < n
        invariant
            n == s@.len(),
            start <= i <= n,
            2 <= radix <= 36,
            d == s@.subrange(start as int, s@.len() as int),
            all_digits(d.subrange(0, i - start), radix as nat),
            !overflow ==> acc == digits_value(d.subrange(0, i - start), radix as nat),
            overflow ==> digits_value(d.subrange(0, i - start), radix as nat) > usize::MAX,
        decreases n - i,
    {
        let c = s.get_char(i);
        let ghost prefix = d.subrange(0, i - start);
        assert(d.subrange(0, i + 1 - start) =~= prefix.push(c));
        proof {
            lemma_digits_value_push(prefix, radix as nat, c);
        }
        match char_digit(c, radix) {
            None => {
                assert(!all_digits(d, radix as nat)) by {
                    assert(d[i - start] == c);
                }
                return None;
            },
            Some(v) => {
                assert(all_digits(d.subrange(0, i + 1 - start), radix as nat)) by {
                    assert forall|j: int| 0 <= j < i + 1 - start implies (#[trigger] digit_value(
                        d.subrange(0, i + 1 - start)[j],
                        radix as nat,
                    )) is Some by {
                        if j < i - start {
                            assert(d.subrange(0, i + 1 - start)[j] == prefix[j]);
                        }
                    }
                }
                if !overflow {
                    match acc.checked_mul(radix as usize) {
                        None => {
                            overflow = true;
                            assert(digits_value(prefix, radix as nat) * radix >= usize::MAX + 1);
                            assert(digits_value(prefix.push(c), radix as nat) > usize::MAX);
                        },
                        Some(m) => {
                            match m.checked_add(v as usize) {
                                None => {
                                    overflow = true;
                                },
                                Some(t) => {
                                    acc = t;
                                },
                            }
                        },
                    }
                } else {
                    assert(digits_value(prefix, radix as nat) * radix >= digits_value(
                        prefix,
                        radix as nat,
                    )) by (nonlinear_arith)
                        requires
                            radix >= 2,
                    ;
                }
            },
        }
        i = i + 1;
    }
    assert(d.subrange(0, n - start) =~= d);
    if overflow {
        None
    } else {
        Some(acc)
    }
}

/// `usize::from_str_radix(s[start..], radix)`: an optional `+` followed by
/// digits in base `radix` whose value fits in `usize`.
pub fn parse_radix(s: &str, start: usize, radix: u32) -> (res: Option<usize>)
    requires
        2 <= radix <= 36,
        start <= s@.len(),
    ensures
        res == from_str_radix_spec(s@.subrange(start as int, s@.len() as int), radix as nat),
{
    let n = s.unicode_len();
    let ghost t = s@.subrange(start as int, s@.len() as int);
    if start == n {
        return None;
    }
    let first = s.get_char(start);
    assert(t[0] == first);
    if n - start == 1 && (first == '+' || first == '-') {
        assert(t =~= seq![first]);
        return None;
    }
    if n - start == 1 {
        assert(!(t =~= seq!['+']) && !(t =~= seq!['-'])) by {
            assert(t[0] == first);
        }
    } else {
        assert(!(t =~= seq!['+']) && !(t =~= seq!['-'])) by {
            assert(t.len() >= 2);
        }
    }
    if first == '+' {
        assert(t.drop_first() =~= s@.subrange(start + 1, s@.len() as int));
        parse_digits(s, start + 1, radix)
    } else {
        parse_digits(s, start, radix)
    }
}

/// Reads a hexadecimal address, with or without a `0x`/`0X` prefix.
pub fn parse_address(addr: &str) -> (res: Option<usize>)
    ensures
        res == address_spec(addr@),
{
    let n = addr.unicode_len();
    if n >= 2 && addr.get_char(0) == '0' && (addr.get_char(1) == 'x' || addr.get_char(1) == 'X') {
        parse_radix(addr, 2, 16)
    } else {
        assert(addr@.subrange(0, addr@.len() as int) =~= addr@);
        parse_radix(addr, 0, 16)
    }
}


/// `char::to_ascii_uppercase`.
pub open spec fn ascii_upper(c: char) -> char {
    if 'a' <= c && c <= 'z' {
        ((c as int) - 32) as char
    } else {
        c
    }
}

/// `char::to_ascii_lowercase`.
pub open spec fn ascii_lower(c: char) -> char {
    if 'A' <= c && c <= 'Z' {
        ((c as int) + 32) as char
    } else {
        c
    }
}

/// Whether `f` changes at most the case of ASCII letters, in the way that
/// `ascii_upper` and `ascii_lower` do.
pub open spec fn case_change(f: spec_fn(char) -> char) -> bool {
    forall|c: char|
        #![trigger f(c)]
        (f(c) == c || f(c) == ascii_upper(c) || f(c) == ascii_lower(c))
}

proof fn lemma_case_keeps_digit(f: spec_fn(char) -> char, c: char, radix: nat)
    requires
        case_change(f),
    ensures
        digit_value(f(c), radix) == digit_value(c, radix),
        f(c) == '+' <==> c == '+',
        f(c) == '-' <==> c == '-',
        f(c) == '0' <==> c == '0',
        (f(c) == 'x' || f(c) == 'X') <==> (c == 'x' || c == 'X'),
{
    assert(f(c) == c || f(c) == ascii_upper(c) || f(c) == ascii_lower(c));
}

proof fn lemma_case_keeps_digits(f: spec_fn(char) -> char, s: Seq<char>, radix: nat)
    requires
        case_change(f),
    ensures
        all_digits(s.map_values(f), radix) == all_digits(s, radix),
        digits_value(s.map_values(f), radix) == digits_value(s, radix),
    decreases s.len(),
{
    let t = s.map_values(f);
    if s.len() > 0 {
        lemma_case_keeps_digits(f, s.drop_last(), radix);
        assert(t.drop_last() =~= s.drop_last().map_values(f));
        lemma_case_keeps_digit(f, s.last(), radix);
    }
    assert forall|i: int| 0 <= i < s.len() implies digit_value(t[i], radix) == digit_value(
        s[i],
        radix,
    ) by {
        lemma_case_keeps_digit(f, s[i], radix);
    }
    if all_digits(s, radix) {
        assert forall|i: int| 0 <= i < t.len() implies (#[trigger] digit_value(t[i], radix)) is Some by {
            assert(digit_value(s[i], radix) is Some);
        }
    }
    if all_digits(t, radix) {
        assert forall|i: int| 0 <= i < s.len() implies (#[trigger] digit_value(s[i], radix)) is Some by {
            assert(digit_value(t[i], radix) is Some);
        }
    }
}

proof fn lemma_case_keeps_number(f: spec_fn(char) -> char, s: Seq<char>, radix: nat)
    requires
        case_change(f),
    ensures
        from_str_radix_spec(s.map_values(f), radix) == from_str_radix_spec(s, radix),
{
    let t = s.map_values(f);
    if s.len() > 0 {
        lemma_case_keeps_digit(f, s[0], radix);
        assert(t[0] == f(s[0]));
        assert(t =~= seq!['+'] <==> s =~= seq!['+']) by {
            if t =~= seq!['+'] {
                assert(t[0] == '+');
            }
        }
        assert(t =~= seq!['-'] <==> s =~= seq!['-']) by {
            if t =~= seq!['-'] {
                assert(t[0] == '-');
            }
        }
        assert(t.drop_first() =~= s.drop_first().map_values(f));
        lemma_case_keeps_digits(f, s, radix);
        lemma_case_keeps_digits(f, s.drop_first(), radix);
    }
}

/// `parse_address` does not care about letter case: changing the case of
/// any ASCII letters of its input, in the prefix or in the digits, changes
/// nothing (for instance uppercasing or lowercasing the whole input).
pub proof fn lemma_address_case_insensitive(s: Seq<char>, f: spec_fn(char) -> char)
    requires
        case_change(f),
    ensures
        address_spec(s.map_values(f)) == address_spec(s),
{
    let t = s.map_values(f);
    if s.len() >= 2 {
        lemma_case_keeps_digit(f, s[0], 16);
        lemma_case_keeps_digit(f, s[1], 16);
        assert(t[0] == f(s[0]) && t[1] == f(s[1]));
        assert(t.subrange(2, t.len() as int) =~= s.subrange(2, s.len() as int).map_values(f));
        lemma_case_keeps_number(f, s.subrange(2, s.len() as int), 16);
    }
    lemma_case_keeps_number(f, s, 16);
}

/// Uppercasing or lowercasing the whole input gives the same address.
pub proof fn lemma_address_upper_lower(s: Seq<char>)
    ensures
        address_spec(s.map_values(|c: char| ascii_upper(c))) == address_spec(s),
        address_spec(s.map_values(|c: char| ascii_lower(c))) == address_spec(s),
{
    lemma_address_case_insensitive(s, |c: char| ascii_upper(c));
    lemma_address_case_insensitive(s, |c: char| ascii_lower(c));
}

/// The lowercase hexadecimal digit of `d`.
pub open spec fn hex_digit(d: nat) -> char {
    if d < 10 {
        ('0' as int + d) as char
    } else {
        ('a' as int + d - 10) as char
    }
}

/// `n` in lowercase hexadecimal without leading zeros, as `format!("{:x}", n)` writes it.
pub open spec fn hex_of(n: nat) -> Seq<char>
    decreases n,
{
    if n < 16 {
        seq![hex_digit(n)]
    } else {
        hex_of(n / 16).push(hex_digit(n % 16))
    }
}

/// `k` zeros.
pub open spec fn zeros(k: nat) -> Seq<char> {
    Seq::new(k, |i: int| '0')
}

proof fn lemma_hex_of_value(n: nat)
    ensures
        hex_of(n).len() >= 1,
        hex_of(n)[0] != '+' && hex_of(n)[0] != '-',
        all_digits(hex_of(n), 16),
        digits_value(hex_of(n), 16) == n,
    decreases n,
{
    if n < 16 {
        lemma_hex_digit_value(n);
        assert(hex_of(n).drop_last() =~= Seq::<char>::empty());
        assert(digits_value(Seq::<char>::empty(), 16) == 0);
        assert(hex_of(n).last() == hex_digit(n));
        assert(digits_value(hex_of(n), 16) == digits_value(hex_of(n).drop_last(), 16) * 16
            + digit_value(hex_of(n).last(), 16).unwrap_or(0));
    } else {
        lemma_hex_of_value(n / 16);
        lemma_hex_digit_value(n % 16);
        let p = hex_of(n / 16);
        lemma_digits_value_push(p, 16, hex_digit(n % 16));
        assert(n == (n / 16) * 16 + n % 16) by (nonlinear_arith);
        assert(hex_of(n) == p.push(hex_digit(n % 16)));
        assert forall|i: int| 0 <= i < hex_of(n).len() implies (#[trigger] digit_value(
            hex_of(n)[i],
            16,
        )) is Some by {
            if i < p.len() {
                assert(hex_of(n)[i] == p[i]);
            }
        }
    }
}

proof fn lemma_hex_digit_value(d: nat)
    requires
        d < 16,
    ensures
        digit_value(hex_digit(d), 16) == Some(d),
        hex_digit(d) != '+' && hex_digit(d) != '-',
        hex_digit(d) == '0' <==> d == 0,
{
    if d < 10 {
        assert((('0' as int + d) as char) as int == '0' as int + d);
    } else {
        assert((('a' as int + d - 10) as char) as int == 'a' as int + d - 10);
    }
}

proof fn lemma_zeros_prefix(k: nat, t: Seq<char>)
    requires
        all_digits(t, 16),
    ensures
        all_digits(zeros(k) + t, 16),
        digits_value(zeros(k) + t, 16) == digits_value(t, 16),
    decreases t.len(), k,
{
    let u = zeros(k) + t;
    assert forall|i: int| 0 <= i < u.len() implies (#[trigger] digit_value(u[i], 16)) is Some by {
        if i >= k {
            assert(u[i] == t[i - k]);
        }
    }
    if t.len() > 0 {
        lemma_zeros_prefix(k, t.drop_last());
        assert(u.drop_last() =~= zeros(k) + t.drop_last());
    } else if k > 0 {
        lemma_zeros_prefix((k - 1) as nat, t);
        assert(u.drop_last() =~= zeros((k - 1) as nat) + t);
    }
}

/// The address that the debugger prints with `{:#x}` (and with zero padding,
/// as `{:#018x}` writes it, or with no prefix, as `{:x}` does) reads back as
/// the same address.
pub proof fn lemma_address_round_trip(n: usize, k: nat)
    ensures
        address_spec(seq!['0', 'x'] + zeros(k) + hex_of(n as nat)) == Some(n),
        address_spec(hex_of(n as nat)) == Some(n),
{
    lemma_hex_of_value(n as nat);
    let h = hex_of(n as nat);
    let d = zeros(k) + h;
    lemma_zeros_prefix(k, h);
    let s = seq!['0', 'x'] + d;
    assert(s =~= seq!['0', 'x'] + zeros(k) + h);
    assert(s.subrange(2, s.len() as int) =~= d);
    assert(d[0] != '+' && d[0] != '-') by {
        if k > 0 {
            assert(d[0] == '0');
        } else {
            assert(d[0] == h[0]);
        }
    }
    assert(!(d =~= seq!['+']) && !(d =~= seq!['-'])) by {
        if d =~= seq!['+'] {
            assert(d[0] == '+');
        }
        if d =~= seq!['-'] {
            assert(d[0] == '-');
        }
    }
    assert(!(h =~= seq!['+']) && !(h =~= seq!['-'])) by {
        if h =~= seq!['+'] {
            assert(h[0] == '+');
        }
        if h =~= seq!['-'] {
            assert(h[0] == '-');
        }
    }
    assert(!has_hex_prefix(h)) by {
        if h.len() >= 2 && h[0] == '0' {
            assert(n as nat >= 16);
            assert(h == hex_of((n / 16) as nat).push(hex_digit((n % 16) as nat)));
            lemma_leading_digit_nonzero((n / 16) as nat);
        }
    }
}

proof fn lemma_leading_digit_nonzero(n: nat)
    requires
        n >= 1,
    ensures
        hex_of(n)[0] != '0',
    decreases n,
{
    if n >= 16 {
        lemma_leading_digit_nonzero(n / 16);
        lemma_hex_of_value(n / 16);
        assert(hex_of(n)[0] == hex_of(n / 16)[0]);
    }
}

/// Where a `break` command asks for a breakpoint.
#[derive(Debug, Clone, Copy, PartialEq, Eq, Structural)]
pub enum BreakpointTarget {
    /// `*ADDR` with a valid hexadecimal address.
    Address(usize),
    /// `*` followed by something that is no address.
    InvalidAddress,
    /// A decimal source line number.
    Line(usize),
    /// Anything else: taken as a function name.
    Function,
}

/// How `loc` names a breakpoint location.
pub open spec fn breakpoint_target_spec(loc: Seq<char>) -> BreakpointTarget {
    if loc.len() > 0 && loc[0] == '*' {
        match address_spec(loc.skip(1)) {
            Some(a) => BreakpointTarget::Address(a),
            None => BreakpointTarget::InvalidAddress,
        }
    } else {
        match from_str_radix_spec(loc, 10) {
            Some(line) => BreakpointTarget::Line(line),
            None => BreakpointTarget::Function,
        }
    }
}

/// Only a leading `*` makes an address: a location without it is a line
/// number or a function name, never an address; one with it is an address
/// or an invalid address, never a line or a function.  A line number is
/// written with decimal digits only (after an optional `+`), so a location
/// without `*` that holds an ASCII letter names a function.
pub proof fn lemma_breakpoint_target_kinds(loc: Seq<char>)
    ensures
        !(loc.len() > 0 && loc[0] == '*') ==> {
            let t = breakpoint_target_spec(loc);
            t is Line || t is Function
        },
        loc.len() > 0 && loc[0] == '*' ==> {
            let t = breakpoint_target_spec(loc);
            t is Address || t is InvalidAddress
        },
        breakpoint_target_spec(loc) is Line ==> forall|i: int|
            0 <= i < loc.len() ==> ('0' <= #[trigger] loc[i] && loc[i] <= '9') || (i == 0
                && loc[i] == '+'),
        !(loc.len() > 0 && loc[0] == '*') && (exists|i: int|
            0 <= i < loc.len() && (('a' <= #[trigger] loc[i] && loc[i] <= 'z') || ('A' <= loc[i]
                && loc[i] <= 'Z'))) ==> breakpoint_target_spec(loc) is Function,
{
    if breakpoint_target_spec(loc) is Line {
        assert(!(loc.len() > 0 && loc[0] == '*'));
        let d = if loc[0] == '+' {
            loc.drop_first()
        } else {
            loc
        };
        assert(all_digits(d, 10));
        assert forall|i: int| 0 <= i < loc.len() implies ('0' <= #[trigger] loc[i] && loc[i]
            <= '9') || (i == 0 && loc[i] == '+') by {
            if loc[0] == '+' {
                if i > 0 {
                    assert(d[i - 1] == loc[i]);
                    assert(digit_value(d[i - 1], 10) is Some);
                }
            } else {
                assert(digit_value(d[i], 10) is Some);
            }
        }
    }
    if !(loc.len() > 0 && loc[0] == '*') && (exists|i: int|
        0 <= i < loc.len() && (('a' <= #[trigger] loc[i] && loc[i] <= 'z') || ('A' <= loc[i]
            && loc[i] <= 'Z'))) {
        let i = choose|i: int|
            0 <= i < loc.len() && (('a' <= #[trigger] loc[i] && loc[i] <= 'z') || ('A' <= loc[i]
                && loc[i] <= 'Z'));
        assert(digit_value(loc[i], 10) is None);
        if loc.len() > 0 && loc[0] == '+' {
            assert(loc.drop_first()[i - 1] == loc[i]);
        }
    }
}

/// Classifies the argument of a `break` command.
pub fn parse_breakpoint_target(loc: &str) -> (t: BreakpointTarget)
    ensures
        t == breakpoint_target_spec(loc@),
{
    let n = loc.unicode_len();
    if n > 0 && loc.get_char(0) == '*' {
        let rest = loc.substring_char(1, n);
        assert(rest@ =~= loc@.skip(1));
        match parse_address(rest) {
            Some(a) => BreakpointTarget::Address(a),
            None => BreakpointTarget::InvalidAddress,
        }
    } else {
        assert(loc@.subrange(0, loc@.len() as int) =~= loc@);
        match parse_radix(loc, 0, 10) {
            Some(line) => BreakpointTarget::Line(line),
            None => BreakpointTarget::Function,
        }
    }
}

} // verus!
