//! Character-level helpers: decimal and hexadecimal rendering, string
//! equality, and literal `%IP%` substitution in command templates.

use vstd::prelude::*;
use vstd::string::StrSliceExecFns;
use vstd::string::StringExecFns;

verus! {

/// The decimal digit character for `d` (meaningful for `0 <= d <= 9`).
pub open spec fn digit_char(d: int) -> char {
    if d == 0 { '0' }
    else if d == 1 { '1' }
    else if d == 2 { '2' }
    else if d == 3 { '3' }
    else if d == 4 { '4' }
    else if d == 5 { '5' }
    else if d == 6 { '6' }
    else if d == 7 { '7' }
    else if d == 8 { '8' }
    else { '9' }
}

/// The decimal rendering of `n`, most significant digit first, no leading
/// zeros (a single `'0'` for zero itself).
pub open spec fn dec_digits(n: int) -> Seq<char>
    decreases n,
{
    if n < 10 {
        seq![digit_char(n)]
    } else {
        dec_digits(n / 10).push(digit_char(n % 10))
    }
}

/// The lowercase hexadecimal digit character for `d` (meaningful for
/// `0 <= d <= 15`).
pub open spec fn hex_digit_char(d: int) -> char {
    if d < 10 { digit_char(d) }
    else if d == 10 { 'a' }
    else if d == 11 { 'b' }
    else if d == 12 { 'c' }
    else if d == 13 { 'd' }
    else if d == 14 { 'e' }
    else { 'f' }
}

/// The lowercase hexadecimal rendering of `n`, no leading zeros.
pub open spec fn hex_digits(n: int) -> Seq<char>
    decreases n,
{
    if n < 16 {
        seq![hex_digit_char(n)]
    } else {
        hex_digits(n / 16).push(hex_digit_char(n % 16))
    }
}

/// Relies on `String::push`: appends one character to the string.
#[verifier::external_body]
pub fn push_char(s: &mut String, c: char)
    ensures
        final(s)@ == old(s)@.push(c),
{
    s.push(c);
}

fn decimal_digit(d: u16) -> (c: char)
    requires
        d < 10,
    ensures
        c == digit_char(d as int),
{
    match d {
        0 => '0',
        1 => '1',
        2 => '2',
        3 => '3',
        4 => '4',
        5 => '5',
        6 => '6',
        7 => '7',
        8 => '8',
        _ => '9',
    }
}

fn hexadecimal_digit(d: u16) -> (c: char)
    requires
        d < 16,
    ensures
        c == hex_digit_char(d as int),
{
    match d {
        0 => '0',
        1 => '1',
        2 => '2',
        3 => '3',
        4 => '4',
        5 => '5',
        6 => '6',
        7 => '7',
        8 => '8',
        9 => '9',
        10 => 'a',
        11 => 'b',
        12 => 'c',
        13 => 'd',
        14 => 'e',
        _ => 'f',
    }
}

/// Appends the decimal rendering of `n` to `out`.
pub fn push_decimal(out: &mut String, n: u16)
    ensures
        final(out)@ == old(out)@ + dec_digits(n as int),
    decreases n,
{
    if n >= 10 {
        push_decimal(out, n / 10);
    }
    push_char(out, decimal_digit(n % 10));
    proof {
        assert(out@ =~= old(out)@ + dec_digits(n as int));
    }
}

/// Appends the lowercase hexadecimal rendering of `n` to `out`.
pub fn push_hexadecimal(out: &mut String, n: u16)
    ensures
        final(out)@ == old(out)@ + hex_digits(n as int),
    decreases n,
{
    if n >= 16 {
        push_hexadecimal(out, n / 16);
    }
    push_char(out, hexadecimal_digit(n % 16));
    proof {
        assert(out@ =~= old(out)@ + hex_digits(n as int));
    }
}

/// True when the two string slices hold the same characters.
pub fn str_eq(a: &str, b: &str) -> (r: bool)
    ensures
        r == (a@ == b@),
{
    let n: usize = a.unicode_len();
    if n != b.unicode_len() {
        return false;
    }
    let mut i: usize = 0;
    while i < n
        invariant
            a@.len() == n,
            b@.len() == n,
            i <= n,
            forall|j: int| 0 <= j < i ==> a@[j] == b@[j],
        decreases n - i,
    {
        if a.get_char(i) != b.get_char(i) {
            return false;
        }
        i = i + 1;
    }
    proof {
        assert(a@ =~= b@);
    }
    true
}

/// The dotted-quad rendering of an IPv4 address.
pub open spec fn ipv4_str(a: u8, b: u8, c: u8, d: u8) -> Seq<char> {
    dec_digits(a as int) + seq!['.'] + dec_digits(b as int) + seq!['.'] + dec_digits(c as int)
        + seq!['.'] + dec_digits(d as int)
}

/// The colon-hex rendering of an IPv6 address from its eight groups,
/// without zero compression or padding.
pub open spec fn ipv6_str(
    g0: u16,
    g1: u16,
    g2: u16,
    g3: u16,
    g4: u16,
    g5: u16,
    g6: u16,
    g7: u16,
) -> Seq<char> {
    hex_digits(g0 as int) + seq![':'] + hex_digits(g1 as int) + seq![':'] + hex_digits(g2 as int)
        + seq![':'] + hex_digits(g3 as int) + seq![':'] + hex_digits(g4 as int) + seq![':']
        + hex_digits(g5 as int) + seq![':'] + hex_digits(g6 as int) + seq![':'] + hex_digits(
        g7 as int,
    )
}

/// Renders an IPv4 address as a dotted quad.
pub fn format_ipv4(a: u8, b: u8, c: u8, d: u8) -> (r: String)
    ensures
        r@ == ipv4_str(a, b, c, d),
{
    let mut out: String = String::new();
    push_decimal(&mut out, a as u16);
    push_char(&mut out, '.');
    push_decimal(&mut out, b as u16);
    push_char(&mut out, '.');
    push_decimal(&mut out, c as u16);
    push_char(&mut out, '.');
    push_decimal(&mut out, d as u16);
    proof {
        assert(out@ =~= ipv4_str(a, b, c, d));
    }
    out
}

/// Renders an IPv6 address from its eight groups as colon-separated
/// lowercase hexadecimal.
pub fn format_ipv6(
    g0: u16,
    g1: u16,
    g2: u16,
    g3: u16,
    g4: u16,
    g5: u16,
    g6: u16,
    g7: u16,
) -> (r: String)
    ensures
        r@ == ipv6_str(g0, g1, g2, g3, g4, g5, g6, g7),
{
    let mut out: String = String::new();
    push_hexadecimal(&mut out, g0);
    push_char(&mut out, ':');
    push_hexadecimal(&mut out, g1);
    push_char(&mut out, ':');
    push_hexadecimal(&mut out, g2);
    push_char(&mut out, ':');
    push_hexadecimal(&mut out, g3);
    push_char(&mut out, ':');
    push_hexadecimal(&mut out, g4);
    push_char(&mut out, ':');
    push_hexadecimal(&mut out, g5);
    push_char(&mut out, ':');
    push_hexadecimal(&mut out, g6);
    push_char(&mut out, ':');
    push_hexadecimal(&mut out, g7);
    proof {
        assert(out@ =~= ipv6_str(g0, g1, g2, g3, g4, g5, g6, g7));
    }
    out
}

/// The literal placeholder that command templates use for the client address.
pub open spec fn ip_marker() -> Seq<char> {
    seq!['%', 'I', 'P', '%']
}

/// The command text with every occurrence of `%IP%` replaced by `ip`,
/// scanning left to right without rescanning replaced text.
pub open spec fn resolve_cmd(t: Seq<char>, ip: Seq<char>) -> Seq<char>
    decreases t.len(),
{
    if t.len() == 0 {
        Seq::empty()
    } else if t.len() >= 4 && t.subrange(0, 4) == ip_marker() {
        ip + resolve_cmd(t.subrange(4, t.len() as int), ip)
    } else {
        seq![t[0]] + resolve_cmd(t.subrange(1, t.len() as int), ip)
    }
}

/// Substitutes `ip` for each literal `%IP%` in the template.
pub fn resolve_template(t: &str, ip: &str) -> (r: String)
    ensures
        r@ == resolve_cmd(t@, ip@),
{
    let n: usize = t.unicode_len();
    let mut out: String = String::new();
    let mut i: usize = 0;
    proof {
        assert(t@.subrange(0, n as int) =~= t@);
        assert(Seq::<char>::empty() + resolve_cmd(t@, ip@) =~= resolve_cmd(t@, ip@));
    }
    while i < n
        invariant
            t@.len() == n,
            i <= n,
            out@ + resolve_cmd(t@.subrange(i as int, n as int), ip@) == resolve_cmd(t@, ip@),
        decreases n - i,
    {
        let ghost rest = t@.subrange(i as int, n as int);
        if n - i >= 4 && t.get_char(i) == '%' && t.get_char(i + 1) == 'I' && t.get_char(i + 2) == 'P'
            && t.get_char(i + 3) == '%' {
            out.append(ip);
            proof {
                assert(rest.subrange(0, 4) =~= ip_marker());
                assert(rest.subrange(4, rest.len() as int) =~= t@.subrange(i + 4, n as int));
                assert(out@ + resolve_cmd(t@.subrange(i + 4, n as int), ip@) =~= resolve_cmd(t@, ip@));
            }
            i = i + 4;
        } else {
            let c: char = t.get_char(i);
            push_char(&mut out, c);
            proof {
                if rest.len() >= 4 && rest.subrange(0, 4) == ip_marker() {
                    assert(rest.subrange(0, 4)[0] == t@[i as int]);
                    assert(rest.subrange(0, 4)[1] == t@[i + 1]);
                    assert(rest.subrange(0, 4)[2] == t@[i + 2]);
                    assert(rest.subrange(0, 4)[3] == t@[i + 3]);
                    assert(false);
                }
                assert(rest.subrange(1, rest.len() as int) =~= t@.subrange(i + 1, n as int));
                assert(out@ + resolve_cmd(t@.subrange(i + 1, n as int), ip@) =~= resolve_cmd(t@, ip@));
            }
            i = i + 1;
        }
    }
    proof {
        assert(t@.subrange(n as int, n as int) =~= Seq::<char>::empty());
        assert(out@ =~= resolve_cmd(t@, ip@));
    }
    out
}

} // verus!
