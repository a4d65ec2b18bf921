//! Executable recognisers for the productions of the grammar, working on positions in a byte
//! slice. Each one computes exactly its production, and what it accepts is ASCII.
use vstd::prelude::*;

use crate::grammar::{
    AMPERSAND, APOSTROPHE, AT, BANG, CharClass, COLON, COMMA, DOLLAR, DOT, EQUALS, HYPHEN, LPAREN,
    PERCENT, PLUS, QUESTION, RPAREN, SEMICOLON, SLASH, STAR, TILDE, UNDERSCORE, ascii,
    dec_octet_spec, dec_value, digit_run_end, dot_octet_spec, elision_at, h16_spec,
    hex_digit_value, hex_run_end, hex_value, in_class, ipv4_spec, ipv6_spec, is_alpha, is_digit,
    is_hexdig, is_sub_delim, is_unreserved, path_abempty_end, path_absolute_spec,
    path_noscheme_spec, path_rootless_spec, pct_encoded_spec, port_spec, pos_result, run1_spec,
    run_end, scheme_spec, unit_len, v6_after_elision, v6_pieces,
};

verus! {

broadcast use vstd::slice::axiom_spec_len;

/// A production's outcome lies in the input, and what it accepted is ASCII.
pub open spec fn placed(s: Seq<u8>, i: int, r: Result<usize, usize>) -> bool {
    match r {
        Ok(e) => i <= e <= s.len() && ascii(s, i, e as int),
        Err(p) => p <= s.len(),
    }
}

pub fn is_alpha_byte(b: u8) -> (r: bool)
    ensures
        r == is_alpha(b),
{
    (0x41 <= b && b <= 0x5a) || (0x61 <= b && b <= 0x7a)
}

pub fn is_digit_byte(b: u8) -> (r: bool)
    ensures
        r == is_digit(b),
{
    0x30 <= b && b <= 0x39
}

pub fn is_hexdig_byte(b: u8) -> (r: bool)
    ensures
        r == is_hexdig(b),
{
    is_digit_byte(b) || (0x41 <= b && b <= 0x46) || (0x61 <= b && b <= 0x66)
}

/// The value of a hexadecimal digit.
pub fn hex_digit(b: u8) -> (r: u8)
    requires
        is_hexdig(b),
    ensures
        r as nat == hex_digit_value(b),
        r < 16,
{
    if is_digit_byte(b) {
        b - 0x30
    } else if 0x41 <= b && b <= 0x46 {
        b - 0x41 + 10
    } else {
        b - 0x61 + 10
    }
}

fn is_unreserved_byte(b: u8) -> (r: bool)
    ensures
        r == is_unreserved(b),
{
    is_alpha_byte(b) || is_digit_byte(b) || b == HYPHEN || b == DOT || b == UNDERSCORE || b == TILDE
}

fn is_sub_delim_byte(b: u8) -> (r: bool)
    ensures
        r == is_sub_delim(b),
{
    b == BANG || b == DOLLAR || b == AMPERSAND || b == APOSTROPHE || b == LPAREN || b == RPAREN
        || b == STAR || b == PLUS || b == COMMA || b == SEMICOLON || b == EQUALS
}

fn in_class_byte(c: CharClass, b: u8) -> (r: bool)
    ensures
        r == in_class(c, b),
{
    match c {
        CharClass::Scheme => is_alpha_byte(b) || is_digit_byte(b) || b == PLUS || b == HYPHEN
            || b == DOT,
        CharClass::UserInfo => is_unreserved_byte(b) || is_sub_delim_byte(b) || b == COLON,
        CharClass::RegName => is_unreserved_byte(b) || is_sub_delim_byte(b),
        CharClass::PChar => is_unreserved_byte(b) || is_sub_delim_byte(b) || b == COLON || b == AT,
        CharClass::NoColon => is_unreserved_byte(b) || is_sub_delim_byte(b) || b == AT,
        CharClass::QueryChar => is_unreserved_byte(b) || is_sub_delim_byte(b) || b == COLON || b
            == AT || b == SLASH || b == QUESTION,
    }
}

/// Whether byte `b` stands at position `i`.
pub fn byte_at(s: &[u8], i: usize, b: u8) -> (r: bool)
    ensures
        r == (i < s@.len() && s@[i as int] == b),
        s@.len() <= usize::MAX,
{
    i < s.len() && s[i] == b
}

/// `pct-encoded` at `i`.
pub fn pct_encoded_at(s: &[u8], i: usize) -> (r: Result<usize, usize>)
    requires
        i <= s@.len(),
    ensures
        pos_result(r) == pct_encoded_spec(s@, i as int),
        placed(s@, i as int, r),
{
    if !byte_at(s, i, PERCENT) {
        Err(i)
    } else if !(i + 1 < s.len() && is_hexdig_byte(s[i + 1])) {
        Err(i + 1)
    } else if !(i + 2 < s.len() && is_hexdig_byte(s[i + 2])) {
        Err(i + 2)
    } else {
        Ok(i + 3)
    }
}

fn unit_len_at(c: CharClass, s: &[u8], i: usize) -> (r: usize)
    requires
        i <= s@.len(),
    ensures
        r as int == unit_len(c, s@, i as int),
        i + r <= s@.len(),
        ascii(s@, i as int, i + r),
        s@.len() <= usize::MAX,
{
    if i < s.len() && in_class_byte(c, s[i]) {
        1
    } else if c != CharClass::Scheme && s.len() - i >= 3 && s[i] == PERCENT && is_hexdig_byte(
        s[i + 1],
    ) && is_hexdig_byte(s[i + 2]) {
        3
    } else {
        0
    }
}

/// The end of the longest run of units of class `c` from `i`.
pub fn run_end_at(c: CharClass, s: &[u8], i: usize) -> (r: usize)
    requires
        i <= s@.len(),
    ensures
        r as int == run_end(c, s@, i as int),
        i <= r <= s@.len(),
        ascii(s@, i as int, r as int),
{
    let mut pos = i;
    loop
        invariant
            i <= pos <= s@.len(),
            run_end(c, s@, i as int) == run_end(c, s@, pos as int),
            ascii(s@, i as int, pos as int),
        decreases s@.len() - pos,
    {
        let u = unit_len_at(c, s, pos);
        if u == 0 {
            return pos;
        }
        pos = pos + u;
    }
}

/// One or more units of class `c` from `i`.
pub fn run1_at(c: CharClass, s: &[u8], i: usize) -> (r: Result<usize, usize>)
    requires
        i <= s@.len(),
    ensures
        pos_result(r) == run1_spec(c, s@, i as int),
        placed(s@, i as int, r),
{
    let e = run_end_at(c, s, i);
    if e > i {
        Ok(e)
    } else {
        Err(i)
    }
}

proof fn lemma_scaled_grows(v: nat, m: nat, d: nat)
    requires
        m >= 1,
    ensures
        v * m + d >= v,
{
    assert(v * m >= v) by (nonlinear_arith)
        requires
            m >= 1,
    ;
}

/// The run of decimal digits from `i`, and whether the number it writes is at most `limit`.
pub fn dec_digits_at(s: &[u8], i: usize, limit: u32) -> (r: (usize, bool))
    requires
        i <= s@.len(),
        limit <= 65535,
    ensures
        r.0 as int == digit_run_end(s@, i as int),
        i <= r.0 <= s@.len(),
        r.1 == (dec_value(s@, i as int, r.0 as int) <= limit),
        ascii(s@, i as int, r.0 as int),
{
    let mut pos = i;
    let mut acc: u32 = 0;
    loop
        invariant
            i <= pos <= s@.len(),
            digit_run_end(s@, i as int) == digit_run_end(s@, pos as int),
            ascii(s@, i as int, pos as int),
            limit <= 65535,
            acc <= limit ==> acc as nat == dec_value(s@, i as int, pos as int),
            acc > limit ==> dec_value(s@, i as int, pos as int) > limit,
            acc <= 655359,
        decreases s@.len() - pos,
    {
        if !(pos < s.len() && is_digit_byte(s[pos])) {
            return (pos, acc <= limit);
        }
        let d = (s[pos] - 0x30) as u32;
        proof {
            lemma_scaled_grows(dec_value(s@, i as int, pos as int), 10, d as nat);
        }
        if acc <= limit {
            acc = acc * 10 + d;
        }
        pos = pos + 1;
    }
}

/// The run of hexadecimal digits from `i`, and whether the number it writes fits in 16 bits.
pub fn hex_digits_at(s: &[u8], i: usize) -> (r: (usize, bool))
    requires
        i <= s@.len(),
    ensures
        r.0 as int == hex_run_end(s@, i as int),
        i <= r.0 <= s@.len(),
        r.1 == (hex_value(s@, i as int, r.0 as int) <= 0xffff),
        ascii(s@, i as int, r.0 as int),
{
    let mut pos = i;
    let mut acc: u32 = 0;
    loop
        invariant
            i <= pos <= s@.len(),
            hex_run_end(s@, i as int) == hex_run_end(s@, pos as int),
            ascii(s@, i as int, pos as int),
            acc <= 0xffff ==> acc as nat == hex_value(s@, i as int, pos as int),
            acc > 0xffff ==> hex_value(s@, i as int, pos as int) > 0xffff,
            acc <= 0xfffff,
        decreases s@.len() - pos,
    {
        if !(pos < s.len() && is_hexdig_byte(s[pos])) {
            return (pos, acc <= 0xffff);
        }
        let d = hex_digit(s[pos]) as u32;
        proof {
            lemma_scaled_grows(hex_value(s@, i as int, pos as int), 16, d as nat);
        }
        if acc <= 0xffff {
            acc = acc * 16 + d;
        }
        pos = pos + 1;
    }
}

/// `scheme` from `i`.
pub fn scheme_at(s: &[u8], i: usize) -> (r: Result<usize, usize>)
    requires
        i <= s@.len(),
    ensures
        pos_result(r) == scheme_spec(s@, i as int),
        placed(s@, i as int, r),
{
    if i < s.len() && is_alpha_byte(s[i]) {
        Ok(run_end_at(CharClass::Scheme, s, i + 1))
    } else {
        Err(i)
    }
}

/// `port` from `i`.
pub fn port_at(s: &[u8], i: usize) -> (r: Result<usize, usize>)
    requires
        i <= s@.len(),
    ensures
        pos_result(r) == port_spec(s@, i as int),
        placed(s@, i as int, r),
{
    let (e, fits) = dec_digits_at(s, i, 65535);
    if e > i && !fits {
        Err(i)
    } else {
        Ok(e)
    }
}

/// `dec-octet` from `i`.
pub fn dec_octet_at(s: &[u8], i: usize) -> (r: Result<usize, usize>)
    requires
        i <= s@.len(),
    ensures
        pos_result(r) == dec_octet_spec(s@, i as int),
        placed(s@, i as int, r),
{
    let (e, fits) = dec_digits_at(s, i, 255);
    if e == i || !fits {
        Err(i)
    } else {
        Ok(e)
    }
}

fn dot_octet_at(s: &[u8], i: usize) -> (r: Result<usize, usize>)
    requires
        i <= s@.len(),
    ensures
        pos_result(r) == dot_octet_spec(s@, i as int),
        placed(s@, i as int, r),
{
    if byte_at(s, i, DOT) {
        dec_octet_at(s, i + 1)
    } else {
        Err(i)
    }
}

/// `IPv4address` from `i`.
pub fn ipv4_at(s: &[u8], i: usize) -> (r: Result<usize, usize>)
    requires
        i <= s@.len(),
    ensures
        pos_result(r) == ipv4_spec(s@, i as int),
        placed(s@, i as int, r),
{
    let e1 = match dec_octet_at(s, i) {
        Ok(e) => e,
        Err(p) => return Err(p),
    };
    let e2 = match dot_octet_at(s, e1) {
        Ok(e) => e,
        Err(p) => return Err(p),
    };
    let e3 = match dot_octet_at(s, e2) {
        Ok(e) => e,
        Err(p) => return Err(p),
    };
    dot_octet_at(s, e3)
}

/// `h16` from `i`.
fn h16_at(s: &[u8], i: usize) -> (r: Result<usize, usize>)
    requires
        i <= s@.len(),
    ensures
        pos_result(r) == h16_spec(s@, i as int),
        placed(s@, i as int, r),
{
    let (e, fits) = hex_digits_at(s, i);
    if e == i || !fits {
        Err(i)
    } else {
        Ok(e)
    }
}

fn elision_at_exec(s: &[u8], p: usize) -> (r: bool)
    ensures
        r == elision_at(s@, p as int),
        s@.len() <= usize::MAX,
{
    byte_at(s, p, COLON) && p < s.len() && byte_at(s, p + 1, COLON)
}

/// The pieces of an IPv6 address after `"::"`.
fn v6_after_elision_at(s: &[u8], p: usize, room: usize) -> (r: usize)
    requires
        p <= s@.len(),
        room <= 7,
    ensures
        r as int == v6_after_elision(s@, p as int, room as nat),
        p <= r <= s@.len(),
        ascii(s@, p as int, r as int),
    decreases room,
{
    if room >= 2 {
        if let Ok(e) = ipv4_at(s, p) {
            return e;
        }
    }
    if room >= 1 {
        if let Ok(e) = h16_at(s, p) {
            if room >= 2 && byte_at(s, e, COLON) {
                let r = v6_after_elision_at(s, e + 1, room - 1);
                if r > e + 1 {
                    return r;
                }
            }
            return e;
        }
    }
    p
}

/// The pieces of an IPv6 address from `p`, `n` pieces having come before.
fn v6_pieces_at(s: &[u8], p: usize, n: usize) -> (r: Result<usize, usize>)
    requires
        p <= s@.len(),
        n <= 8,
    ensures
        pos_result(r) == v6_pieces(s@, p as int, n as nat),
        placed(s@, p as int, r),
    decreases 8 - n,
{
    if n >= 8 {
        return Err(p);
    }
    if n == 0 && elision_at_exec(s, p) {
        return Ok(v6_after_elision_at(s, p + 2, 7));
    }
    if n == 6 {
        if let Ok(e) = ipv4_at(s, p) {
            return Ok(e);
        }
    }
    match h16_at(s, p) {
        Ok(e) => if n + 1 == 8 {
            Ok(e)
        } else if elision_at_exec(s, e) {
            Ok(v6_after_elision_at(s, e + 2, 6 - n))
        } else if byte_at(s, e, COLON) {
            v6_pieces_at(s, e + 1, n + 1)
        } else {
            Err(e)
        },
        Err(q) => Err(q),
    }
}

/// `IPv6address` from `i`.
pub fn ipv6_at(s: &[u8], i: usize) -> (r: Result<usize, usize>)
    requires
        i <= s@.len(),
    ensures
        pos_result(r) == ipv6_spec(s@, i as int),
        placed(s@, i as int, r),
{
    v6_pieces_at(s, i, 0)
}

/// `path-abempty` from `i`.
pub fn path_abempty_at(s: &[u8], i: usize) -> (r: usize)
    requires
        i <= s@.len(),
    ensures
        r as int == path_abempty_end(s@, i as int),
        i <= r <= s@.len(),
        ascii(s@, i as int, r as int),
{
    let mut pos = i;
    loop
        invariant
            i <= pos <= s@.len(),
            path_abempty_end(s@, i as int) == path_abempty_end(s@, pos as int),
            ascii(s@, i as int, pos as int),
        decreases s@.len() - pos,
    {
        if !byte_at(s, pos, SLASH) {
            return pos;
        }
        pos = run_end_at(CharClass::PChar, s, pos + 1);
    }
}

/// `path-rootless` from `i`.
pub fn path_rootless_at(s: &[u8], i: usize) -> (r: Result<usize, usize>)
    requires
        i <= s@.len(),
    ensures
        pos_result(r) == path_rootless_spec(s@, i as int),
        placed(s@, i as int, r),
{
    match run1_at(CharClass::PChar, s, i) {
        Ok(e) => Ok(path_abempty_at(s, e)),
        Err(p) => Err(p),
    }
}

/// `path-noscheme` from `i`.
pub fn path_noscheme_at(s: &[u8], i: usize) -> (r: Result<usize, usize>)
    requires
        i <= s@.len(),
    ensures
        pos_result(r) == path_noscheme_spec(s@, i as int),
        placed(s@, i as int, r),
{
    match run1_at(CharClass::NoColon, s, i) {
        Ok(e) => Ok(path_abempty_at(s, e)),
        Err(p) => Err(p),
    }
}

/// `path-absolute` from `i`.
pub fn path_absolute_at(s: &[u8], i: usize) -> (r: Result<usize, usize>)
    requires
        i <= s@.len(),
    ensures
        pos_result(r) == path_absolute_spec(s@, i as int),
        placed(s@, i as int, r),
{
    if byte_at(s, i, SLASH) {
        match path_rootless_at(s, i + 1) {
            Ok(e) => Ok(e),
            Err(_) => Ok(i + 1),
        }
    } else {
        Err(i)
    }
}

} // verus!
