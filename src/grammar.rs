//! The URI grammar of RFC 3986, stated over byte sequences.
//!
//! Every production is a function of the input `s` and a start position `i`. A production that
//! matches gives `Ok(end)`, the position just past what it consumed; one that does not gives
//! `Err(pos)`, the position of the remainder it could not match. Repetitions are greedy and
//! never backtrack; alternatives are tried in order and the first match wins.
use vstd::prelude::*;

verus! {

pub const BANG: u8 = 0x21;
pub const HASH: u8 = 0x23;
pub const DOLLAR: u8 = 0x24;
pub const PERCENT: u8 = 0x25;
pub const AMPERSAND: u8 = 0x26;
pub const APOSTROPHE: u8 = 0x27;
pub const LPAREN: u8 = 0x28;
pub const RPAREN: u8 = 0x29;
pub const STAR: u8 = 0x2a;
pub const PLUS: u8 = 0x2b;
pub const COMMA: u8 = 0x2c;
pub const HYPHEN: u8 = 0x2d;
pub const DOT: u8 = 0x2e;
pub const SLASH: u8 = 0x2f;
pub const COLON: u8 = 0x3a;
pub const SEMICOLON: u8 = 0x3b;
pub const EQUALS: u8 = 0x3d;
pub const QUESTION: u8 = 0x3f;
pub const AT: u8 = 0x40;
pub const LBRACKET: u8 = 0x5b;
pub const RBRACKET: u8 = 0x5d;
pub const UNDERSCORE: u8 = 0x5f;
pub const TILDE: u8 = 0x7e;

/// `ALPHA`
pub open spec fn is_alpha(b: u8) -> bool {
    (0x41 <= b <= 0x5a) || (0x61 <= b <= 0x7a)
}

/// `DIGIT`
pub open spec fn is_digit(b: u8) -> bool {
    0x30 <= b <= 0x39
}

/// `HEXDIG`, in either case.
pub open spec fn is_hexdig(b: u8) -> bool {
    is_digit(b) || (0x41 <= b <= 0x46) || (0x61 <= b <= 0x66)
}

/// `unreserved = ALPHA / DIGIT / "-" / "." / "_" / "~"`
pub open spec fn is_unreserved(b: u8) -> bool {
    is_alpha(b) || is_digit(b) || b == HYPHEN || b == DOT || b == UNDERSCORE || b == TILDE
}

/// `sub-delims = "!" / "$" / "&" / "'" / "(" / ")" / "*" / "+" / "," / ";" / "="`
pub open spec fn is_sub_delim(b: u8) -> bool {
    b == BANG || b == DOLLAR || b == AMPERSAND || b == APOSTROPHE || b == LPAREN || b == RPAREN || b == STAR
        || b == PLUS || b == COMMA || b == SEMICOLON || b == EQUALS
}

/// The value of a hexadecimal digit.
pub open spec fn hex_digit_value(b: u8) -> nat {
    if is_digit(b) {
        (b - 0x30) as nat
    } else if 0x41 <= b <= 0x46 {
        (b - 0x41 + 10) as nat
    } else {
        (b - 0x61 + 10) as nat
    }
}

/// The single-byte units that a repetition accepts; most of them also accept a
/// percent-encoded triplet.
#[derive(Clone, Copy, PartialEq, Eq, Structural, Debug)]
pub enum CharClass {
    /// `ALPHA / DIGIT / "+" / "-" / "."`, after the first letter of a scheme
    Scheme,
    /// `unreserved / pct-encoded / sub-delims / ":"`
    UserInfo,
    /// `unreserved / pct-encoded / sub-delims`
    RegName,
    /// `pchar = unreserved / pct-encoded / sub-delims / ":" / "@"`
    PChar,
    /// `unreserved / pct-encoded / sub-delims / "@"`
    NoColon,
    /// `pchar / "/" / "?"`
    QueryChar,
}

pub open spec fn in_class(c: CharClass, b: u8) -> bool {
    match c {
        CharClass::Scheme => is_alpha(b) || is_digit(b) || b == PLUS || b == HYPHEN || b == DOT,
        CharClass::UserInfo => is_unreserved(b) || is_sub_delim(b) || b == COLON,
        CharClass::RegName => is_unreserved(b) || is_sub_delim(b),
        CharClass::PChar => is_unreserved(b) || is_sub_delim(b) || b == COLON || b == AT,
        CharClass::NoColon => is_unreserved(b) || is_sub_delim(b) || b == AT,
        CharClass::QueryChar => is_unreserved(b) || is_sub_delim(b) || b == COLON || b == AT
            || b == SLASH || b == QUESTION,
    }
}

pub open spec fn allows_pct(c: CharClass) -> bool {
    c != CharClass::Scheme
}

/// `pct-encoded = "%" HEXDIG HEXDIG` at position `i`.
pub open spec fn pct_at(s: Seq<u8>, i: int) -> bool {
    0 <= i && i + 3 <= s.len() && s[i] == PERCENT && is_hexdig(s[i + 1]) && is_hexdig(s[i + 2])
}

/// `pct-encoded`, with the position at which it stops matching.
pub open spec fn pct_encoded_spec(s: Seq<u8>, i: int) -> Result<int, int> {
    if !(0 <= i < s.len() && s[i] == PERCENT) {
        Err(i)
    } else if !(i + 1 < s.len() && is_hexdig(s[i + 1])) {
        Err(i + 1)
    } else if !(i + 2 < s.len() && is_hexdig(s[i + 2])) {
        Err(i + 2)
    } else {
        Ok(i + 3)
    }
}

/// The octet that a percent-encoded triplet at `i` stands for.
pub open spec fn pct_value(s: Seq<u8>, i: int) -> nat {
    hex_digit_value(s[i + 1]) * 16 + hex_digit_value(s[i + 2])
}

/// How many bytes one unit of class `c` takes at `i`: 1 for a plain byte, 3 for a
/// percent-encoded triplet, 0 where no unit starts.
pub open spec fn unit_len(c: CharClass, s: Seq<u8>, i: int) -> int {
    if 0 <= i < s.len() && in_class(c, s[i]) {
        1
    } else if allows_pct(c) && pct_at(s, i) {
        3
    } else {
        0
    }
}

/// The end of the longest run of units of class `c` that starts at `i`.
pub open spec fn run_end(c: CharClass, s: Seq<u8>, i: int) -> int
    decreases s.len() - i,
{
    if unit_len(c, s, i) > 0 {
        run_end(c, s, i + unit_len(c, s, i))
    } else {
        i
    }
}

/// The end of the longest run of decimal digits that starts at `i`.
pub open spec fn digit_run_end(s: Seq<u8>, i: int) -> int
    decreases s.len() - i,
{
    if 0 <= i < s.len() && is_digit(s[i]) {
        digit_run_end(s, i + 1)
    } else {
        i
    }
}

/// The end of the longest run of hexadecimal digits that starts at `i`.
pub open spec fn hex_run_end(s: Seq<u8>, i: int) -> int
    decreases s.len() - i,
{
    if 0 <= i < s.len() && is_hexdig(s[i]) {
        hex_run_end(s, i + 1)
    } else {
        i
    }
}

/// The number that the decimal digits in `[i, j)` write.
pub open spec fn dec_value(s: Seq<u8>, i: int, j: int) -> nat
    decreases j - i,
{
    if j <= i {
        0
    } else {
        dec_value(s, i, j - 1) * 10 + (s[j - 1] - 0x30) as nat
    }
}

/// The number that the hexadecimal digits in `[i, j)` write.
pub open spec fn hex_value(s: Seq<u8>, i: int, j: int) -> nat
    decreases j - i,
{
    if j <= i {
        0
    } else {
        hex_value(s, i, j - 1) * 16 + hex_digit_value(s[j - 1])
    }
}

/// `scheme = ALPHA *( ALPHA / DIGIT / "+" / "-" / "." )`
pub open spec fn scheme_spec(s: Seq<u8>, i: int) -> Result<int, int> {
    if 0 <= i < s.len() && is_alpha(s[i]) {
        Ok(run_end(CharClass::Scheme, s, i + 1))
    } else {
        Err(i)
    }
}

/// One or more units of class `c`.
pub open spec fn run1_spec(c: CharClass, s: Seq<u8>, i: int) -> Result<int, int> {
    if run_end(c, s, i) > i {
        Ok(run_end(c, s, i))
    } else {
        Err(i)
    }
}

/// `userinfo`: one or more of `unreserved / pct-encoded / sub-delims / ":"`.
pub open spec fn userinfo_spec(s: Seq<u8>, i: int) -> Result<int, int> {
    run1_spec(CharClass::UserInfo, s, i)
}

/// `reg-name = *( unreserved / pct-encoded / sub-delims )`; it may be empty.
pub open spec fn reg_name_spec(s: Seq<u8>, i: int) -> Result<int, int> {
    Ok(run_end(CharClass::RegName, s, i))
}

/// The largest port number.
pub open spec fn port_max() -> nat {
    65535
}

/// `port = *DIGIT`, whose value must fit in 16 bits. An empty run matches and stands for no
/// port.
pub open spec fn port_spec(s: Seq<u8>, i: int) -> Result<int, int> {
    let e = digit_run_end(s, i);
    if e > i && dec_value(s, i, e) > port_max() {
        Err(i)
    } else {
        Ok(e)
    }
}

/// `dec-octet`: a run of decimal digits whose value fits in 8 bits.
pub open spec fn dec_octet_spec(s: Seq<u8>, i: int) -> Result<int, int> {
    let e = digit_run_end(s, i);
    if e == i || dec_value(s, i, e) > 255 {
        Err(i)
    } else {
        Ok(e)
    }
}

/// `"." dec-octet`
pub open spec fn dot_octet_spec(s: Seq<u8>, i: int) -> Result<int, int> {
    if 0 <= i < s.len() && s[i] == DOT {
        dec_octet_spec(s, i + 1)
    } else {
        Err(i)
    }
}

/// `IPv4address = dec-octet "." dec-octet "." dec-octet "." dec-octet`
pub open spec fn ipv4_spec(s: Seq<u8>, i: int) -> Result<int, int> {
    match dec_octet_spec(s, i) {
        Ok(e1) => match dot_octet_spec(s, e1) {
            Ok(e2) => match dot_octet_spec(s, e2) {
                Ok(e3) => dot_octet_spec(s, e3),
                Err(p) => Err(p),
            },
            Err(p) => Err(p),
        },
        Err(p) => Err(p),
    }
}

/// `h16`: a run of hexadecimal digits whose value fits in 16 bits.
pub open spec fn h16_spec(s: Seq<u8>, i: int) -> Result<int, int> {
    let e = hex_run_end(s, i);
    if e == i || hex_value(s, i, e) > 0xffff {
        Err(i)
    } else {
        Ok(e)
    }
}

/// `"::"` at `p`.
pub open spec fn elision_at(s: Seq<u8>, p: int) -> bool {
    0 <= p && p + 2 <= s.len() && s[p] == COLON && s[p + 1] == COLON
}

/// The pieces of an IPv6 address after `"::"`, separated by single colons: at most `room`
/// 16-bit pieces, of which the last two may be written as an IPv4 address. Gives the end,
/// which is `p` where no piece follows.
pub open spec fn v6_after_elision(s: Seq<u8>, p: int, room: nat) -> int
    decreases room,
{
    if room >= 2 && ipv4_spec(s, p) is Ok {
        ipv4_spec(s, p)->Ok_0
    } else if room >= 1 && h16_spec(s, p) is Ok {
        let e = h16_spec(s, p)->Ok_0;
        if room >= 2 && 0 <= e < s.len() && s[e] == COLON && v6_after_elision(
            s,
            e + 1,
            (room - 1) as nat,
        ) > e + 1 {
            v6_after_elision(s, e + 1, (room - 1) as nat)
        } else {
            e
        }
    } else {
        p
    }
}

/// The pieces of an IPv6 address from `p`, where `n` pieces came before and no `"::"` yet:
/// either eight 16-bit pieces, six and an IPv4 address, or at most seven before `"::"` and as
/// many after it as make at most seven in all.
pub open spec fn v6_pieces(s: Seq<u8>, p: int, n: nat) -> Result<int, int>
    decreases 8 - n,
{
    if n >= 8 {
        Err(p)
    } else if n == 0 && elision_at(s, p) {
        Ok(v6_after_elision(s, p + 2, 7))
    } else if n == 6 && ipv4_spec(s, p) is Ok {
        ipv4_spec(s, p)
    } else {
        match h16_spec(s, p) {
            Ok(e) => if n + 1 == 8 {
                Ok(e)
            } else if elision_at(s, e) {
                Ok(v6_after_elision(s, e + 2, (6 - n) as nat))
            } else if 0 <= e < s.len() && s[e] == COLON {
                v6_pieces(s, e + 1, n + 1)
            } else {
                Err(e)
            },
            Err(q) => Err(q),
        }
    }
}

/// `IPv6address`: 16-bit pieces in hexadecimal separated by colons, with at most one `"::"`
/// standing for one or more zero pieces, and the last 32 bits possibly as an IPv4 address.
pub open spec fn ipv6_spec(s: Seq<u8>, i: int) -> Result<int, int> {
    v6_pieces(s, i, 0)
}

/// `IP-literal = "[" IPv6address "]"`; the future form is never accepted.
pub open spec fn ip_literal_spec(s: Seq<u8>, i: int) -> Result<int, int> {
    if 0 <= i < s.len() && s[i] == LBRACKET {
        match ipv6_spec(s, i + 1) {
            Ok(e) => if 0 <= e < s.len() && s[e] == RBRACKET {
                Ok(e + 1)
            } else {
                Err(e)
            },
            Err(p) => Err(p),
        }
    } else {
        Err(i)
    }
}

/// `segment = *pchar`
pub open spec fn segment_end(s: Seq<u8>, i: int) -> int {
    run_end(CharClass::PChar, s, i)
}

/// `path-abempty = *( "/" segment )`
pub open spec fn path_abempty_end(s: Seq<u8>, i: int) -> int
    decreases s.len() - i,
    via path_abempty_end_decreases
{
    if 0 <= i < s.len() && s[i] == SLASH {
        path_abempty_end(s, segment_end(s, i + 1))
    } else {
        i
    }
}

#[via_fn]
proof fn path_abempty_end_decreases(s: Seq<u8>, i: int) {
    if 0 <= i < s.len() && s[i] == SLASH {
        lemma_run_end_bounds(CharClass::PChar, s, i + 1);
    }
}

/// A run ends between its start and the end of the input.
pub proof fn lemma_run_end_bounds(c: CharClass, s: Seq<u8>, i: int)
    requires
        0 <= i <= s.len(),
    ensures
        i <= run_end(c, s, i) <= s.len(),
    decreases s.len() - i,
{
    if unit_len(c, s, i) > 0 {
        lemma_run_end_bounds(c, s, i + unit_len(c, s, i));
    }
}

/// `path-rootless = segment-nz *( "/" segment )`
pub open spec fn path_rootless_spec(s: Seq<u8>, i: int) -> Result<int, int> {
    match run1_spec(CharClass::PChar, s, i) {
        Ok(e) => Ok(path_abempty_end(s, e)),
        Err(p) => Err(p),
    }
}

/// `path-noscheme = segment-nz-nc *( "/" segment )`
pub open spec fn path_noscheme_spec(s: Seq<u8>, i: int) -> Result<int, int> {
    match run1_spec(CharClass::NoColon, s, i) {
        Ok(e) => Ok(path_abempty_end(s, e)),
        Err(p) => Err(p),
    }
}

/// `path-absolute = "/" [ segment-nz *( "/" segment ) ]`
pub open spec fn path_absolute_spec(s: Seq<u8>, i: int) -> Result<int, int> {
    if 0 <= i < s.len() && s[i] == SLASH {
        match path_rootless_spec(s, i + 1) {
            Ok(e) => Ok(e),
            Err(_) => Ok(i + 1),
        }
    } else {
        Err(i)
    }
}

/// `query = *( pchar / "/" / "?" )`; a fragment has the same shape.
pub open spec fn query_end(s: Seq<u8>, i: int) -> int {
    run_end(CharClass::QueryChar, s, i)
}

/// The bytes in `[i, j)` are all ASCII.
pub open spec fn ascii(s: Seq<u8>, i: int, j: int) -> bool {
    forall|k: int| i <= k < j ==> #[trigger] s[k] < 128
}

/// The exec view of a production's outcome.
pub open spec fn pos_result(r: Result<usize, usize>) -> Result<int, int> {
    match r {
        Ok(e) => Ok(e as int),
        Err(p) => Err(p as int),
    }
}

} // verus!

verus! {

/// A run that ends at `n` ends there too in the input cut at `n`.
pub proof fn lemma_run_end_prefix(c: CharClass, s: Seq<u8>, k: int, n: int)
    requires
        0 <= k <= n <= s.len(),
        run_end(c, s, k) == n,
    ensures
        run_end(c, s.subrange(0, n), k) == n,
    decreases n - k,
{
    let t = s.subrange(0, n);
    let u = unit_len(c, s, k);
    if u > 0 {
        lemma_run_end_bounds(c, s, k + u);
        assert(unit_len(c, t, k) == u);
        lemma_run_end_prefix(c, s, k + u, n);
    } else {
        assert(unit_len(c, t, k) == 0);
    }
}

/// The digits of a run, cut out of the input, form a whole run that writes the same number.
pub proof fn lemma_digit_run_cut(s: Seq<u8>, a: int, b: int)
    requires
        0 <= a <= b <= s.len(),
        digit_run_end(s, a) == b,
    ensures
        digit_run_end(s.subrange(a, b), 0) == b - a,
        dec_value(s.subrange(a, b), 0, b - a) == dec_value(s, a, b),
{
    lemma_digit_run_cut_from(s, a, b, a);
    lemma_dec_value_cut(s, a, b, b);
}

proof fn lemma_digit_run_cut_from(s: Seq<u8>, a: int, b: int, k: int)
    requires
        0 <= a <= k <= b <= s.len(),
        digit_run_end(s, k) == b,
    ensures
        digit_run_end(s.subrange(a, b), k - a) == b - a,
    decreases b - k,
{
    let t = s.subrange(a, b);
    if k < b {
        if !(is_digit(s[k])) {
            assert(digit_run_end(s, k) == k);
        }
        assert(t[k - a] == s[k]);
        lemma_digit_run_cut_from(s, a, b, k + 1);
    } else {
        if 0 <= k < s.len() && is_digit(s[k]) {
            lemma_digit_run_end_grows(s, k + 1);
        }
    }
}

proof fn lemma_digit_run_end_grows(s: Seq<u8>, k: int)
    requires
        0 <= k <= s.len(),
    ensures
        digit_run_end(s, k) >= k,
    decreases s.len() - k,
{
    if k < s.len() && is_digit(s[k]) {
        lemma_digit_run_end_grows(s, k + 1);
    }
}

proof fn lemma_dec_value_cut(s: Seq<u8>, a: int, b: int, j: int)
    requires
        0 <= a <= j <= b <= s.len(),
    ensures
        dec_value(s.subrange(a, b), 0, j - a) == dec_value(s, a, j),
    decreases j - a,
{
    if j > a {
        lemma_dec_value_cut(s, a, b, j - 1);
        assert(s.subrange(a, b)[j - a - 1] == s[j - 1]);
    }
}

} // verus!


verus! {

/// A production's match lies between its start and the end of the input.
pub open spec fn within(r: Result<int, int>, i: int, n: int) -> bool {
    r matches Ok(e) ==> i <= e <= n
}

pub proof fn lemma_digit_run_bounds(s: Seq<u8>, i: int)
    requires
        0 <= i <= s.len(),
    ensures
        i <= digit_run_end(s, i) <= s.len(),
    decreases s.len() - i,
{
    if i < s.len() && is_digit(s[i]) {
        lemma_digit_run_bounds(s, i + 1);
    }
}

pub proof fn lemma_hex_run_bounds(s: Seq<u8>, i: int)
    requires
        0 <= i <= s.len(),
    ensures
        i <= hex_run_end(s, i) <= s.len(),
    decreases s.len() - i,
{
    if i < s.len() && is_hexdig(s[i]) {
        lemma_hex_run_bounds(s, i + 1);
    }
}

pub proof fn lemma_ipv4_bounds(s: Seq<u8>, i: int)
    requires
        0 <= i <= s.len(),
    ensures
        within(ipv4_spec(s, i), i, s.len() as int),
{
    lemma_digit_run_bounds(s, i);
    if let Ok(e1) = dec_octet_spec(s, i) {
        if e1 < s.len() {
            lemma_digit_run_bounds(s, e1 + 1);
            if let Ok(e2) = dot_octet_spec(s, e1) {
                if e2 < s.len() {
                    lemma_digit_run_bounds(s, e2 + 1);
                    if let Ok(e3) = dot_octet_spec(s, e2) {
                        if e3 < s.len() {
                            lemma_digit_run_bounds(s, e3 + 1);
                        }
                    }
                }
            }
        }
    }
}

pub proof fn lemma_v6_after_elision_bounds(s: Seq<u8>, p: int, room: nat)
    requires
        0 <= p <= s.len(),
    ensures
        p <= v6_after_elision(s, p, room) <= s.len(),
    decreases room,
{
    lemma_ipv4_bounds(s, p);
    lemma_hex_run_bounds(s, p);
    if room >= 1 && h16_spec(s, p) is Ok {
        let e = h16_spec(s, p)->Ok_0;
        if room >= 2 && 0 <= e < s.len() {
            lemma_v6_after_elision_bounds(s, e + 1, (room - 1) as nat);
        }
    }
}

pub proof fn lemma_v6_pieces_bounds(s: Seq<u8>, p: int, n: nat)
    requires
        0 <= p <= s.len(),
    ensures
        within(v6_pieces(s, p, n), p, s.len() as int),
    decreases 8 - n,
{
    lemma_ipv4_bounds(s, p);
    lemma_hex_run_bounds(s, p);
    if p + 2 <= s.len() {
        lemma_v6_after_elision_bounds(s, p + 2, 7);
    }
    if n < 8 && h16_spec(s, p) is Ok {
        let e = h16_spec(s, p)->Ok_0;
        if e + 2 <= s.len() {
            lemma_v6_after_elision_bounds(s, e + 2, (6 - n) as nat);
        }
        if e < s.len() {
            lemma_v6_pieces_bounds(s, e + 1, n + 1);
        }
    }
}

pub proof fn lemma_ipv6_bounds(s: Seq<u8>, i: int)
    requires
        0 <= i <= s.len(),
    ensures
        within(ipv6_spec(s, i), i, s.len() as int),
{
    lemma_v6_pieces_bounds(s, i, 0);
}

pub proof fn lemma_ip_literal_bounds(s: Seq<u8>, i: int)
    requires
        0 <= i <= s.len(),
    ensures
        ip_literal_spec(s, i) matches Ok(e) ==> i + 2 <= e <= s.len() && s[i] == LBRACKET && s[e
            - 1] == RBRACKET && ipv6_spec(s, i + 1) == Ok::<int, int>(e - 1),
{
    if i < s.len() {
        lemma_ipv6_bounds(s, i + 1);
    }
}

pub proof fn lemma_path_abempty_bounds(s: Seq<u8>, i: int)
    requires
        0 <= i <= s.len(),
    ensures
        i <= path_abempty_end(s, i) <= s.len(),
    decreases s.len() - i,
{
    if i < s.len() && s[i] == SLASH {
        lemma_run_end_bounds(CharClass::PChar, s, i + 1);
        lemma_path_abempty_bounds(s, segment_end(s, i + 1));
    }
}

pub proof fn lemma_path_bounds(s: Seq<u8>, i: int)
    requires
        0 <= i <= s.len(),
    ensures
        within(path_rootless_spec(s, i), i, s.len() as int),
        within(path_noscheme_spec(s, i), i, s.len() as int),
        within(path_absolute_spec(s, i), i, s.len() as int),
{
    lemma_run_end_bounds(CharClass::PChar, s, i);
    lemma_run_end_bounds(CharClass::NoColon, s, i);
    lemma_path_abempty_bounds(s, run_end(CharClass::PChar, s, i));
    lemma_path_abempty_bounds(s, run_end(CharClass::NoColon, s, i));
    if i < s.len() {
        lemma_run_end_bounds(CharClass::PChar, s, i + 1);
        lemma_path_abempty_bounds(s, run_end(CharClass::PChar, s, i + 1));
    }
}

} // verus!
