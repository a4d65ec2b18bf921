//! Productions give the same result on a prefix of their input that holds everything they
//! look at.
use vstd::prelude::*;

use crate::grammar::{
    AT, CharClass, COLON, DOT, HASH, LBRACKET, PERCENT, QUESTION, SLASH, dec_octet_spec, dec_value,
    digit_run_end, dot_octet_spec, elision_at, h16_spec, hex_run_end, hex_value,
    ip_literal_spec, ipv4_spec, ipv6_spec, is_digit, is_hexdig, lemma_digit_run_bounds,
    lemma_ip_literal_bounds, lemma_ipv4_bounds, lemma_path_abempty_bounds, lemma_path_bounds,
    lemma_run_end_bounds, path_abempty_end, path_absolute_spec, path_rootless_spec, port_spec,
    query_end, reg_name_spec, run_end, scheme_spec, segment_end, unit_len, v6_after_elision,
    v6_pieces,
};
use crate::model::{
    authority_spec, delimited_part, double_slash_at, hier_part_spec, host_spec, port_suffix,
    uri_spec, userinfo_prefix,
};

verus! {

/// A byte that an IP address may hold: a hexadecimal digit, `:` or `.`.
pub open spec fn in_ip(b: u8) -> bool {
    is_hexdig(b) || b == COLON || b == DOT
}

/// The end of the run of IP address bytes from `p`.
pub open spec fn ip_end(s: Seq<u8>, p: int) -> int
    decreases s.len() - p,
{
    if 0 <= p < s.len() && in_ip(s[p]) {
        ip_end(s, p + 1)
    } else {
        p
    }
}

/// `t` is `s` cut at `n`.
pub open spec fn cut(s: Seq<u8>, t: Seq<u8>, n: int) -> bool {
    0 <= n <= s.len() && t == s.subrange(0, n)
}

pub proof fn lemma_ip_end_bounds(s: Seq<u8>, p: int)
    requires
        0 <= p <= s.len(),
    ensures
        p <= ip_end(s, p) <= s.len(),
    decreases s.len() - p,
{
    if p < s.len() && in_ip(s[p]) {
        lemma_ip_end_bounds(s, p + 1);
    }
}

/// Every position inside a run has the same end.
pub proof fn lemma_ip_end_inside(s: Seq<u8>, p: int, q: int)
    requires
        0 <= p <= q <= ip_end(s, p),
    ensures
        ip_end(s, q) == ip_end(s, p),
    decreases q - p,
{
    if p < q {
        assert(0 <= p < s.len() && in_ip(s[p]));
        lemma_ip_end_inside(s, p + 1, q);
    }
}

/// A byte of the run sits before its end.
pub proof fn lemma_ip_byte_inside(s: Seq<u8>, p: int, q: int)
    requires
        0 <= p <= q <= ip_end(s, p),
        q < s.len(),
        in_ip(s[q]),
    ensures
        q < ip_end(s, p),
{
    lemma_ip_end_inside(s, p, q);
    lemma_ip_end_bounds(s, q + 1);
}

pub proof fn lemma_hex_run_inside(s: Seq<u8>, p: int)
    requires
        0 <= p <= s.len(),
    ensures
        hex_run_end(s, p) <= ip_end(s, p),
        p <= hex_run_end(s, p),
    decreases s.len() - p,
{
    lemma_ip_end_bounds(s, p);
    if p < s.len() && is_hexdig(s[p]) {
        lemma_hex_run_inside(s, p + 1);
    }
}

pub proof fn lemma_digit_run_inside(s: Seq<u8>, p: int)
    requires
        0 <= p <= s.len(),
    ensures
        digit_run_end(s, p) <= ip_end(s, p),
        p <= digit_run_end(s, p),
    decreases s.len() - p,
{
    lemma_ip_end_bounds(s, p);
    if p < s.len() && is_digit(s[p]) {
        lemma_digit_run_inside(s, p + 1);
    }
}

pub proof fn lemma_hex_run_cut(s: Seq<u8>, t: Seq<u8>, n: int, p: int)
    requires
        cut(s, t, n),
        0 <= p <= hex_run_end(s, p) <= n,
    ensures
        hex_run_end(t, p) == hex_run_end(s, p),
    decreases s.len() - p,
{
    if p < s.len() && is_hexdig(s[p]) {
        lemma_hex_run_inside(s, p + 1);
        assert(t[p] == s[p]);
        lemma_hex_run_cut(s, t, n, p + 1);
    } else if p < n {
        assert(t[p] == s[p]);
    }
}

pub proof fn lemma_digit_run_cut_prefix(s: Seq<u8>, t: Seq<u8>, n: int, p: int)
    requires
        cut(s, t, n),
        0 <= p <= digit_run_end(s, p) <= n,
    ensures
        digit_run_end(t, p) == digit_run_end(s, p),
    decreases s.len() - p,
{
    if p < s.len() && is_digit(s[p]) {
        lemma_digit_run_inside(s, p + 1);
        assert(t[p] == s[p]);
        lemma_digit_run_cut_prefix(s, t, n, p + 1);
    } else if p < n {
        assert(t[p] == s[p]);
    }
}

pub proof fn lemma_hex_value_cut(s: Seq<u8>, t: Seq<u8>, n: int, p: int, j: int)
    requires
        cut(s, t, n),
        0 <= p <= j <= n,
    ensures
        hex_value(t, p, j) == hex_value(s, p, j),
    decreases j - p,
{
    if p < j {
        assert(t[j - 1] == s[j - 1]);
        lemma_hex_value_cut(s, t, n, p, j - 1);
    }
}

pub proof fn lemma_dec_value_cut_prefix(s: Seq<u8>, t: Seq<u8>, n: int, p: int, j: int)
    requires
        cut(s, t, n),
        0 <= p <= j <= n,
    ensures
        dec_value(t, p, j) == dec_value(s, p, j),
    decreases j - p,
{
    if p < j {
        assert(t[j - 1] == s[j - 1]);
        lemma_dec_value_cut_prefix(s, t, n, p, j - 1);
    }
}

/// The bytes at `q` in `s` and in `t` agree on whether they are `b`, an IP address byte.
proof fn lemma_byte_cut(s: Seq<u8>, t: Seq<u8>, n: int, p: int, q: int, b: u8)
    requires
        cut(s, t, n),
        0 <= p <= q <= ip_end(s, p) <= n,
        in_ip(b),
    ensures
        (0 <= q < t.len() && t[q] == b) == (0 <= q < s.len() && s[q] == b),
        (0 <= q < s.len() && s[q] == b) ==> q < ip_end(s, p),
{
    if q < n {
        assert(t[q] == s[q]);
    }
    if 0 <= q < s.len() && s[q] == b {
        lemma_ip_byte_inside(s, p, q);
    }
}

/// Where a production of an IP address starts within the run of IP address bytes.
pub open spec fn in_window(s: Seq<u8>, n: int, p: int) -> bool {
    0 <= p <= s.len() && ip_end(s, p) <= n
}

/// What a production of an IP address matches lies within the run.
pub open spec fn ends_inside(s: Seq<u8>, p: int, r: Result<int, int>) -> bool {
    r matches Ok(e) ==> p <= e <= ip_end(s, p)
}

pub proof fn lemma_h16_cut(s: Seq<u8>, t: Seq<u8>, n: int, p: int)
    requires
        cut(s, t, n),
        in_window(s, n, p),
    ensures
        h16_spec(t, p) == h16_spec(s, p),
        ends_inside(s, p, h16_spec(s, p)),
{
    lemma_hex_run_inside(s, p);
    lemma_hex_run_cut(s, t, n, p);
    lemma_hex_value_cut(s, t, n, p, hex_run_end(s, p));
}

/// A byte that an IPv4 address may hold: a decimal digit or `.`.
pub open spec fn in_v4(b: u8) -> bool {
    is_digit(b) || b == DOT
}

/// The end of the run of IPv4 address bytes from `p`.
pub open spec fn v4_end(s: Seq<u8>, p: int) -> int
    decreases s.len() - p,
{
    if 0 <= p < s.len() && in_v4(s[p]) {
        v4_end(s, p + 1)
    } else {
        p
    }
}

pub proof fn lemma_v4_end_bounds(s: Seq<u8>, p: int)
    requires
        0 <= p <= s.len(),
    ensures
        p <= v4_end(s, p) <= ip_end(s, p),
        v4_end(s, p) <= s.len(),
    decreases s.len() - p,
{
    lemma_ip_end_bounds(s, p);
    if p < s.len() && in_v4(s[p]) {
        lemma_v4_end_bounds(s, p + 1);
    }
}

pub proof fn lemma_v4_end_inside(s: Seq<u8>, p: int, q: int)
    requires
        0 <= p <= q <= v4_end(s, p),
    ensures
        v4_end(s, q) == v4_end(s, p),
    decreases q - p,
{
    if p < q {
        assert(0 <= p < s.len() && in_v4(s[p]));
        lemma_v4_end_inside(s, p + 1, q);
    }
}

pub proof fn lemma_digit_run_in_v4(s: Seq<u8>, p: int)
    requires
        0 <= p <= s.len(),
    ensures
        p <= digit_run_end(s, p) <= v4_end(s, p),
    decreases s.len() - p,
{
    lemma_v4_end_bounds(s, p);
    if p < s.len() && is_digit(s[p]) {
        lemma_digit_run_in_v4(s, p + 1);
    }
}

/// Where an IPv4 production starts within the run of IPv4 address bytes.
pub open spec fn in_v4_window(s: Seq<u8>, n: int, p: int) -> bool {
    0 <= p <= s.len() && v4_end(s, p) <= n
}

/// What an IPv4 production matches lies within the run.
pub open spec fn ends_inside_v4(s: Seq<u8>, p: int, r: Result<int, int>) -> bool {
    r matches Ok(e) ==> p <= e <= v4_end(s, p)
}

pub proof fn lemma_dec_octet_cut(s: Seq<u8>, t: Seq<u8>, n: int, p: int)
    requires
        cut(s, t, n),
        in_v4_window(s, n, p),
    ensures
        dec_octet_spec(t, p) == dec_octet_spec(s, p),
        ends_inside_v4(s, p, dec_octet_spec(s, p)),
{
    lemma_digit_run_in_v4(s, p);
    lemma_digit_run_cut_prefix(s, t, n, p);
    lemma_dec_value_cut_prefix(s, t, n, p, digit_run_end(s, p));
}

pub proof fn lemma_dot_octet_cut(s: Seq<u8>, t: Seq<u8>, n: int, p: int)
    requires
        cut(s, t, n),
        in_v4_window(s, n, p),
    ensures
        dot_octet_spec(t, p) == dot_octet_spec(s, p),
        ends_inside_v4(s, p, dot_octet_spec(s, p)),
{
    lemma_v4_end_bounds(s, p);
    if p < n {
        assert(t[p] == s[p]);
    }
    if 0 <= p < s.len() && s[p] == DOT {
        lemma_v4_end_bounds(s, p + 1);
        lemma_v4_end_inside(s, p, p + 1);
        lemma_dec_octet_cut(s, t, n, p + 1);
    }
}

/// An IPv4 address parses the same on a prefix that holds its run of digits and dots.
pub proof fn lemma_ipv4_cut(s: Seq<u8>, t: Seq<u8>, n: int, p: int)
    requires
        cut(s, t, n),
        in_v4_window(s, n, p),
    ensures
        ipv4_spec(t, p) == ipv4_spec(s, p),
        ends_inside_v4(s, p, ipv4_spec(s, p)),
{
    lemma_dec_octet_cut(s, t, n, p);
    if let Ok(e1) = dec_octet_spec(s, p) {
        lemma_v4_end_inside(s, p, e1);
        lemma_dot_octet_cut(s, t, n, e1);
        if let Ok(e2) = dot_octet_spec(s, e1) {
            lemma_v4_end_inside(s, p, e2);
            lemma_dot_octet_cut(s, t, n, e2);
            if let Ok(e3) = dot_octet_spec(s, e2) {
                lemma_v4_end_inside(s, p, e3);
                lemma_dot_octet_cut(s, t, n, e3);
            }
        }
    }
}

/// `"::"` reads the same at a place of the run.
proof fn lemma_elision_cut(s: Seq<u8>, t: Seq<u8>, n: int, p: int, q: int)
    requires
        cut(s, t, n),
        0 <= p <= q <= ip_end(s, p) <= n,
    ensures
        elision_at(t, q) == elision_at(s, q),
        elision_at(s, q) ==> q + 2 <= ip_end(s, p),
{
    lemma_byte_cut(s, t, n, p, q, COLON);
    if 0 <= q < s.len() && s[q] == COLON {
        lemma_ip_end_inside(s, p, q + 1);
        lemma_byte_cut(s, t, n, p, q + 1, COLON);
        if q + 1 < s.len() && s[q + 1] == COLON {
            lemma_ip_byte_inside(s, p, q + 1);
        }
    }
}

pub proof fn lemma_v6_after_elision_cut(s: Seq<u8>, t: Seq<u8>, n: int, p: int, room: nat)
    requires
        cut(s, t, n),
        in_window(s, n, p),
    ensures
        v6_after_elision(t, p, room) == v6_after_elision(s, p, room),
        p <= v6_after_elision(s, p, room) <= ip_end(s, p),
    decreases room,
{
    lemma_ip_end_bounds(s, p);
    lemma_v4_end_bounds(s, p);
    lemma_ipv4_cut(s, t, n, p);
    lemma_h16_cut(s, t, n, p);
    if h16_spec(s, p) is Ok {
        let e = h16_spec(s, p)->Ok_0;
        lemma_byte_cut(s, t, n, p, e, COLON);
        if room >= 1 && 0 <= e < s.len() && s[e] == COLON {
            lemma_ip_end_inside(s, p, e + 1);
            lemma_v6_after_elision_cut(s, t, n, e + 1, (room - 1) as nat);
        }
    }
}

pub proof fn lemma_v6_pieces_cut(s: Seq<u8>, t: Seq<u8>, n: int, p: int, k: nat)
    requires
        cut(s, t, n),
        in_window(s, n, p),
    ensures
        v6_pieces(t, p, k) == v6_pieces(s, p, k),
        ends_inside(s, p, v6_pieces(s, p, k)),
    decreases 8 - k,
{
    lemma_ip_end_bounds(s, p);
    lemma_v4_end_bounds(s, p);
    lemma_ipv4_cut(s, t, n, p);
    lemma_h16_cut(s, t, n, p);
    lemma_elision_cut(s, t, n, p, p);
    if elision_at(s, p) {
        lemma_ip_end_inside(s, p, p + 2);
        lemma_v6_after_elision_cut(s, t, n, p + 2, 7);
    }
    if k < 8 && h16_spec(s, p) is Ok {
        let e = h16_spec(s, p)->Ok_0;
        lemma_elision_cut(s, t, n, p, e);
        lemma_byte_cut(s, t, n, p, e, COLON);
        if elision_at(s, e) {
            lemma_ip_end_inside(s, p, e + 2);
            lemma_v6_after_elision_cut(s, t, n, e + 2, (6 - k) as nat);
        }
        if 0 <= e < s.len() && s[e] == COLON {
            lemma_ip_end_inside(s, p, e + 1);
            lemma_v6_pieces_cut(s, t, n, e + 1, k + 1);
        }
    }
}

/// An IPv6 address followed by a byte that no IP address holds parses the same when the
/// input is cut after that byte.
pub proof fn lemma_ipv6_cut(s: Seq<u8>, t: Seq<u8>, n: int, p: int)
    requires
        cut(s, t, n),
        in_window(s, n, p),
    ensures
        ipv6_spec(t, p) == ipv6_spec(s, p),
        ends_inside(s, p, ipv6_spec(s, p)),
{
    lemma_v6_pieces_cut(s, t, n, p, 0);
}

} // verus!

verus! {

/// A run that ends within the prefix ends at the same place in it.
pub proof fn lemma_run_cut(c: CharClass, s: Seq<u8>, t: Seq<u8>, n: int, k: int)
    requires
        cut(s, t, n),
        0 <= k <= run_end(c, s, k) <= n,
    ensures
        run_end(c, t, k) == run_end(c, s, k),
    decreases s.len() - k,
{
    let u = unit_len(c, s, k);
    if u > 0 {
        lemma_run_end_bounds(c, s, k + u);
        assert(t[k] == s[k]);
        if u == 3 {
            assert(t[k + 1] == s[k + 1]);
            assert(t[k + 2] == s[k + 2]);
        }
        assert(unit_len(c, t, k) == u);
        lemma_run_cut(c, s, t, n, k + u);
    } else if k < n {
        assert(t[k] == s[k]);
        if k + 2 < n {
            assert(t[k + 1] == s[k + 1]);
            assert(t[k + 2] == s[k + 2]);
        }
        assert(unit_len(c, t, k) == 0);
    }
}

/// A run that goes on past the prefix stops in it at its end or at a cut percent-encoding.
pub proof fn lemma_run_past_cut(c: CharClass, s: Seq<u8>, t: Seq<u8>, n: int, k: int)
    requires
        cut(s, t, n),
        0 <= k <= n < run_end(c, s, k),
    ensures
        run_end(c, t, k) == n || (run_end(c, t, k) < n && t[run_end(c, t, k)] == PERCENT),
    decreases n - k,
{
    if k < n {
        let u = unit_len(c, s, k);
        assert(t[k] == s[k]);
        if u == 1 {
            assert(unit_len(c, t, k) == 1);
            lemma_run_past_cut(c, s, t, n, k + 1);
        } else if k + 3 <= n {
            assert(t[k + 1] == s[k + 1]);
            assert(t[k + 2] == s[k + 2]);
            assert(unit_len(c, t, k) == 3);
            lemma_run_past_cut(c, s, t, n, k + 3);
        } else {
            assert(unit_len(c, t, k) == 0);
        }
    }
}

pub proof fn lemma_userinfo_prefix_cut(s: Seq<u8>, t: Seq<u8>, n: int, j: int)
    requires
        cut(s, t, n),
        0 <= j <= n,
        userinfo_prefix(s, j).1 <= n,
    ensures
        userinfo_prefix(t, j) == userinfo_prefix(s, j),
{
    let c = CharClass::UserInfo;
    lemma_run_end_bounds(c, s, j);
    lemma_run_end_bounds(c, t, j);
    let ue = run_end(c, s, j);
    if ue <= n {
        lemma_run_cut(c, s, t, n, j);
        if ue < n {
            assert(t[ue] == s[ue]);
        }
    } else {
        lemma_run_past_cut(c, s, t, n, j);
    }
}

/// An IPv4 address that matches within the prefix matches the same there.
pub proof fn lemma_ipv4_ok_cut(s: Seq<u8>, t: Seq<u8>, n: int, p: int)
    requires
        cut(s, t, n),
        0 <= p <= n,
        ipv4_spec(s, p) matches Ok(e) && e <= n,
    ensures
        ipv4_spec(t, p) == ipv4_spec(s, p),
{
    lemma_digit_run_bounds(s, p);
    let e1 = digit_run_end(s, p);
    assert(dec_octet_spec(s, p) == Ok::<int, int>(e1));
    assert(s[e1] == DOT);
    lemma_digit_run_bounds(s, e1 + 1);
    let e2 = digit_run_end(s, e1 + 1);
    assert(s[e2] == DOT);
    lemma_digit_run_bounds(s, e2 + 1);
    let e3 = digit_run_end(s, e2 + 1);
    assert(s[e3] == DOT);
    lemma_digit_run_bounds(s, e3 + 1);
    let e4 = digit_run_end(s, e3 + 1);
    assert(ipv4_spec(s, p) == Ok::<int, int>(e4));
    lemma_digit_run_cut_prefix(s, t, n, p);
    lemma_dec_value_cut_prefix(s, t, n, p, e1);
    assert(t[e1] == s[e1]);
    lemma_digit_run_cut_prefix(s, t, n, e1 + 1);
    lemma_dec_value_cut_prefix(s, t, n, e1 + 1, e2);
    assert(t[e2] == s[e2]);
    lemma_digit_run_cut_prefix(s, t, n, e2 + 1);
    lemma_dec_value_cut_prefix(s, t, n, e2 + 1, e3);
    assert(t[e3] == s[e3]);
    lemma_digit_run_cut_prefix(s, t, n, e3 + 1);
    lemma_dec_value_cut_prefix(s, t, n, e3 + 1, e4);
}

/// The digits and dots from `p` lie within the registry name from `p`.
proof fn lemma_v4_end_in_reg_name(s: Seq<u8>, p: int)
    requires
        0 <= p <= s.len(),
    ensures
        v4_end(s, p) <= run_end(CharClass::RegName, s, p),
    decreases s.len() - p,
{
    lemma_run_end_bounds(CharClass::RegName, s, p);
    if p < s.len() && in_v4(s[p]) {
        assert(unit_len(CharClass::RegName, s, p) == 1);
        lemma_v4_end_in_reg_name(s, p + 1);
    }
}

/// The prefix holds the same bytes.
pub proof fn lemma_sub_cut(s: Seq<u8>, t: Seq<u8>, n: int, a: int, b: int)
    requires
        cut(s, t, n),
        0 <= a <= b <= n,
    ensures
        t.subrange(a, b) == s.subrange(a, b),
{
    assert(t.subrange(a, b) =~= s.subrange(a, b));
}

proof fn lemma_ip_literal_ok_cut(s: Seq<u8>, t: Seq<u8>, n: int, p: int)
    requires
        cut(s, t, n),
        0 <= p <= n,
        ip_literal_spec(s, p) matches Ok(e) && e <= n,
    ensures
        ip_literal_spec(t, p) == ip_literal_spec(s, p),
{
    lemma_ip_literal_bounds(s, p);
    let e = ip_literal_spec(s, p)->Ok_0;
    lemma_ip_end_bounds(s, p + 1);
    assert(s.subrange(0, s.len() as int) =~= s);
    lemma_ipv6_cut(s, s, s.len() as int, p + 1);
    lemma_ip_end_inside(s, p + 1, e - 1);
    assert(ip_end(s, p + 1) == e - 1);
    lemma_ipv6_cut(s, t, n, p + 1);
    assert(t[p] == s[p]);
    assert(t[e - 1] == s[e - 1]);
}

proof fn lemma_ip_literal_err_cut(s: Seq<u8>, t: Seq<u8>, n: int, p: int)
    requires
        cut(s, t, n),
        0 <= p <= n,
        ip_literal_spec(s, p) is Err,
        !(0 <= p < n && s[p] == LBRACKET),
    ensures
        ip_literal_spec(t, p) is Err,
{
    if p < n {
        assert(t[p] == s[p]);
    }
}

/// A host that matches within the prefix matches the same there.
pub proof fn lemma_host_cut(s: Seq<u8>, t: Seq<u8>, n: int, p: int)
    requires
        cut(s, t, n),
        0 <= p <= n,
        host_spec(s, p) matches Ok((_, e)) && e <= n && (e < n ==> s[e] != LBRACKET),
    ensures
        host_spec(t, p) == host_spec(s, p),
{
    lemma_ip_literal_bounds(s, p);
    lemma_ipv4_bounds(s, p);
    lemma_run_end_bounds(CharClass::RegName, s, p);
    let e = host_spec(s, p)->Ok_0.1;
    if ip_literal_spec(s, p) is Ok {
        lemma_ip_literal_ok_cut(s, t, n, p);
        lemma_sub_cut(s, t, n, p + 1, e - 1);
    } else {
        lemma_sub_cut(s, t, n, p, e);
        if 0 <= p < n && s[p] == LBRACKET {
            assert(dec_octet_spec(s, p) is Err);
            assert(ipv4_spec(s, p) is Err);
            assert(unit_len(CharClass::RegName, s, p) == 0);
            assert(reg_name_spec(s, p) == Ok::<int, int>(p));
        }
        lemma_ip_literal_err_cut(s, t, n, p);
        if ipv4_spec(s, p) is Ok {
            lemma_ipv4_ok_cut(s, t, n, p);
        } else {
            lemma_v4_end_bounds(s, p);
            lemma_v4_end_in_reg_name(s, p);
            lemma_ipv4_cut(s, t, n, p);
            lemma_run_cut(CharClass::RegName, s, t, n, p);
        }
    }
}

/// The optional port after a host at `h` that the prefix holds is the same there, unless its
/// digits do not fit in 16 bits, which the callers rule out.
pub proof fn lemma_port_suffix_cut(s: Seq<u8>, t: Seq<u8>, n: int, h: int)
    requires
        cut(s, t, n),
        0 <= h <= n,
        port_suffix(s, h).1 <= n,
        h < n && s[h] == COLON ==> port_spec(s, h + 1) is Ok,
    ensures
        port_suffix(t, h) == port_suffix(s, h),
{
    if h < n {
        assert(t[h] == s[h]);
        if s[h] == COLON {
            lemma_digit_run_bounds(s, h + 1);
            lemma_digit_run_cut_prefix(s, t, n, h + 1);
            lemma_dec_value_cut_prefix(s, t, n, h + 1, digit_run_end(s, h + 1));
            assert(port_spec(t, h + 1) == port_spec(s, h + 1));
            let e = digit_run_end(s, h + 1);
            if e != h + 1 {
                assert(t.subrange(h + 1, e) =~= s.subrange(h + 1, e));
            }
        }
    } else {
        if h < s.len() && s[h] == COLON {
            lemma_digit_run_bounds(s, h + 1);
        }
    }
}

/// An authority that the prefix holds parses the same there.
pub proof fn lemma_authority_cut(s: Seq<u8>, t: Seq<u8>, n: int, j: int)
    requires
        cut(s, t, n),
        0 <= j <= n,
        authority_spec(s, j) matches Ok((_, e)) && e <= n,
        ({
            let he = host_spec(s, userinfo_prefix(s, j).1)->Ok_0.1;
            &&& (he < n && s[he] == COLON ==> port_spec(s, he + 1) is Ok)
            &&& (he < n ==> s[he] != LBRACKET)
        }),
    ensures
        authority_spec(t, j) == authority_spec(s, j),
{
    let (u, hs) = userinfo_prefix(s, j);
    lemma_run_end_bounds(CharClass::UserInfo, s, j);
    lemma_host_text_bounds(s, hs);
    let he = host_spec(s, hs)->Ok_0.1;
    lemma_port_suffix_bounds(s, he);
    lemma_userinfo_prefix_cut(s, t, n, j);
    lemma_host_cut(s, t, n, hs);
    lemma_port_suffix_cut(s, t, n, he);
    if let Some(x) = u {
        assert(t.subrange(j, hs - 1) =~= s.subrange(j, hs - 1));
    }
    let h = host_spec(s, hs)->Ok_0.0;
    assert(host_spec(t, hs) == host_spec(s, hs));
}

proof fn lemma_host_text_bounds(s: Seq<u8>, p: int)
    requires
        0 <= p <= s.len(),
    ensures
        host_spec(s, p) matches Ok((_, e)) ==> p <= e <= s.len(),
{
    lemma_ip_literal_bounds(s, p);
    lemma_ipv4_bounds(s, p);
    lemma_run_end_bounds(CharClass::RegName, s, p);
}

proof fn lemma_port_suffix_bounds(s: Seq<u8>, h: int)
    requires
        0 <= h <= s.len(),
    ensures
        h <= port_suffix(s, h).1 <= s.len(),
{
    if h < s.len() {
        lemma_digit_run_bounds(s, h + 1);
    }
}

} // verus!

verus! {

/// A path of `"/"` segments that the prefix holds parses the same there.
pub proof fn lemma_path_abempty_cut(s: Seq<u8>, t: Seq<u8>, n: int, k: int)
    requires
        cut(s, t, n),
        0 <= k <= path_abempty_end(s, k) <= n,
    ensures
        path_abempty_end(t, k) == path_abempty_end(s, k),
    decreases s.len() - k,
{
    if 0 <= k < s.len() && s[k] == SLASH {
        lemma_run_end_bounds(CharClass::PChar, s, k + 1);
        let e = segment_end(s, k + 1);
        lemma_path_abempty_bounds(s, e);
        assert(t[k] == s[k]);
        lemma_run_cut(CharClass::PChar, s, t, n, k + 1);
        lemma_path_abempty_cut(s, t, n, e);
    } else if k < n {
        assert(t[k] == s[k]);
    }
}

/// A rootless path parses the same on a prefix that holds it, and fails there where it fails.
pub proof fn lemma_rootless_cut(s: Seq<u8>, t: Seq<u8>, n: int, k: int)
    requires
        cut(s, t, n),
        0 <= k <= n,
        path_rootless_spec(s, k) matches Ok(e) ==> e <= n,
    ensures
        path_rootless_spec(t, k) == path_rootless_spec(s, k),
{
    lemma_run_end_bounds(CharClass::PChar, s, k);
    let r = run_end(CharClass::PChar, s, k);
    if r > k {
        lemma_path_abempty_bounds(s, r);
    }
    lemma_run_cut(CharClass::PChar, s, t, n, k);
    if r > k {
        lemma_path_abempty_cut(s, t, n, r);
    }
}

/// An absolute path parses the same on a prefix that holds it, and fails there where it fails.
pub proof fn lemma_absolute_cut(s: Seq<u8>, t: Seq<u8>, n: int, k: int)
    requires
        cut(s, t, n),
        0 <= k <= n,
        path_absolute_spec(s, k) matches Ok(e) ==> e <= n,
    ensures
        path_absolute_spec(t, k) == path_absolute_spec(s, k),
{
    lemma_path_bounds(s, k);
    if k < s.len() {
        lemma_path_bounds(s, k + 1);
    }
    if k < n {
        assert(t[k] == s[k]);
        if s[k] == SLASH {
            lemma_rootless_cut(s, t, n, k + 1);
        }
    }
}

/// An optional part after a delimiter parses the same on a prefix that holds it.
pub proof fn lemma_delimited_cut(s: Seq<u8>, t: Seq<u8>, n: int, i: int, d: u8)
    requires
        cut(s, t, n),
        0 <= i <= n,
        delimited_part(s, i, d).1 <= n,
    ensures
        delimited_part(t, i, d) == delimited_part(s, i, d),
{
    if 0 <= i < s.len() && s[i] == d {
        lemma_run_end_bounds(CharClass::QueryChar, s, i + 1);
        assert(t[i] == s[i]);
        lemma_run_cut(CharClass::QueryChar, s, t, n, i + 1);
        lemma_sub_cut(s, t, n, i + 1, query_end(s, i + 1));
    } else if i < n {
        assert(t[i] == s[i]);
    }
}

/// The hierarchical part parses the same on a prefix that holds it, when what follows it
/// there is a query or a fragment.
pub proof fn lemma_hier_cut(s: Seq<u8>, t: Seq<u8>, n: int, i: int)
    requires
        cut(s, t, n),
        0 <= i <= n,
        hier_part_spec(s, i).2 <= n,
        hier_part_spec(s, i).2 < n ==> s[hier_part_spec(s, i).2] == QUESTION || s[hier_part_spec(
            s,
            i,
        ).2] == HASH,
    ensures
        hier_part_spec(t, i) == hier_part_spec(s, i),
{
    lemma_path_bounds(s, i);
    if double_slash_at(s, i) && authority_spec(s, i + 2) is Ok {
        let (a, ae) = authority_spec(s, i + 2)->Ok_0;
        let hs = userinfo_prefix(s, i + 2).1;
        lemma_run_end_bounds(CharClass::UserInfo, s, i + 2);
        lemma_host_text_bounds(s, hs);
        let he = host_spec(s, hs)->Ok_0.1;
        lemma_port_suffix_bounds(s, he);
        lemma_path_abempty_bounds(s, ae);
        assert(t[i] == s[i]);
        assert(t[i + 1] == s[i + 1]);
        lemma_authority_cut(s, t, n, i + 2);
        lemma_path_abempty_cut(s, t, n, ae);
        lemma_sub_cut(s, t, n, ae, path_abempty_end(s, ae));
    } else {
        if double_slash_at(s, i) {
            assert(path_absolute_spec(s, i) == Ok::<int, int>(i + 1));
        }
        if double_slash_at(t, i) {
            assert(t[i] == s[i]);
            assert(t[i + 1] == s[i + 1]);
        }
        lemma_absolute_cut(s, t, n, i);
        lemma_rootless_cut(s, t, n, i);
        if let Ok(e) = path_absolute_spec(s, i) {
            lemma_sub_cut(s, t, n, i, e);
        } else if let Ok(e) = path_rootless_spec(s, i) {
            lemma_sub_cut(s, t, n, i, e);
        }
    }
}

/// A URI parses the same from the text that it took.
pub proof fn lemma_uri_cut(s: Seq<u8>)
    requires
        uri_spec(s) is Ok,
    ensures
        uri_spec(s.subrange(0, uri_spec(s)->Ok_0.1)) == uri_spec(s),
{
    reveal(uri_spec);
    let se = scheme_spec(s, 0)->Ok_0;
    lemma_run_end_bounds(CharClass::Scheme, s, 1);
    lemma_hier_part_bounds(s, se + 1);
    let (a, p, he) = hier_part_spec(s, se + 1);
    lemma_delimited_bounds(s, he, QUESTION);
    let qe = delimited_part(s, he, QUESTION).1;
    lemma_delimited_bounds(s, qe, HASH);
    let n = delimited_part(s, qe, HASH).1;
    let t = s.subrange(0, n);
    assert(cut(s, t, n));
    lemma_run_cut(CharClass::Scheme, s, t, n, 1);
    assert(t[0] == s[0]);
    assert(t[se] == s[se]);
    assert(scheme_spec(t, 0) == scheme_spec(s, 0));
    lemma_hier_cut(s, t, n, se + 1);
    lemma_delimited_cut(s, t, n, he, QUESTION);
    lemma_delimited_cut(s, t, n, qe, HASH);
    lemma_sub_cut(s, t, n, 0, se);
}

proof fn lemma_hier_part_bounds(s: Seq<u8>, i: int)
    requires
        0 <= i <= s.len(),
    ensures
        i <= hier_part_spec(s, i).2 <= s.len(),
{
    lemma_path_bounds(s, i);
    if double_slash_at(s, i) && authority_spec(s, i + 2) is Ok {
        let hs = userinfo_prefix(s, i + 2).1;
        lemma_run_end_bounds(CharClass::UserInfo, s, i + 2);
        lemma_host_text_bounds(s, hs);
        lemma_port_suffix_bounds(s, host_spec(s, hs)->Ok_0.1);
        lemma_path_abempty_bounds(s, authority_spec(s, i + 2)->Ok_0.1);
    }
}

proof fn lemma_delimited_bounds(s: Seq<u8>, i: int, d: u8)
    requires
        0 <= i <= s.len(),
    ensures
        i <= delimited_part(s, i, d).1 <= s.len(),
{
    if 0 <= i < s.len() && s[i] == d {
        lemma_run_end_bounds(CharClass::QueryChar, s, i + 1);
    }
}

} // verus!

verus! {

/// From `ky` on, `y` holds the bytes of `x` from `kx` up to `bound`, and nothing more.
pub open spec fn shifted(x: Seq<u8>, kx: int, y: Seq<u8>, ky: int, bound: int) -> bool {
    &&& 0 <= kx <= bound <= x.len()
    &&& 0 <= ky
    &&& y.len() == ky + (bound - kx)
    &&& forall|q: int| 0 <= q < bound - kx ==> #[trigger] y[ky + q] == x[kx + q]
}

proof fn lemma_shifted_at(x: Seq<u8>, kx: int, y: Seq<u8>, ky: int, bound: int, p: int)
    requires
        shifted(x, kx, y, ky, bound),
        kx <= p < bound,
    ensures
        y[p - kx + ky] == x[p],
{
    assert(y[ky + (p - kx)] == x[kx + (p - kx)]);
}

/// A run that ends within the bound ends at the shifted place in `y`.
pub proof fn lemma_run_shift(
    c: CharClass,
    x: Seq<u8>,
    kx: int,
    y: Seq<u8>,
    ky: int,
    bound: int,
    p: int,
)
    requires
        shifted(x, kx, y, ky, bound),
        kx <= p <= run_end(c, x, p) <= bound,
    ensures
        run_end(c, y, p - kx + ky) == run_end(c, x, p) - kx + ky,
    decreases x.len() - p,
{
    let d = ky - kx;
    let u = unit_len(c, x, p);
    if u > 0 {
        lemma_run_end_bounds(c, x, p + u);
        lemma_shifted_at(x, kx, y, ky, bound, p);
        if u == 3 {
            lemma_shifted_at(x, kx, y, ky, bound, p + 1);
            lemma_shifted_at(x, kx, y, ky, bound, p + 2);
        }
        assert(unit_len(c, y, p + d) == u);
        lemma_run_shift(c, x, kx, y, ky, bound, p + u);
    } else if p < bound {
        lemma_shifted_at(x, kx, y, ky, bound, p);
        if p + 2 < bound {
            lemma_shifted_at(x, kx, y, ky, bound, p + 1);
            lemma_shifted_at(x, kx, y, ky, bound, p + 2);
        }
        assert(unit_len(c, y, p + d) == 0);
    }
}

/// A path of `"/"` segments that ends within the bound ends at the shifted place in `y`.
pub proof fn lemma_path_abempty_shift(x: Seq<u8>, kx: int, y: Seq<u8>, ky: int, bound: int, p: int)
    requires
        shifted(x, kx, y, ky, bound),
        kx <= p <= path_abempty_end(x, p) <= bound,
    ensures
        path_abempty_end(y, p - kx + ky) == path_abempty_end(x, p) - kx + ky,
    decreases x.len() - p,
{
    if 0 <= p < x.len() && x[p] == SLASH {
        lemma_run_end_bounds(CharClass::PChar, x, p + 1);
        let e = segment_end(x, p + 1);
        lemma_path_abempty_bounds(x, e);
        lemma_shifted_at(x, kx, y, ky, bound, p);
        lemma_run_shift(CharClass::PChar, x, kx, y, ky, bound, p + 1);
        lemma_path_abempty_shift(x, kx, y, ky, bound, e);
    } else if p < bound {
        lemma_shifted_at(x, kx, y, ky, bound, p);
    }
}

/// The shifted bytes agree.
pub proof fn lemma_sub_shift(x: Seq<u8>, kx: int, y: Seq<u8>, ky: int, bound: int, a: int, b: int)
    requires
        shifted(x, kx, y, ky, bound),
        kx <= a <= b <= bound,
    ensures
        y.subrange(a - kx + ky, b - kx + ky) == x.subrange(a, b),
{
    assert forall|q: int| 0 <= q < b - a implies #[trigger] y.subrange(
        a - kx + ky,
        b - kx + ky,
    )[q] == x.subrange(a, b)[q] by {
        lemma_shifted_at(x, kx, y, ky, bound, a + q);
    }
    assert(y.subrange(a - kx + ky, b - kx + ky) =~= x.subrange(a, b));
}

/// An optional part after a delimiter that ends within the bound parses the same in `y`.
pub proof fn lemma_delimited_shift(
    x: Seq<u8>,
    kx: int,
    y: Seq<u8>,
    ky: int,
    bound: int,
    p: int,
    d: u8,
)
    requires
        shifted(x, kx, y, ky, bound),
        kx <= p,
        delimited_part(x, p, d).1 <= bound,
    ensures
        delimited_part(y, p - kx + ky, d) == (delimited_part(x, p, d).0, delimited_part(x, p, d).1 - kx
            + ky),
{
    if 0 <= p < x.len() && x[p] == d {
        lemma_run_end_bounds(CharClass::QueryChar, x, p + 1);
        lemma_shifted_at(x, kx, y, ky, bound, p);
        lemma_run_shift(CharClass::QueryChar, x, kx, y, ky, bound, p + 1);
        lemma_sub_shift(x, kx, y, ky, bound, p + 1, query_end(x, p + 1));
    } else if p < bound {
        lemma_shifted_at(x, kx, y, ky, bound, p);
    }
}

} // verus!

verus! {

/// `x` and `y` hold the same bytes before `h`.
pub open spec fn agree_before(x: Seq<u8>, y: Seq<u8>, h: int) -> bool {
    &&& 0 <= h <= x.len()
    &&& h <= y.len()
    &&& forall|q: int| 0 <= q < h ==> #[trigger] x[q] == y[q]
}

/// At `h`, `y` ends or holds `/`, `?` or `#`, none of which an authority holds.
pub open spec fn stops_at(y: Seq<u8>, h: int) -> bool {
    h == y.len() || (0 <= h < y.len() && (y[h] == SLASH || y[h] == QUESTION || y[h] == HASH))
}

/// A run over bytes that agree, stopped the same way, ends at the same place.
pub proof fn lemma_run_transfer(c: CharClass, x: Seq<u8>, y: Seq<u8>, h: int, k: int)
    requires
        agree_before(x, y, h),
        0 <= k <= run_end(c, x, k) <= h,
        unit_len(c, y, run_end(c, x, k)) == 0,
    ensures
        run_end(c, y, k) == run_end(c, x, k),
    decreases x.len() - k,
{
    let u = unit_len(c, x, k);
    if u > 0 {
        lemma_run_end_bounds(c, x, k + u);
        assert(x[k] == y[k]);
        if u == 3 {
            assert(x[k + 1] == y[k + 1]);
            assert(x[k + 2] == y[k + 2]);
        }
        assert(unit_len(c, y, k) == u);
        lemma_run_transfer(c, x, y, h, k + u);
    }
}

/// Before a stop, runs of the classes of an authority, and runs of IP address bytes, end at
/// the stop at the latest.
pub proof fn lemma_stop_bounds(c: CharClass, y: Seq<u8>, h: int, p: int)
    requires
        stops_at(y, h),
        0 <= p <= h,
        c == CharClass::Scheme || c == CharClass::UserInfo || c == CharClass::RegName,
    ensures
        run_end(c, y, p) <= h,
        ip_end(y, p) <= h,
        v4_end(y, p) <= h,
    decreases h - p,
{
    let u = unit_len(c, y, p);
    if p < h {
        if u > 0 {
            if u == 3 {
                assert(p + 3 <= h) by {
                    if p + 1 == h || p + 2 == h {
                        assert(is_hexdig(y[h]));
                    }
                }
            }
            lemma_stop_bounds(c, y, h, p + u);
        }
        lemma_stop_bounds(c, y, h, p + 1);
    }
}

/// The optional user information reads the same before a stop.
pub proof fn lemma_userinfo_prefix_transfer(s: Seq<u8>, r: Seq<u8>, j: int, he: int)
    requires
        agree_before(s, r, he),
        stops_at(r, he),
        0 <= j <= userinfo_prefix(s, j).1 <= he,
    ensures
        userinfo_prefix(r, j) == userinfo_prefix(s, j),
{
    let c = CharClass::UserInfo;
    lemma_run_end_bounds(c, s, j);
    lemma_run_end_bounds(c, r, j);
    lemma_stop_bounds(c, r, he, j);
    let ue_s = run_end(c, s, j);
    let ue_r = run_end(c, r, j);
    if userinfo_prefix(s, j).0 is Some {
        assert(r[ue_s] == s[ue_s]);
        lemma_run_transfer(c, s, r, he, j);
        assert(r.subrange(j, ue_s) =~= s.subrange(j, ue_s));
    } else {
        if ue_r > j && ue_r < r.len() && r[ue_r] == AT {
            assert(ue_r < he);
            assert(s[ue_r] == r[ue_r]);
            lemma_run_transfer(c, r, s, he, j);
        }
    }
}

/// The host reads the same before a stop, when in `s` a colon follows it.
pub proof fn lemma_host_transfer(s: Seq<u8>, r: Seq<u8>, hs: int, he: int)
    requires
        agree_before(s, r, he),
        stops_at(r, he),
        0 <= hs <= he < s.len(),
        s[he] == COLON,
        host_spec(s, hs) matches Ok((_, e)) && e == he,
    ensures
        host_spec(r, hs) == host_spec(s, hs),
{
    let p = s.subrange(0, he);
    assert(p =~= r.subrange(0, he));
    assert(cut(s, p, he));
    assert(cut(r, p, he));
    lemma_ip_literal_bounds(s, hs);
    lemma_ipv4_bounds(s, hs);
    lemma_run_end_bounds(CharClass::RegName, s, hs);
    lemma_stop_bounds(CharClass::RegName, r, he, hs);
    if hs < he {
        assert(r[hs] == s[hs]);
    }
    if ip_literal_spec(s, hs) is Ok {
        lemma_ip_end_bounds(s, hs + 1);
        assert(s.subrange(0, s.len() as int) =~= s);
        lemma_ipv6_cut(s, s, s.len() as int, hs + 1);
        lemma_ip_end_inside(s, hs + 1, he - 1);
        lemma_ipv6_cut(s, p, he, hs + 1);
        lemma_stop_bounds(CharClass::RegName, r, he, hs + 1);
        lemma_ipv6_cut(r, p, he, hs + 1);
        assert(r[he - 1] == s[he - 1]);
        assert(r.subrange(hs + 1, he - 1) =~= s.subrange(hs + 1, he - 1));
    } else {
        if 0 <= hs < s.len() && s[hs] == LBRACKET {
            assert(dec_octet_spec(s, hs) is Err);
            assert(unit_len(CharClass::RegName, s, hs) == 0);
            assert(reg_name_spec(s, hs) == Ok::<int, int>(hs));
        }
        lemma_v4_end_bounds(s, hs);
        if ipv4_spec(s, hs) is Ok {
            assert(s.subrange(0, s.len() as int) =~= s);
            lemma_ipv4_cut(s, s, s.len() as int, hs);
            lemma_v4_end_inside(s, hs, he);
        } else {
            lemma_v4_end_in_reg_name(s, hs);
            assert(r[he] != PERCENT || he == r.len());
            lemma_run_transfer(CharClass::RegName, s, r, he, hs);
        }
        lemma_ipv4_cut(s, p, he, hs);
        lemma_ipv4_cut(r, p, he, hs);
        assert(r.subrange(hs, he) =~= s.subrange(hs, he));
    }
}

} // verus!
