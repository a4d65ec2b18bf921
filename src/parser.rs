//! The grammar's productions as parsers: each consumes a prefix of its input and gives the
//! unconsumed remainder with what it recognised, or fails with the remainder it could not
//! match. What they recognise are views into the input.
use vstd::prelude::*;
use vstd::string::StringSliceAdditionalSpecFns;

use crate::grammar::{
    AT, COLON, CharClass, HASH, LBRACKET, QUESTION, RBRACKET, SLASH, lemma_digit_run_cut,
    lemma_run_end_prefix, ipv4_spec, ipv6_spec, path_abempty_end, path_absolute_spec,
    path_rootless_spec, pct_encoded_spec, pct_value, port_spec, query_end, scheme_spec,
    userinfo_spec,
};
use crate::model::{
    AuthorityModel, HostModel, PathModel, UriModel, authority_spec, delimited_part, hier_part_spec,
    host_spec, path_spec, uri_spec, valid_port,
};
use crate::scan::{
    byte_at, hex_digit, ipv4_at, ipv6_at, path_abempty_at, path_absolute_at, path_noscheme_at,
    path_rootless_at, pct_encoded_at, port_at, run1_at, run_end_at, scheme_at,
};
use crate::text::ascii_view;
use crate::uri::{Authority, Fragment, Host, Path, Query, Uri};

verus! {

/// The input from position `p` on.
pub open spec fn rest(s: Seq<u8>, p: int) -> Seq<u8> {
    s.subrange(p, s.len() as int)
}

/// How a parser that gives text relates to its production.
pub open spec fn text_outcome(
    s: Seq<u8>,
    spec_r: Result<int, int>,
    r: Result<(&[u8], &str), &[u8]>,
) -> bool {
    match spec_r {
        Ok(e) => r is Ok && r->Ok_0.0@ == rest(s, e) && r->Ok_0.1.spec_bytes() == s.subrange(0, e),
        Err(p) => r is Err && r->Err_0@ == rest(s, p),
    }
}

/// How a parser that gives a value with the model `V` relates to its production.
pub open spec fn value_outcome<T: View>(
    s: Seq<u8>,
    spec_r: Result<(T::V, int), int>,
    r: Result<(&[u8], T), &[u8]>,
) -> bool {
    match spec_r {
        Ok((v, e)) => r is Ok && r->Ok_0.0@ == rest(s, e) && r->Ok_0.1@ == v,
        Err(p) => r is Err && r->Err_0@ == rest(s, p),
    }
}

/// The remainder of `s` from `p`.
fn rest_at<'a>(s: &'a [u8], p: usize) -> (r: &'a [u8])
    requires
        p <= s@.len(),
    ensures
        r@ == rest(s@, p as int),
{
    vstd::slice::slice_subrange(s, p, s.len())
}

/// Text recognised from the start of `s` up to `e`, with the remainder.
fn text_result<'a>(s: &'a [u8], r: Result<usize, usize>) -> (o: Result<(&'a [u8], &'a str), &'a [u8]>)
    requires
        crate::scan::placed(s@, 0, r),
    ensures
        text_outcome(s@, crate::grammar::pos_result(r), o),
{
    match r {
        Ok(e) => Ok((rest_at(s, e), ascii_view(s, 0, e))),
        Err(p) => Err(rest_at(s, p)),
    }
}

pub(crate) fn host_at<'a>(s: &'a [u8], i: usize) -> (r: Result<(Host<'a>, usize), usize>)
    requires
        i <= s@.len(),
    ensures
        match r {
            Ok((h, e)) => {
                &&& host_spec(s@, i as int) == Ok::<(HostModel, int), int>((h@, e as int))
                &&& i <= e <= s@.len()
                &&& !(h@ is VFuture)
                &&& crate::grammar::ascii(s@, i as int, e as int)
            },
            Err(p) => host_spec(s@, i as int) == Err::<(HostModel, int), int>(p as int) && p
                <= s@.len(),
        },
{
    if byte_at(s, i, LBRACKET) {
        if let Ok(e) = ipv6_at(s, i + 1) {
            if byte_at(s, e, RBRACKET) {
                return Ok((Host::V6(ascii_view(s, i + 1, e)), e + 1));
            }
        }
    }
    if let Ok(e) = ipv4_at(s, i) {
        return Ok((Host::V4(ascii_view(s, i, e)), e));
    }
    let e = run_end_at(CharClass::RegName, s, i);
    Ok((Host::RegistryName(ascii_view(s, i, e)), e))
}

pub(crate) fn authority_at<'a>(s: &'a [u8], i: usize) -> (r: Result<(Authority<'a>, usize), usize>)
    requires
        i <= s@.len(),
    ensures
        match r {
            Ok((a, e)) => {
                &&& authority_spec(s@, i as int) == Ok::<(AuthorityModel, int), int>((a@, e as int))
                &&& i <= e <= s@.len()
                &&& crate::grammar::ascii(s@, i as int, e as int)
                &&& !(a.host@ is VFuture)
                &&& (a.port matches Some(p) ==> valid_port(p.spec_bytes()))
            },
            Err(p) => authority_spec(s@, i as int) == Err::<(AuthorityModel, int), int>(p as int)
                && p <= s@.len(),
        },
{
    let (userinfo, hs) = match run1_at(CharClass::UserInfo, s, i) {
        Ok(e) => if byte_at(s, e, AT) {
            (Some(ascii_view(s, i, e)), e + 1)
        } else {
            (None, i)
        },
        Err(_) => (None, i),
    };
    let (host, he) = match host_at(s, hs) {
        Ok(x) => x,
        Err(p) => return Err(p),
    };
    let (port, e) = if byte_at(s, he, COLON) {
        match port_at(s, he + 1) {
            Ok(pe) => if pe == he + 1 {
                (None, pe)
            } else {
                proof {
                    lemma_digit_run_cut(s@, he + 1, pe as int);
                }
                (Some(ascii_view(s, he + 1, pe)), pe)
            },
            Err(_) => (None, he),
        }
    } else {
        (None, he)
    };
    Ok((Authority { userinfo, host, port }, e))
}

fn hier_part_at<'a>(s: &'a [u8], i: usize) -> (r: (Option<Authority<'a>>, Path<'a>, usize))
    requires
        i <= s@.len(),
    ensures
        hier_part_spec(s@, i as int) == (
            match r.0 {
                Some(a) => Some(a@),
                None => None::<AuthorityModel>,
            },
            r.1@,
            r.2 as int,
        ),
        i <= r.2 <= s@.len(),
        crate::grammar::ascii(s@, i as int, r.2 as int),
        r.0 matches Some(a) ==> !(a.host@ is VFuture) && (a.port matches Some(p) ==> valid_port(
            p.spec_bytes(),
        )),
{
    if byte_at(s, i, SLASH) && byte_at(s, i + 1, SLASH) {
        if let Ok((a, ae)) = authority_at(s, i + 2) {
            let pe = path_abempty_at(s, ae);
            return (Some(a), Path::AbEmpty(ascii_view(s, ae, pe)), pe);
        }
    }
    match path_absolute_at(s, i) {
        Ok(e) => (None, Path::Absolute(ascii_view(s, i, e)), e),
        Err(_) => match path_rootless_at(s, i) {
            Ok(e) => (None, Path::Rootless(ascii_view(s, i, e)), e),
            Err(_) => (None, Path::Empty, i),
        },
    }
}

pub(crate) fn path_at<'a>(s: &'a [u8], i: usize) -> (r: (Path<'a>, usize))
    requires
        i <= s@.len(),
    ensures
        path_spec(s@, i as int) == (r.0@, r.1 as int),
        i <= r.1 <= s@.len(),
{
    match path_absolute_at(s, i) {
        Ok(e) => (Path::Absolute(ascii_view(s, i, e)), e),
        Err(_) => match path_noscheme_at(s, i) {
            Ok(e) => (Path::NoScheme(ascii_view(s, i, e)), e),
            Err(_) => match path_rootless_at(s, i) {
                Ok(e) => (Path::Rootless(ascii_view(s, i, e)), e),
                Err(_) => {
                    let e = path_abempty_at(s, i);
                    (Path::AbEmpty(ascii_view(s, i, e)), e)
                },
            },
        },
    }
}

/// An optional part introduced by the delimiter `d` at `i`.
fn delimited_at<'a>(s: &'a [u8], i: usize, d: u8) -> (r: (Option<&'a str>, usize))
    requires
        i <= s@.len(),
    ensures
        delimited_part(s@, i as int, d) == (
            match r.0 {
                Some(t) => Some(t.spec_bytes()),
                None => None::<Seq<u8>>,
            },
            r.1 as int,
        ),
        i <= r.1 <= s@.len(),
        d < 128 ==> crate::grammar::ascii(s@, i as int, r.1 as int),
{
    if byte_at(s, i, d) {
        let e = run_end_at(CharClass::QueryChar, s, i + 1);
        (Some(ascii_view(s, i + 1, e)), e)
    } else {
        (None, i)
    }
}

pub(crate) fn uri_at<'a>(s: &'a [u8]) -> (r: Result<(Uri<'a>, usize), usize>)
    ensures
        match r {
            Ok((u, e)) => uri_spec(s@) == Ok::<(UriModel, int), int>((u@, e as int)) && e
                <= s@.len() && crate::grammar::ascii(s@, 0, e as int),
            Err(p) => uri_spec(s@) == Err::<(UriModel, int), int>(p as int) && p <= s@.len()
                && crate::grammar::ascii(s@, 0, p as int),
        },
{
    proof {
        reveal(uri_spec);
    }
    let se = match scheme_at(s, 0) {
        Ok(e) => e,
        Err(p) => return Err(p),
    };
    if !byte_at(s, se, COLON) {
        return Err(se);
    }
    let scheme = ascii_view(s, 0, se);
    proof {
        lemma_run_end_prefix(CharClass::Scheme, s@, 1, se as int);
    }
    let (authority, path, he) = hier_part_at(s, se + 1);
    let (q, qe) = delimited_at(s, he, QUESTION);
    let (f, fe) = delimited_at(s, qe, HASH);
    let query = match q {
        Some(t) => Some(Query(t)),
        None => None,
    };
    let fragment = match f {
        Some(t) => Some(Fragment(t)),
        None => None,
    };
    let u = Uri::from_parts(scheme, authority, path, query, fragment);
    Ok((u, fe))
}

/// `URI = scheme ":" hier-part [ "?" query ] [ "#" fragment ]`
pub fn uri<'a>(i: &'a [u8]) -> (r: Result<(&'a [u8], Uri<'a>), &'a [u8]>)
    ensures
        value_outcome(i@, uri_spec(i@), r),
{
    match uri_at(i) {
        Ok((u, e)) => Ok((rest_at(i, e), u)),
        Err(p) => Err(rest_at(i, p)),
    }
}

/// `scheme = ALPHA *( ALPHA / DIGIT / "+" / "-" / "." )`
pub fn scheme<'a>(i: &'a [u8]) -> (r: Result<(&'a [u8], &'a str), &'a [u8]>)
    ensures
        text_outcome(i@, scheme_spec(i@, 0), r),
{
    text_result(i, scheme_at(i, 0))
}

/// `userinfo`: one or more of `unreserved / pct-encoded / sub-delims / ":"`.
pub fn userinfo<'a>(i: &'a [u8]) -> (r: Result<(&'a [u8], &'a str), &'a [u8]>)
    ensures
        text_outcome(i@, userinfo_spec(i@, 0), r),
{
    text_result(i, run1_at(CharClass::UserInfo, i, 0))
}

/// `host = IP-literal / IPv4address / reg-name`
pub fn host<'a>(i: &'a [u8]) -> (r: Result<(&'a [u8], Host<'a>), &'a [u8]>)
    ensures
        value_outcome(i@, host_spec(i@, 0), r),
        r matches Ok((_, h)) ==> !(h@ is VFuture),
{
    match host_at(i, 0) {
        Ok((h, e)) => Ok((rest_at(i, e), h)),
        Err(p) => Err(rest_at(i, p)),
    }
}

/// `port = *DIGIT`, a number of at most 16 bits; no digits give no port.
pub fn port<'a>(i: &'a [u8]) -> (r: Result<(&'a [u8], Option<&'a str>), &'a [u8]>)
    ensures
        match port_spec(i@, 0) {
            Ok(e) => r matches Ok((rest_, p)) && rest_@ == rest(i@, e) && if e == 0 {
                p is None
            } else {
                p matches Some(t) && t.spec_bytes() == i@.subrange(0, e) && valid_port(t.spec_bytes())
            },
            Err(p) => r matches Err(rest_) && rest_@ == rest(i@, p),
        },
{
    match port_at(i, 0) {
        Ok(e) => if e == 0 {
            Ok((i, None))
        } else {
            proof {
                lemma_digit_run_cut(i@, 0, e as int);
            }
            Ok((rest_at(i, e), Some(ascii_view(i, 0, e))))
        },
        Err(p) => Err(rest_at(i, p)),
    }
}

/// `IPv6address`, given as a host.
pub fn ip_v6_address<'a>(i: &'a [u8]) -> (r: Result<(&'a [u8], Host<'a>), &'a [u8]>)
    ensures
        match ipv6_spec(i@, 0) {
            Ok(e) => r matches Ok((rest_, h)) && rest_@ == rest(i@, e) && h@ == HostModel::V6(
                i@.subrange(0, e),
            ),
            Err(p) => r matches Err(rest_) && rest_@ == rest(i@, p),
        },
{
    match ipv6_at(i, 0) {
        Ok(e) => Ok((rest_at(i, e), Host::V6(ascii_view(i, 0, e)))),
        Err(p) => Err(rest_at(i, p)),
    }
}

/// `IPv4address = dec-octet "." dec-octet "." dec-octet "." dec-octet`, given as a host.
pub fn ip_v4_address<'a>(i: &'a [u8]) -> (r: Result<(&'a [u8], Host<'a>), &'a [u8]>)
    ensures
        match ipv4_spec(i@, 0) {
            Ok(e) => r matches Ok((rest_, h)) && rest_@ == rest(i@, e) && h@ == HostModel::V4(
                i@.subrange(0, e),
            ),
            Err(p) => r matches Err(rest_) && rest_@ == rest(i@, p),
        },
{
    match ipv4_at(i, 0) {
        Ok(e) => Ok((rest_at(i, e), Host::V4(ascii_view(i, 0, e)))),
        Err(p) => Err(rest_at(i, p)),
    }
}

/// `path = path-absolute / path-noscheme / path-rootless / path-abempty / path-empty`
pub fn path<'a>(i: &'a [u8]) -> (r: Result<(&'a [u8], Path<'a>), &'a [u8]>)
    ensures
        r matches Ok((rest_, p)) && (p@, i@.len() - rest_@.len()) == path_spec(i@, 0) && rest_@
            == rest(i@, path_spec(i@, 0).1),
{
    let (p, e) = path_at(i, 0);
    Ok((rest_at(i, e), p))
}

/// `path-absolute = "/" [ segment-nz *( "/" segment ) ]`
pub fn path_absolute<'a>(i: &'a [u8]) -> (r: Result<(&'a [u8], Path<'a>), &'a [u8]>)
    ensures
        match path_absolute_spec(i@, 0) {
            Ok(e) => r matches Ok((rest_, p)) && rest_@ == rest(i@, e) && p@ == PathModel::Absolute(
                i@.subrange(0, e),
            ),
            Err(p) => r matches Err(rest_) && rest_@ == rest(i@, p),
        },
{
    match path_absolute_at(i, 0) {
        Ok(e) => Ok((rest_at(i, e), Path::Absolute(ascii_view(i, 0, e)))),
        Err(p) => Err(rest_at(i, p)),
    }
}

/// `path-rootless = segment-nz *( "/" segment )`
pub fn path_rootless<'a>(i: &'a [u8]) -> (r: Result<(&'a [u8], Path<'a>), &'a [u8]>)
    ensures
        match path_rootless_spec(i@, 0) {
            Ok(e) => r matches Ok((rest_, p)) && rest_@ == rest(i@, e) && p@ == PathModel::Rootless(
                i@.subrange(0, e),
            ),
            Err(p) => r matches Err(rest_) && rest_@ == rest(i@, p),
        },
{
    match path_rootless_at(i, 0) {
        Ok(e) => Ok((rest_at(i, e), Path::Rootless(ascii_view(i, 0, e)))),
        Err(p) => Err(rest_at(i, p)),
    }
}

/// `path-abempty = *( "/" segment )`
pub fn path_abempty<'a>(i: &'a [u8]) -> (r: Result<(&'a [u8], Path<'a>), &'a [u8]>)
    ensures
        r matches Ok((rest_, p)) && rest_@ == rest(i@, path_abempty_end(i@, 0)) && p@
            == PathModel::AbEmpty(i@.subrange(0, path_abempty_end(i@, 0))),
{
    let e = path_abempty_at(i, 0);
    Ok((rest_at(i, e), Path::AbEmpty(ascii_view(i, 0, e))))
}

/// `query = *( pchar / "/" / "?" )`
pub fn query<'a>(i: &'a [u8]) -> (r: Result<(&'a [u8], Query<'a>), &'a [u8]>)
    ensures
        r matches Ok((rest_, q)) && rest_@ == rest(i@, query_end(i@, 0)) && q@ == i@.subrange(
            0,
            query_end(i@, 0),
        ),
{
    let e = run_end_at(CharClass::QueryChar, i, 0);
    Ok((rest_at(i, e), Query(ascii_view(i, 0, e))))
}

/// `fragment = *( pchar / "/" / "?" )`
pub fn fragment<'a>(i: &'a [u8]) -> (r: Result<(&'a [u8], Fragment<'a>), &'a [u8]>)
    ensures
        r matches Ok((rest_, f)) && rest_@ == rest(i@, query_end(i@, 0)) && f@ == i@.subrange(
            0,
            query_end(i@, 0),
        ),
{
    let e = run_end_at(CharClass::QueryChar, i, 0);
    Ok((rest_at(i, e), Fragment(ascii_view(i, 0, e))))
}

/// `pct-encoded = "%" HEXDIG HEXDIG`, giving the character that the two digits write.
pub fn pct_encoded<'a>(i: &'a [u8]) -> (r: Result<(&'a [u8], char), &'a [u8]>)
    ensures
        match pct_encoded_spec(i@, 0) {
            Ok(e) => r matches Ok((rest_, c)) && rest_@ == rest(i@, e) && c as u32 == pct_value(
                i@,
                0,
            ),
            Err(p) => r matches Err(rest_) && rest_@ == rest(i@, p),
        },
{
    match pct_encoded_at(i, 0) {
        Ok(e) => {
            let v: u8 = hex_digit(i[1]) * 16 + hex_digit(i[2]);
            Ok((rest_at(i, e), v as char))
        },
        Err(p) => Err(rest_at(i, p)),
    }
}

} // verus!
