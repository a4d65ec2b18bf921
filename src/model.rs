//! The mathematical model of a URI and of its parts, and what parsing produces in its terms.
use vstd::prelude::*;

use crate::grammar::{
    AT, COLON, dec_value, digit_run_end, port_max, HASH, QUESTION, SLASH, ip_literal_spec, ipv4_spec, path_abempty_end,
    path_absolute_spec, path_noscheme_spec, path_rootless_spec, port_spec, query_end, reg_name_spec,
    scheme_spec, userinfo_spec,
};

verus! {

/// A host: its kind and its text, without the brackets of an IP literal.
pub enum HostModel {
    RegistryName(Seq<u8>),
    V4(Seq<u8>),
    V6(Seq<u8>),
    VFuture(Seq<u8>),
}

impl HostModel {
    pub open spec fn text(self) -> Seq<u8> {
        match self {
            HostModel::RegistryName(t) => t,
            HostModel::V4(t) => t,
            HostModel::V6(t) => t,
            HostModel::VFuture(t) => t,
        }
    }
}

/// `[ userinfo "@" ] host [ ":" port ]`
pub struct AuthorityModel {
    pub userinfo: Option<Seq<u8>>,
    pub host: HostModel,
    pub port: Option<Seq<u8>>,
}

/// A path, with the form that the grammar chose for it.
pub enum PathModel {
    AbEmpty(Seq<u8>),
    Absolute(Seq<u8>),
    NoScheme(Seq<u8>),
    Rootless(Seq<u8>),
    Empty,
}

impl PathModel {
    pub open spec fn text(self) -> Seq<u8> {
        match self {
            PathModel::AbEmpty(t) => t,
            PathModel::Absolute(t) => t,
            PathModel::NoScheme(t) => t,
            PathModel::Rootless(t) => t,
            PathModel::Empty => Seq::empty(),
        }
    }
}

/// `scheme ":" hier-part [ "?" query ] [ "#" fragment ]`
pub struct UriModel {
    pub scheme: Seq<u8>,
    pub authority: Option<AuthorityModel>,
    pub path: PathModel,
    pub query: Option<Seq<u8>>,
    pub fragment: Option<Seq<u8>>,
}

/// A whole scheme: a letter, then letters, digits, `+`, `-` and `.`.
pub open spec fn valid_scheme(t: Seq<u8>) -> bool {
    scheme_spec(t, 0) == Ok::<int, int>(t.len() as int)
}

/// A whole port: one or more decimal digits that write a number of at most 16 bits.
pub open spec fn valid_port(t: Seq<u8>) -> bool {
    t.len() > 0 && digit_run_end(t, 0) == t.len() && dec_value(t, 0, t.len() as int) <= port_max()
}

/// The number that a port's digits write.
pub open spec fn port_number(t: Seq<u8>) -> nat {
    dec_value(t, 0, t.len() as int)
}

/// `host = IP-literal / IPv4address / reg-name`, with its end.
pub open spec fn host_spec(s: Seq<u8>, i: int) -> Result<(HostModel, int), int> {
    match ip_literal_spec(s, i) {
        Ok(e) => Ok((HostModel::V6(s.subrange(i + 1, e - 1)), e)),
        Err(_) => match ipv4_spec(s, i) {
            Ok(e) => Ok((HostModel::V4(s.subrange(i, e)), e)),
            Err(_) => match reg_name_spec(s, i) {
                Ok(e) => Ok((HostModel::RegistryName(s.subrange(i, e)), e)),
                Err(p) => Err(p),
            },
        },
    }
}

/// The optional `userinfo "@"` at the start of an authority: the user information, and where
/// the host starts.
pub open spec fn userinfo_prefix(s: Seq<u8>, i: int) -> (Option<Seq<u8>>, int) {
    match userinfo_spec(s, i) {
        Ok(e) => if 0 <= e < s.len() && s[e] == AT {
            (Some(s.subrange(i, e)), e + 1)
        } else {
            (None, i)
        },
        Err(_) => (None, i),
    }
}

/// The optional `":" port` after a host at `h`: the port text, and where the authority ends.
/// A colon with no digits after it is consumed and gives no port; a colon whose digits do not
/// fit in 16 bits is left unconsumed.
pub open spec fn port_suffix(s: Seq<u8>, h: int) -> (Option<Seq<u8>>, int) {
    if 0 <= h < s.len() && s[h] == COLON {
        match port_spec(s, h + 1) {
            Ok(e) => if e == h + 1 {
                (None, e)
            } else {
                (Some(s.subrange(h + 1, e)), e)
            },
            Err(_) => (None, h),
        }
    } else {
        (None, h)
    }
}

/// `authority = [ userinfo "@" ] host [ ":" port ]`, with its end.
pub open spec fn authority_spec(s: Seq<u8>, i: int) -> Result<(AuthorityModel, int), int> {
    let (u, hs) = userinfo_prefix(s, i);
    match host_spec(s, hs) {
        Ok((h, he)) => {
            let (p, e) = port_suffix(s, he);
            Ok((AuthorityModel { userinfo: u, host: h, port: p }, e))
        },
        Err(p) => Err(p),
    }
}

/// `"//"` at `i`.
pub open spec fn double_slash_at(s: Seq<u8>, i: int) -> bool {
    0 <= i && i + 2 <= s.len() && s[i] == SLASH && s[i + 1] == SLASH
}

/// `hier-part = "//" authority path-abempty / path-absolute / path-rootless / path-empty`:
/// the authority, the path and the end.
pub open spec fn hier_part_spec(s: Seq<u8>, i: int) -> (Option<AuthorityModel>, PathModel, int) {
    if double_slash_at(s, i) && authority_spec(s, i + 2) is Ok {
        let (a, ae) = authority_spec(s, i + 2)->Ok_0;
        let pe = path_abempty_end(s, ae);
        (Some(a), PathModel::AbEmpty(s.subrange(ae, pe)), pe)
    } else {
        match path_absolute_spec(s, i) {
            Ok(e) => (None, PathModel::Absolute(s.subrange(i, e)), e),
            Err(_) => match path_rootless_spec(s, i) {
                Ok(e) => (None, PathModel::Rootless(s.subrange(i, e)), e),
                Err(_) => (None, PathModel::Empty, i),
            },
        }
    }
}

/// `path = path-absolute / path-noscheme / path-rootless / path-abempty / path-empty`, where
/// the first form that matches wins.
pub open spec fn path_spec(s: Seq<u8>, i: int) -> (PathModel, int) {
    match path_absolute_spec(s, i) {
        Ok(e) => (PathModel::Absolute(s.subrange(i, e)), e),
        Err(_) => match path_noscheme_spec(s, i) {
            Ok(e) => (PathModel::NoScheme(s.subrange(i, e)), e),
            Err(_) => match path_rootless_spec(s, i) {
                Ok(e) => (PathModel::Rootless(s.subrange(i, e)), e),
                Err(_) => (PathModel::AbEmpty(s.subrange(i, path_abempty_end(s, i))), path_abempty_end(s, i)),
            },
        },
    }
}

/// An optional part that a delimiter byte `d` at `i` introduces: its text and its end.
pub open spec fn delimited_part(s: Seq<u8>, i: int, d: u8) -> (Option<Seq<u8>>, int) {
    if 0 <= i < s.len() && s[i] == d {
        let e = query_end(s, i + 1);
        (Some(s.subrange(i + 1, e)), e)
    } else {
        (None, i)
    }
}

/// `URI = scheme ":" hier-part [ "?" query ] [ "#" fragment ]`, matched at the start of `s`:
/// the URI and how many bytes it takes, or where matching stopped.
#[verifier::opaque]
pub open spec fn uri_spec(s: Seq<u8>) -> Result<(UriModel, int), int> {
    match scheme_spec(s, 0) {
        Ok(se) => if se < s.len() && s[se] == COLON {
            let (a, p, he) = hier_part_spec(s, se + 1);
            let (q, qe) = delimited_part(s, he, QUESTION);
            let (f, fe) = delimited_part(s, qe, HASH);
            Ok((UriModel { scheme: s.subrange(0, se), authority: a, path: p, query: q, fragment: f }, fe))
        } else {
            Err(se)
        },
        Err(p) => Err(p),
    }
}

} // verus!
