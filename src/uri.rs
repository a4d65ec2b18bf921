//! A parsed URI: every textual part is a view into the text that it was parsed from.
use vstd::prelude::*;
use vstd::string::StringSliceAdditionalSpecFns;

use vstd::utf8::{encode_utf8_valid_utf8, pop_first_scalar, valid_utf8};

use crate::error::Error;
use crate::grammar::{
    COLON, CharClass, HASH, QUESTION, ascii, dec_value, digit_run_end, is_digit,
    lemma_digit_run_cut, port_spec,
    query_end, scheme_spec, userinfo_spec,
};
use crate::model::{
    AuthorityModel, HostModel, PathModel, UriModel, host_spec, path_spec, port_number, uri_spec,
    valid_port, valid_scheme,
};
use crate::parser::{host_at, path_at, rest, uri_at};
use crate::render::{
    after_delimiter, authority_part, lemma_put_stop, lemma_put_then, put, render, write_after,
    write_authority_part, write_pair_after, write_text,
};
use crate::scan::{dec_digits_at, port_at, run1_at, run_end_at, scheme_at};
use crate::segments::{PathSegments, path_segments_of};
use crate::text::{ str_from_utf8};

verus! {

broadcast use vstd::slice::axiom_spec_len;

/// The host of an authority; the text of an IP literal leaves out its brackets.
#[derive(Debug, PartialEq, Eq, Clone, Copy, Hash, Ord, PartialOrd)]
pub enum Host<'uri> {
    RegistryName(&'uri str),
    V4(&'uri str),
    V6(&'uri str),
    VFuture(&'uri str),
}

impl<'uri> View for Host<'uri> {
    type V = HostModel;

    open spec fn view(&self) -> HostModel {
        match *self {
            Host::RegistryName(t) => HostModel::RegistryName(t.spec_bytes()),
            Host::V4(t) => HostModel::V4(t.spec_bytes()),
            Host::V6(t) => HostModel::V6(t.spec_bytes()),
            Host::VFuture(t) => HostModel::VFuture(t.spec_bytes()),
        }
    }
}

/// The text of an optional part.
pub open spec fn opt_bytes(t: Option<&str>) -> Option<Seq<u8>> {
    match t {
        Some(x) => Some(x.spec_bytes()),
        None => None,
    }
}

/// `[ userinfo "@" ] host [ ":" port ]`
#[derive(Debug, PartialEq, Eq, Clone, Copy, Hash, Ord, PartialOrd)]
pub struct Authority<'uri> {
    pub userinfo: Option<&'uri str>,
    pub host: Host<'uri>,
    pub port: Option<&'uri str>,
}

impl<'uri> View for Authority<'uri> {
    type V = AuthorityModel;

    open spec fn view(&self) -> AuthorityModel {
        AuthorityModel { userinfo: opt_bytes(self.userinfo), host: self.host@, port: opt_bytes(self.port) }
    }
}

/// A path, in the form that the grammar chose for it.
#[derive(Debug, PartialEq, Eq, Clone, Copy, Hash, Ord, PartialOrd)]
pub enum Path<'uri> {
    AbEmpty(&'uri str),
    Absolute(&'uri str),
    NoScheme(&'uri str),
    Rootless(&'uri str),
    Empty,
}

impl<'uri> View for Path<'uri> {
    type V = PathModel;

    open spec fn view(&self) -> PathModel {
        match *self {
            Path::AbEmpty(t) => PathModel::AbEmpty(t.spec_bytes()),
            Path::Absolute(t) => PathModel::Absolute(t.spec_bytes()),
            Path::NoScheme(t) => PathModel::NoScheme(t.spec_bytes()),
            Path::Rootless(t) => PathModel::Rootless(t.spec_bytes()),
            Path::Empty => PathModel::Empty,
        }
    }
}

/// The text after `?`.
#[derive(Debug, PartialEq, Eq, Clone, Copy, Hash, Ord, PartialOrd)]
pub struct Query<'uri>(pub &'uri str);

impl<'uri> View for Query<'uri> {
    type V = Seq<u8>;

    open spec fn view(&self) -> Seq<u8> {
        self.0.spec_bytes()
    }
}

/// The text after `#`.
#[derive(Debug, PartialEq, Eq, Clone, Copy, Hash, Ord, PartialOrd)]
pub struct Fragment<'uri>(pub &'uri str);

impl<'uri> View for Fragment<'uri> {
    type V = Seq<u8>;

    open spec fn view(&self) -> Seq<u8> {
        self.0.spec_bytes()
    }
}

} // verus!

verus! {

/// A URI whose parts are views into text that outlives it.
#[derive(Debug, PartialEq, Eq, Hash, Ord, PartialOrd)]
pub struct Uri<'uri> {
    scheme: &'uri str,
    authority: Option<Authority<'uri>>,
    path: Path<'uri>,
    query: Option<Query<'uri>>,
    fragment: Option<Fragment<'uri>>,
}

/// What holds of every URI: its scheme is a scheme, a port is a 16-bit number, and a host is
/// never of the future form, which the grammar does not accept.
pub open spec fn well_formed(m: UriModel) -> bool {
    &&& valid_scheme(m.scheme)
    &&& match m.authority {
        Some(a) => {
            &&& !(a.host is VFuture)
            &&& match a.port {
                Some(p) => valid_port(p),
                None => true,
            }
        },
        None => true,
    }
}

impl<'uri> View for Uri<'uri> {
    type V = UriModel;

    closed spec fn view(&self) -> UriModel {
        UriModel {
            scheme: self.scheme.spec_bytes(),
            authority: match self.authority {
                Some(a) => Some(a@),
                None => None,
            },
            path: self.path@,
            query: match self.query {
                Some(q) => Some(q@),
                None => None,
            },
            fragment: match self.fragment {
                Some(f) => Some(f@),
                None => None,
            },
        }
    }
}

impl<'uri> Uri<'uri> {
    #[verifier::type_invariant]
    closed spec fn inv(&self) -> bool {
        well_formed(self@)
    }

    /// A URI made of parts that the grammar produced.
    pub(crate) fn from_parts(
        scheme: &'uri str,
        authority: Option<Authority<'uri>>,
        path: Path<'uri>,
        query: Option<Query<'uri>>,
        fragment: Option<Fragment<'uri>>,
    ) -> (r: Self)
        requires
            well_formed(
                UriModel {
                    scheme: scheme.spec_bytes(),
                    authority: match authority {
                        Some(a) => Some(a@),
                        None => None,
                    },
                    path: path@,
                    query: match query {
                        Some(q) => Some(q@),
                        None => None,
                    },
                    fragment: match fragment {
                        Some(f) => Some(f@),
                        None => None,
                    },
                },
            ),
        ensures
            r@.scheme == scheme.spec_bytes(),
            r@.authority == match authority {
                Some(a) => Some(a@),
                None => None::<AuthorityModel>,
            },
            r@.path == path@,
            r@.query == match query {
                Some(q) => Some(q@),
                None => None::<Seq<u8>>,
            },
            r@.fragment == match fragment {
                Some(f) => Some(f@),
                None => None::<Seq<u8>>,
            },
    {
        Uri { scheme, authority, path, query, fragment }
    }
}

} // verus!

verus! {

/// How a parse that stopped at `p` fails: a parse error, or a conversion error where the
/// bytes from `p` on are not UTF-8.
pub open spec fn fails_at<T>(r: Result<T, Error>, s: Seq<u8>, p: int) -> bool {
    if valid_utf8(rest(s, p)) {
        r == Err::<T, Error>(Error::ParseError)
    } else {
        r matches Err(Error::Conversion(_))
    }
}

/// The text of the host of an authority, if any.
pub open spec fn host_text_of(m: UriModel) -> Option<Seq<u8>> {
    match m.authority {
        Some(a) => Some(a.host.text()),
        None => None,
    }
}

/// The port number of a URI, if it has one.
pub open spec fn port_of(m: UriModel) -> Option<nat> {
    match m.authority {
        Some(a) => match a.port {
            Some(p) => Some(port_number(p)),
            None => None,
        },
        None => None,
    }
}

/// Bytes after an ASCII prefix of valid UTF-8 are valid UTF-8.
proof fn lemma_valid_utf8_after_ascii(s: Seq<u8>, p: int)
    requires
        valid_utf8(s),
        0 <= p <= s.len(),
        ascii(s, 0, p),
    ensures
        valid_utf8(s.subrange(p, s.len() as int)),
    decreases p,
{
    if p == 0 {
        assert(s.subrange(0, s.len() as int) =~= s);
    } else {
        let t = s.subrange(1, s.len() as int);
        assert(s[0] < 128);
        assert(pop_first_scalar(s) =~= t);
        lemma_valid_utf8_after_ascii(t, p - 1);
        assert(t.subrange(p - 1, t.len() as int) =~= s.subrange(p, s.len() as int));
    }
}

impl<'uri> Uri<'uri> {
    /// Parses the whole of `input` as a URI. Input that holds more than a URI fails at the
    /// first byte that the URI does not take.
    pub fn parse(input: &'uri str) -> (r: Result<Self, Error>)
        ensures
            match uri_spec(input.spec_bytes()) {
                Ok((m, e)) => if e == input.spec_bytes().len() {
                    r matches Ok(u) && u@ == m
                } else {
                    r == Err::<Self, Error>(Error::ParseError)
                },
                Err(_) => r == Err::<Self, Error>(Error::ParseError),
            },
            r matches Ok(u) ==> well_formed(u@),
    {
        let b = input.as_bytes();
        let r = Self::parse_bytes(b);
        proof {
            encode_utf8_valid_utf8(input@);
            match uri_spec(b@) {
                Ok((_, e)) => if e < b@.len() {
                    lemma_valid_utf8_after_ascii(b@, e);
                },
                Err(p) => lemma_valid_utf8_after_ascii(b@, p),
            }
        }
        r
    }

    /// Parses the whole of `input` as a URI. Input that holds more than a URI fails at the
    /// first byte that the URI does not take; a failure where the bytes from there on are not
    /// UTF-8 is a conversion error.
    pub fn parse_bytes(input: &'uri [u8]) -> (r: Result<Self, Error>)
        ensures
            match uri_spec(input@) {
                Ok((m, e)) => if e == input@.len() {
                    r matches Ok(u) && u@ == m
                } else {
                    fails_at(r, input@, e)
                },
                Err(p) => fails_at(r, input@, p),
            },
            r matches Ok(u) ==> well_formed(u@),
            match uri_spec(input@) {
                Ok((_, e)) => 0 <= e <= input@.len() && ascii(input@, 0, e),
                Err(p) => 0 <= p <= input@.len() && ascii(input@, 0, p),
            },
    {
        let p = match uri_at(input) {
            Ok((u, e)) => {
                if e == input.len() {
                    proof {
                        use_type_invariant(&u);
                    }
                    return Ok(u);
                }
                e
            },
            Err(p) => p,
        };
        match str_from_utf8(vstd::slice::slice_subrange(input, p, input.len())) {
            Ok(_) => Err(Error::ParseError),
            Err(e) => Err(Error::Conversion(e)),
        }
    }

    /// The scheme, without its `:`.
    pub fn scheme(&self) -> (r: &str)
        ensures
            r.spec_bytes() == self@.scheme,
    {
        self.scheme
    }

    /// Whether the URI has an authority.
    pub fn has_authority(&self) -> (r: bool)
        ensures
            r == self@.authority is Some,
    {
        self.authority.is_some()
    }

    /// The user information of the authority, if any.
    pub fn userinfo(&self) -> (r: Option<&str>)
        ensures
            opt_bytes(r) == match self@.authority {
                Some(a) => a.userinfo,
                None => None,
            },
    {
        match self.authority {
            Some(auth) => auth.userinfo,
            None => None,
        }
    }

    /// The authority, if any.
    pub fn authority(&self) -> (r: Option<Authority<'uri>>)
        ensures
            match self@.authority {
                Some(a) => r matches Some(x) && x@ == a,
                None => r is None,
            },
    {
        self.authority
    }

    /// Whether the URI has a host; a host is what makes an authority, so this is whether it has
    /// an authority.
    pub fn has_host(&self) -> (r: bool)
        ensures
            r == self@.authority is Some,
    {
        self.has_authority()
    }

    /// The text of the host, if any; an IP literal comes without its brackets.
    pub fn host_str(&self) -> (r: Option<&str>)
        ensures
            opt_bytes(r) == host_text_of(self@),
    {
        match self.authority {
            Some(auth) => match auth.host {
                Host::RegistryName(name) => Some(name),
                Host::V4(addr) => Some(addr),
                Host::V6(addr) => Some(addr),
                Host::VFuture(addr) => Some(addr),
            },
            None => None,
        }
    }

    /// The host, if any.
    pub fn host(&self) -> (r: Option<Host>)
        ensures
            match self@.authority {
                Some(a) => r matches Some(h) && h@ == a.host,
                None => r is None,
            },
    {
        match self.authority {
            Some(auth) => Some(auth.host),
            None => None,
        }
    }

    /// The host, if it is a registry name rather than an IP address.
    pub fn domain(&self) -> (r: Option<&str>)
        ensures
            opt_bytes(r) == match self@.authority {
                Some(a) => match a.host {
                    HostModel::RegistryName(t) => Some(t),
                    _ => None,
                },
                None => None,
            },
    {
        match self.host() {
            Some(Host::RegistryName(name)) => Some(name),
            _ => None,
        }
    }

    /// The port number, if any.
    pub fn port(&self) -> (r: Option<u16>)
        ensures
            match port_of(self@) {
                Some(n) => r matches Some(v) && v as nat == n,
                None => r is None,
            },
    {
        proof {
            use_type_invariant(self);
        }
        match self.authority {
            Some(auth) => match auth.port {
                Some(port) => {
                    let b = port.as_bytes();
                    let (_, _) = dec_digits_at(b, 0, 65535);
                    Some(port_value(b))
                },
                None => None,
            },
            None => None,
        }
    }

    /// The path, which may be empty.
    pub fn path(&self) -> (r: &str)
        ensures
            r.spec_bytes() == self@.path.text(),
    {
        match self.path {
            Path::AbEmpty(p) => p,
            Path::Absolute(p) => p,
            Path::NoScheme(p) => p,
            Path::Rootless(p) => p,
            Path::Empty => {
                proof {
                    reveal_strlit("");
                }
                ""
            },
        }
    }

    /// The query, without its `?`, if any.
    pub fn query(&self) -> (r: Option<&str>)
        ensures
            opt_bytes(r) == self@.query,
    {
        match self.query {
            Some(Query(q)) => Some(q),
            None => None,
        }
    }

    /// The fragment, without its `#`, if any; percent-encoded octets stay as they are.
    pub fn fragment(&self) -> (r: Option<&str>)
        ensures
            opt_bytes(r) == self@.fragment,
    {
        match self.fragment {
            Some(Fragment(f)) => Some(f),
            None => None,
        }
    }
}

/// The number that a whole port writes.
fn port_value(b: &[u8]) -> (r: u16)
    requires
        valid_port(b@),
    ensures
        r as nat == port_number(b@),
{
    let mut pos: usize = 0;
    let mut acc: u32 = 0;
    while pos < b.len()
        invariant
            pos <= b@.len(),
            valid_port(b@),
            acc as nat == dec_value(b@, 0, pos as int),
            acc <= 65535,
        decreases b@.len() - pos,
    {
        proof {
            assert forall|m: int| 0 <= m < b@.len() implies is_digit(#[trigger] b@[m]) by {
                lemma_digits_within(b@, m);
            }
            lemma_dec_value_monotone(b@, pos as int + 1, b@.len() as int);
        }
        acc = acc * 10 + (b[pos] - 0x30) as u32;
        pos = pos + 1;
    }
    acc as u16
}

/// Every byte of a whole port is a digit.
proof fn lemma_digits_within(b: Seq<u8>, k: int)
    requires
        valid_port(b),
        0 <= k < b.len(),
    ensures
        is_digit(b[k]),
{
    lemma_digit_run_stops(b, 0, k);
}

proof fn lemma_digit_run_stops(b: Seq<u8>, j: int, k: int)
    requires
        0 <= j <= k < b.len(),
        digit_run_end(b, j) == b.len(),
    ensures
        is_digit(b[k]),
    decreases k - j,
{
    if !(is_digit(b[j])) {
        assert(digit_run_end(b, j) == j);
    } else if j < k {
        lemma_digit_run_stops(b, j + 1, k);
    }
}

/// The number written by a prefix of digits is at most that of a longer prefix.
proof fn lemma_dec_value_monotone(b: Seq<u8>, j: int, k: int)
    requires
        0 <= j <= k <= b.len(),
        forall|m: int| 0 <= m < b.len() ==> is_digit(#[trigger] b[m]),
    ensures
        dec_value(b, 0, j) <= dec_value(b, 0, k),
    decreases k - j,
{
    if j < k {
        lemma_dec_value_monotone(b, j, k - 1);
        assert(dec_value(b, 0, k - 1) * 10 >= dec_value(b, 0, k - 1)) by (nonlinear_arith);
    }
}

} // verus!

verus! {

/// How a change of a URI ended: with success and the new URI, or with an error and the URI
/// left as it was.
pub open spec fn applied(
    r: Result<(), Error>,
    before: UriModel,
    after: UriModel,
    outcome: Result<UriModel, Error>,
) -> bool {
    match outcome {
        Ok(m) => r is Ok && after == m,
        Err(e) => r == Err::<(), Error>(e) && after == before,
    }
}

/// The URI with a new fragment, or with none; the text must be a fragment as a whole.
pub open spec fn fragment_set(m: UriModel, t: Option<Seq<u8>>) -> Result<UriModel, Error> {
    match t {
        None => Ok(UriModel { fragment: None, ..m }),
        Some(x) => if query_end(x, 0) == x.len() {
            Ok(UriModel { fragment: Some(x), ..m })
        } else {
            Err(Error::ParseError)
        },
    }
}

/// The URI with a new query, or with none; the text must be a query as a whole.
pub open spec fn query_set(m: UriModel, t: Option<Seq<u8>>) -> Result<UriModel, Error> {
    match t {
        None => Ok(UriModel { query: None, ..m }),
        Some(x) => if query_end(x, 0) == x.len() {
            Ok(UriModel { query: Some(x), ..m })
        } else {
            Err(Error::ParseError)
        },
    }
}

/// The URI with a new path, in the form that the path production chose; the production must
/// take the text as a whole.
pub open spec fn path_set(m: UriModel, t: Seq<u8>) -> Result<UriModel, Error> {
    if path_spec(t, 0).1 == t.len() {
        Ok(UriModel { path: path_spec(t, 0).0, ..m })
    } else {
        Err(Error::ParseError)
    }
}

/// The URI with a new scheme; the text must be a scheme as a whole.
pub open spec fn scheme_set(m: UriModel, t: Seq<u8>) -> Result<UriModel, Error> {
    if scheme_spec(t, 0) == Ok::<int, int>(t.len() as int) {
        Ok(UriModel { scheme: t, ..m })
    } else {
        Err(Error::ParseError)
    }
}

/// The URI with a new port, or with none: the text must be a port as a whole, and no digits
/// remove the port.
pub open spec fn port_set(m: UriModel, t: Option<Seq<u8>>) -> Result<UriModel, Error> {
    match m.authority {
        None => Err(Error::NoAuthority),
        Some(a) => match t {
            None => Ok(UriModel { authority: Some(AuthorityModel { port: None, ..a }), ..m }),
            Some(x) => if port_spec(x, 0) == Ok::<int, int>(x.len() as int) {
                Ok(
                    UriModel {
                        authority: Some(
                            AuthorityModel {
                                port: if x.len() == 0 {
                                    None
                                } else {
                                    Some(x)
                                },
                                ..a
                            },
                        ),
                        ..m
                    },
                )
            } else {
                Err(Error::ParseError)
            },
        },
    }
}

/// The URI with a new host, or with no authority at all when the host is removed; the text
/// must be a host as a whole.
pub open spec fn host_set(m: UriModel, t: Option<Seq<u8>>) -> Result<UriModel, Error> {
    match t {
        None => Ok(UriModel { authority: None, ..m }),
        Some(x) => match m.authority {
            None => Err(Error::NoAuthority),
            Some(a) => match host_spec(x, 0) {
                Ok((h, e)) => if e == x.len() {
                    Ok(UriModel { authority: Some(AuthorityModel { host: h, ..a }), ..m })
                } else {
                    Err(Error::ParseError)
                },
                Err(_) => Err(Error::ParseError),
            },
        },
    }
}

/// The URI with new user information, or with none; the text must be user information as a
/// whole.
pub open spec fn userinfo_set(m: UriModel, t: Option<Seq<u8>>) -> Result<UriModel, Error> {
    match m.authority {
        None => Err(Error::NoAuthority),
        Some(a) => match t {
            None => Ok(UriModel { authority: Some(AuthorityModel { userinfo: None, ..a }), ..m }),
            Some(x) => if userinfo_spec(x, 0) == Ok::<int, int>(x.len() as int) {
                Ok(UriModel { authority: Some(AuthorityModel { userinfo: Some(x), ..a }), ..m })
            } else {
                Err(Error::ParseError)
            },
        },
    }
}

impl<'uri> Uri<'uri> {
    /// Sets or removes the fragment. Text that is not a fragment as a whole is refused.
    pub fn set_fragment<'a: 'uri>(&mut self, fragment: Option<&'a str>) -> (r: Result<(), Error>)
        ensures
            applied(r, old(self)@, final(self)@, fragment_set(old(self)@, opt_bytes(fragment))),
    {
        proof {
            use_type_invariant(&*self);
        }
        self.fragment = match fragment {
            Some(t) => {
                let b = t.as_bytes();
                if run_end_at(CharClass::QueryChar, b, 0) != b.len() {
                    return Err(Error::ParseError);
                }
                Some(Fragment(t))
            },
            None => None,
        };
        Ok(())
    }

    /// Sets or removes the query. Text that is not a query as a whole is refused.
    pub fn set_query<'a: 'uri>(&mut self, query: Option<&'a str>) -> (r: Result<(), Error>)
        ensures
            applied(r, old(self)@, final(self)@, query_set(old(self)@, opt_bytes(query))),
    {
        proof {
            use_type_invariant(&*self);
        }
        self.query = match query {
            Some(t) => {
                let b = t.as_bytes();
                if run_end_at(CharClass::QueryChar, b, 0) != b.len() {
                    return Err(Error::ParseError);
                }
                Some(Query(t))
            },
            None => None,
        };
        Ok(())
    }

    /// Sets the path, in the form that the path production chooses for the text; text that
    /// the production does not take as a whole is refused. The form is not checked against the
    /// presence of an authority.
    pub fn set_path<'a: 'uri>(&mut self, path: &'a str) -> (r: Result<(), Error>)
        ensures
            applied(r, old(self)@, final(self)@, path_set(old(self)@, path.spec_bytes())),
    {
        proof {
            use_type_invariant(&*self);
        }
        let (p, e) = path_at(path.as_bytes(), 0);
        if e != path.as_bytes().len() {
            return Err(Error::ParseError);
        }
        self.path = p;
        Ok(())
    }

    /// Sets or removes the port of the authority. Text that is not a port as a whole is
    /// refused; empty text removes the port.
    pub fn set_port<'a: 'uri>(&mut self, port: Option<&'a str>) -> (r: Result<(), Error>)
        ensures
            applied(r, old(self)@, final(self)@, port_set(old(self)@, opt_bytes(port))),
    {
        proof {
            use_type_invariant(&*self);
        }
        match self.authority {
            Some(auth) => {
                let p = match port {
                    Some(t) => {
                        let b = t.as_bytes();
                        match port_at(b, 0) {
                            Ok(e) => {
                                if e != b.len() {
                                    return Err(Error::ParseError);
                                }
                                if e == 0 {
                                    None
                                } else {
                                    proof {
                                        lemma_digit_run_cut(b@, 0, e as int);
                                        assert(b@.subrange(0, e as int) =~= b@);
                                    }
                                    Some(t)
                                }
                            },
                            Err(_) => return Err(Error::ParseError),
                        }
                    },
                    None => None,
                };
                self.authority = Some(Authority { userinfo: auth.userinfo, host: auth.host, port: p });
                Ok(())
            },
            None => Err(Error::NoAuthority),
        }
    }

    /// Sets the host of the authority, or removes the whole authority with `None`. Text that is
    /// not a host as a whole is refused.
    pub fn set_host<'a: 'uri>(&mut self, host: Option<&'a str>) -> (r: Result<(), Error>)
        ensures
            applied(r, old(self)@, final(self)@, host_set(old(self)@, opt_bytes(host))),
    {
        proof {
            use_type_invariant(&*self);
        }
        match host {
            None => {
                self.authority = None;
                Ok(())
            },
            Some(t) => match self.authority {
                Some(auth) => {
                    let h = match host_at(t.as_bytes(), 0) {
                        Ok((h, e)) => {
                            if e != t.as_bytes().len() {
                                return Err(Error::ParseError);
                            }
                            h
                        },
                        Err(_) => return Err(Error::ParseError),
                    };
                    self.authority = Some(Authority { userinfo: auth.userinfo, host: h, port: auth.port });
                    Ok(())
                },
                None => Err(Error::NoAuthority),
            },
        }
    }

    /// Sets or removes the user information of the authority. Text that is not user information
    /// as a whole is refused.
    pub fn set_userinfo<'a: 'uri>(&mut self, userinfo: Option<&'a str>) -> (r: Result<(), Error>)
        ensures
            applied(r, old(self)@, final(self)@, userinfo_set(old(self)@, opt_bytes(userinfo))),
    {
        proof {
            use_type_invariant(&*self);
        }
        match self.authority {
            Some(auth) => {
                let u = match userinfo {
                    Some(t) => match run1_at(CharClass::UserInfo, t.as_bytes(), 0) {
                        Ok(e) => {
                            if e != t.as_bytes().len() {
                                return Err(Error::ParseError);
                            }
                            Some(t)
                        },
                        Err(_) => return Err(Error::ParseError),
                    },
                    None => None,
                };
                self.authority = Some(Authority { userinfo: u, host: auth.host, port: auth.port });
                Ok(())
            },
            None => Err(Error::NoAuthority),
        }
    }

    /// Sets the scheme. Text that is not a scheme as a whole is refused.
    pub fn set_scheme<'a: 'uri>(&mut self, scheme: &'a str) -> (r: Result<(), Error>)
        ensures
            applied(r, old(self)@, final(self)@, scheme_set(old(self)@, scheme.spec_bytes())),
    {
        proof {
            use_type_invariant(&*self);
        }
        let b = scheme.as_bytes();
        match scheme_at(b, 0) {
            Ok(e) => {
                if e != b.len() {
                    return Err(Error::ParseError);
                }
                self.scheme = scheme;
                Ok(())
            },
            Err(_) => Err(Error::ParseError),
        }
    }
}

} // verus!

verus! {

impl<'uri> Uri<'uri> {
    /// Writes the text of the URI into `buf` from `*cur` on, part after part.
    pub(crate) fn write_to(&self, buf: &mut [u8], cur: &mut usize) -> (r: Result<(), Error>)
        requires
            *old(cur) <= old(buf)@.len(),
        ensures
            put(r, old(buf)@, *old(cur) as int, final(buf)@, *final(cur) as int, render(self@)),
            valid_utf8(old(buf)@.subrange(0, *old(cur) as int)) ==> valid_utf8(
                final(buf)@.subrange(0, *final(cur) as int),
            ),
    {
        let ghost b0 = buf@;
        let ghost c0 = *cur as int;
        let ghost whole = render(self@);
        let ghost done = self@.scheme + seq![COLON];
        let r1 = write_pair_after(buf, cur, self.scheme, COLON);
        if r1.is_err() {
            proof {
                lemma_put_stop(r1, b0, c0, buf@, *cur as int, done, whole);
            }
            return r1;
        }
        let ghost b1 = buf@;
        let ghost c1 = *cur as int;
        let r2 = write_authority_part(buf, cur, self.authority);
        proof {
            lemma_put_then(r1, r2, b0, c0, b1, c1, buf@, *cur as int, done, authority_part(self@.authority));
        }
        let ghost done = done + authority_part(self@.authority);
        if r2.is_err() {
            proof {
                lemma_put_stop(r2, b0, c0, buf@, *cur as int, done, whole);
            }
            return r2;
        }
        let ghost b2 = buf@;
        let ghost c2 = *cur as int;
        let r3 = write_text(buf, cur, self.path());
        proof {
            lemma_put_then(r2, r3, b0, c0, b2, c2, buf@, *cur as int, done, self@.path.text());
        }
        let ghost done = done + self@.path.text();
        if r3.is_err() {
            proof {
                lemma_put_stop(r3, b0, c0, buf@, *cur as int, done, whole);
            }
            return r3;
        }
        let ghost b3 = buf@;
        let ghost c3 = *cur as int;
        let r4 = write_after(buf, cur, QUESTION, self.query());
        proof {
            lemma_put_then(r3, r4, b0, c0, b3, c3, buf@, *cur as int, done, after_delimiter(QUESTION, self@.query));
        }
        let ghost done = done + after_delimiter(QUESTION, self@.query);
        if r4.is_err() {
            proof {
                lemma_put_stop(r4, b0, c0, buf@, *cur as int, done, whole);
            }
            return r4;
        }
        let ghost b4 = buf@;
        let ghost c4 = *cur as int;
        let r5 = write_after(buf, cur, HASH, self.fragment());
        proof {
            lemma_put_then(r4, r5, b0, c0, b4, c4, buf@, *cur as int, done, after_delimiter(HASH, self@.fragment));
        }
        r5
    }

    /// Writes the text of the URI at the start of `buffer` and gives it back as text that
    /// borrows the buffer; the bytes after it are left as they were. When the text does not
    /// fit, fails with `BufferToSmall`. The text written is parsed again as a check, and fails
    /// with `ParseError` where it is not a URI as a whole; for a URI that was parsed, and not
    /// changed since, that cannot happen.
    pub fn as_str<'a>(&self, buffer: &'a mut [u8]) -> (r: Result<&'a str, Error>)
        ensures
            render(self@).len() > old(buffer)@.len() ==> r == Err::<&'a str, Error>(
                Error::BufferToSmall,
            ),
            render(self@).len() <= old(buffer)@.len() ==> written_out(
                r,
                old(buffer)@,
                final(buffer)@,
                render(self@),
            ),
    {
        let mut cur: usize = 0;
        assert(buffer@.subrange(0, 0) =~= Seq::<u8>::empty());
        if self.write_to(buffer, &mut cur).is_err() {
            return Err(Error::BufferToSmall);
        }
        let ghost text = render(self@);
        let ghost before = old(buffer)@;
        assert(valid_utf8(buffer@.subrange(0, cur as int)));
        assert(buffer@.subrange(0, cur as int) =~= text);
        assert(cur as int == text.len());
        assert(buffer@.subrange(cur as int, buffer@.len() as int) =~= before.subrange(
            cur as int,
            before.len() as int,
        ));
        let bytes: &'a [u8] = buffer;
        let out = vstd::slice::slice_subrange(bytes, 0, cur);
        match str_from_utf8(out) {
            Ok(t) => match Uri::parse(t) {
                Ok(_) => Ok(t),
                Err(e) => Err(e),
            },
            Err(e) => Err(Error::Conversion(e)),
        }
    }
}

/// How writing out `text` into a buffer that holds it ended: the buffer starts with the text
/// and keeps its other bytes; the text is given back when it parses as a URI as a whole, and
/// a parse error otherwise.
pub open spec fn written_out(r: Result<&str, Error>, before: Seq<u8>, after: Seq<u8>, text: Seq<u8>) -> bool {
    &&& after.len() == before.len()
    &&& after.subrange(0, text.len() as int) == text
    &&& after.subrange(text.len() as int, after.len() as int) == before.subrange(
        text.len() as int,
        before.len() as int,
    )
    &&& if reparses(text) {
        r matches Ok(t) && t.spec_bytes() == text
    } else {
        r == Err::<&str, Error>(Error::ParseError)
    }
}

/// `text` parses as a URI as a whole.
pub open spec fn reparses(text: Seq<u8>) -> bool {
    uri_spec(text) matches Ok((_, e)) && e == text.len()
}

} // verus!

verus! {

impl<'uri> Uri<'uri> {
    /// The `/`-separated segments of the path, after one leading `/`; an empty path has one
    /// empty segment.
    pub fn path_segments(&self) -> (r: PathSegments)
        ensures
            r@ == path_segments_of(self@.path.text()),
    {
        PathSegments::new(self.path())
    }
}

impl<'uri> Authority<'uri> {
    /// The number of bytes of the user information, the host and the port together.
    pub fn len(&self) -> (r: usize)
        requires
            opt_len(self@.userinfo) + self.host@.text().len() + opt_len(self@.port) <= usize::MAX,
        ensures
            r == opt_len(self@.userinfo) + self.host@.text().len() + opt_len(self@.port),
    {
        let u = match self.userinfo {
            Some(t) => t.as_bytes().len(),
            None => 0,
        };
        let p = match self.port {
            Some(t) => t.as_bytes().len(),
            None => 0,
        };
        u + self.host.len() + p
    }
}

/// The length of an optional part; none counts as empty.
pub open spec fn opt_len(t: Option<Seq<u8>>) -> int {
    match t {
        Some(x) => x.len() as int,
        None => 0,
    }
}

impl<'uri> Host<'uri> {
    /// The number of bytes of the host's text.
    pub fn len(&self) -> (r: usize)
        ensures
            r == self@.text().len(),
    {
        match self {
            Host::RegistryName(s) => s.as_bytes().len(),
            Host::VFuture(s) => s.as_bytes().len(),
            Host::V4(s) => s.as_bytes().len(),
            Host::V6(s) => s.as_bytes().len(),
        }
    }
}

impl<'uri> Path<'uri> {
    /// The number of bytes of the path.
    pub fn len(&self) -> (r: usize)
        ensures
            r == self@.text().len(),
    {
        match self {
            Path::AbEmpty(s) => s.as_bytes().len(),
            Path::Absolute(s) => s.as_bytes().len(),
            Path::NoScheme(s) => s.as_bytes().len(),
            Path::Rootless(s) => s.as_bytes().len(),
            Path::Empty => 0,
        }
    }
}

impl<'uri> Query<'uri> {
    /// The number of bytes of the query.
    pub fn len(&self) -> (r: usize)
        ensures
            r == self@.len(),
    {
        self.0.as_bytes().len()
    }
}

impl<'uri> Fragment<'uri> {
    /// The number of bytes of the fragment.
    pub fn len(&self) -> (r: usize)
        ensures
            r == self@.len(),
    {
        self.0.as_bytes().len()
    }
}

/// Something that can be written as a URI into a buffer.
pub trait ToUri {
    fn to_uri<'uri>(&self, buffer: &'uri mut str) -> Uri<'uri>;
}

/// Something that can be made from a URI.
pub trait FromUri: Sized {
    fn from_uri(uri: &Uri) -> Self;
}

} // verus!

verus! {

/// Parsing by conversion from text.
impl<'s> core::convert::TryFrom<&'s str> for Uri<'s> {
    type Error = Error;

    fn try_from(string: &'s str) -> (r: Result<Self, Error>)
        ensures
            match uri_spec(string.spec_bytes()) {
                Ok((m, e)) => if e == string.spec_bytes().len() {
                    r matches Ok(u) && u@ == m
                } else {
                    r == Err::<Self, Error>(Error::ParseError)
                },
                Err(_) => r == Err::<Self, Error>(Error::ParseError),
            },
    {
        Uri::parse(string)
    }
}

/// The conversion is described by the contract of `try_from` itself; no spec-level conversion
/// is claimed.
impl<'s> vstd::std_specs::convert::TryFromSpecImpl<&'s str> for Uri<'s> {
    open spec fn obeys_try_from_spec() -> bool {
        false
    }

    open spec fn try_from_spec(v: &'s str) -> Result<Self, Error> {
        Err(Error::ParseError)
    }
}

} // verus!
