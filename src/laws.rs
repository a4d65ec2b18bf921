//! What holds between parsing and writing out.
use vstd::prelude::*;

use crate::grammar::{
    CharClass, COLON, HASH, QUESTION, SLASH, ip_literal_spec, lemma_digit_run_bounds,
    lemma_ip_literal_bounds, lemma_ipv4_bounds, lemma_path_abempty_bounds, lemma_path_bounds,
    lemma_run_end_bounds, path_abempty_end, port_spec, query_end, scheme_spec, userinfo_spec,
};
use crate::model::{
    AuthorityModel, UriModel, authority_spec, delimited_part, double_slash_at, hier_part_spec, host_spec,
    port_suffix, uri_spec, userinfo_prefix,
};
use crate::render::{
    after_delimiter, authority_part, authority_rendering, host_rendering, render,
    userinfo_rendering,
};
use crate::stable::{
    agree_before, lemma_delimited_shift, lemma_host_transfer, lemma_path_abempty_shift,
    lemma_run_transfer, lemma_sub_shift, lemma_uri_cut, lemma_userinfo_prefix_transfer, shifted,
    stops_at,
};

verus! {

/// The host of the authority at `i` is followed by a colon with no digits after it: the colon
/// is consumed, and the URI keeps no trace of it.
pub open spec fn bare_port_colon(s: Seq<u8>, i: int) -> bool {
    let hs = userinfo_prefix(s, i).1;
    match host_spec(s, hs) {
        Ok((_, he)) => port_suffix(s, he) == (None::<Seq<u8>>, he + 1),
        Err(_) => false,
    }
}

/// The URI at the start of `s` has an authority that ends in a colon with no port after it.
pub open spec fn drops_port_colon(s: Seq<u8>) -> bool {
    match scheme_spec(s, 0) {
        Ok(se) => double_slash_at(s, se + 1) && authority_spec(s, se + 3) is Ok && bare_port_colon(
            s,
            se + 3,
        ),
        Err(_) => false,
    }
}

proof fn lemma_join(s: Seq<u8>, a: int, b: int, c: int)
    requires
        0 <= a <= b <= c <= s.len(),
    ensures
        s.subrange(a, b) + s.subrange(b, c) == s.subrange(a, c),
{
    assert(s.subrange(a, b) + s.subrange(b, c) =~= s.subrange(a, c));
}

proof fn lemma_one(s: Seq<u8>, a: int)
    requires
        0 <= a < s.len(),
    ensures
        seq![s[a]] == s.subrange(a, a + 1),
{
    assert(seq![s[a]] =~= s.subrange(a, a + 1));
}

/// A host is written as the text it was parsed from.
proof fn lemma_host_text(s: Seq<u8>, i: int)
    requires
        0 <= i <= s.len(),
        host_spec(s, i) is Ok,
    ensures
        i <= host_spec(s, i)->Ok_0.1 <= s.len(),
        host_rendering(host_spec(s, i)->Ok_0.0) == s.subrange(i, host_spec(s, i)->Ok_0.1),
{
    lemma_ip_literal_bounds(s, i);
    lemma_ipv4_bounds(s, i);
    lemma_run_end_bounds(CharClass::RegName, s, i);
    if let Ok(e) = ip_literal_spec(s, i) {
        lemma_one(s, i);
        lemma_one(s, e - 1);
        lemma_join(s, i, i + 1, e - 1);
        lemma_join(s, i, e - 1, e);
    }
}

/// The user information and the host of an authority are written as the text they were
/// parsed from.
proof fn lemma_authority_host_text(s: Seq<u8>, i: int)
    requires
        0 <= i <= s.len(),
        authority_spec(s, i) is Ok,
    ensures
        i <= userinfo_prefix(s, i).1 <= host_spec(s, userinfo_prefix(s, i).1)->Ok_0.1 <= s.len(),
        userinfo_rendering(userinfo_prefix(s, i).0) + host_rendering(
            host_spec(s, userinfo_prefix(s, i).1)->Ok_0.0,
        ) == s.subrange(i, host_spec(s, userinfo_prefix(s, i).1)->Ok_0.1),
{
    let (u, hs) = userinfo_prefix(s, i);
    lemma_run_end_bounds(CharClass::UserInfo, s, i);
    if let Ok(ue) = userinfo_spec(s, i) {
        if 0 <= ue < s.len() && s[ue] == crate::grammar::AT {
            lemma_one(s, ue);
            lemma_join(s, i, ue, ue + 1);
        }
    }
    assert(userinfo_rendering(u) == s.subrange(i, hs));
    lemma_host_text(s, hs);
    let he = host_spec(s, hs)->Ok_0.1;
    lemma_join(s, i, hs, he);
}

/// An authority whose port is not a bare colon is written as the text it was parsed from.
proof fn lemma_authority_text(s: Seq<u8>, i: int)
    requires
        0 <= i <= s.len(),
        authority_spec(s, i) is Ok,
        !bare_port_colon(s, i),
    ensures
        i <= authority_spec(s, i)->Ok_0.1 <= s.len(),
        authority_rendering(authority_spec(s, i)->Ok_0.0) == s.subrange(
            i,
            authority_spec(s, i)->Ok_0.1,
        ),
{
    lemma_authority_host_text(s, i);
    let hs = userinfo_prefix(s, i).1;
    let (h, he) = host_spec(s, hs)->Ok_0;
    let (p, e) = port_suffix(s, he);
    if he < s.len() && s[he] == COLON {
        lemma_digit_run_bounds(s, he + 1);
        if let Ok(pe) = port_spec(s, he + 1) {
            if pe != he + 1 {
                lemma_one(s, he);
                lemma_join(s, he, he + 1, pe);
            }
        }
    }
    assert(after_delimiter(COLON, p) == s.subrange(he, e));
    lemma_join(s, i, he, e);
}

/// The path, query and fragment part of a URI: the hierarchical part from `i` on.
proof fn lemma_hier_text(s: Seq<u8>, i: int)
    requires
        0 <= i <= s.len(),
        double_slash_at(s, i) && authority_spec(s, i + 2) is Ok ==> !bare_port_colon(s, i + 2),
    ensures
        i <= hier_part_spec(s, i).2 <= s.len(),
        authority_part(hier_part_spec(s, i).0) + hier_part_spec(s, i).1.text() == s.subrange(
            i,
            hier_part_spec(s, i).2,
        ),
{
    lemma_path_bounds(s, i);
    if double_slash_at(s, i) && authority_spec(s, i + 2) is Ok {
        lemma_authority_text(s, i + 2);
        let (a, ae) = authority_spec(s, i + 2)->Ok_0;
        lemma_path_abempty_bounds(s, ae);
        let pe = path_abempty_end(s, ae);
        assert(seq![SLASH, SLASH] =~= s.subrange(i, i + 2));
        lemma_join(s, i, i + 2, ae);
        lemma_join(s, i, ae, pe);
    } else {
        assert(authority_part(None) + hier_part_spec(s, i).1.text() =~= hier_part_spec(s, i).1.text());
    }
}

/// An optional part after its delimiter is written as the text it was parsed from.
proof fn lemma_delimited_text(s: Seq<u8>, i: int, d: u8)
    requires
        0 <= i <= s.len(),
    ensures
        i <= delimited_part(s, i, d).1 <= s.len(),
        after_delimiter(d, delimited_part(s, i, d).0) == s.subrange(i, delimited_part(s, i, d).1),
{
    if 0 <= i < s.len() && s[i] == d {
        lemma_run_end_bounds(CharClass::QueryChar, s, i + 1);
        lemma_one(s, i);
        lemma_join(s, i, i + 1, query_end(s, i + 1));
    }
}

/// Writing out a parsed URI gives back the text that it was parsed from, unless its
/// authority ended in a bare colon, which the URI does not keep.
pub proof fn lemma_render_parsed(s: Seq<u8>)
    requires
        uri_spec(s) is Ok,
        !drops_port_colon(s),
    ensures
        0 <= uri_spec(s)->Ok_0.1 <= s.len(),
        render(uri_spec(s)->Ok_0.0) == s.subrange(0, uri_spec(s)->Ok_0.1),
{
    reveal(uri_spec);
    let se = scheme_spec(s, 0)->Ok_0;
    lemma_run_end_bounds(CharClass::Scheme, s, 1);
    let (m, n) = uri_spec(s)->Ok_0;
    lemma_hier_text(s, se + 1);
    let (a, p, he) = hier_part_spec(s, se + 1);
    lemma_delimited_text(s, he, QUESTION);
    let qe = delimited_part(s, he, QUESTION).1;
    lemma_delimited_text(s, qe, HASH);
    lemma_one(s, se);
    lemma_join(s, 0, se, se + 1);
    lemma_join(s, 0, se + 1, he);
    lemma_join(s, 0, he, qe);
    lemma_join(s, 0, qe, n);
    assert(render(m) =~= s.subrange(0, se) + seq![COLON] + (authority_part(a) + p.text())
        + after_delimiter(QUESTION, m.query) + after_delimiter(HASH, m.fragment));
}

/// Round trip: a text that parses as a URI through to its end, and whose authority does not
/// end in a bare colon, is written out exactly as it was.
pub proof fn law_round_trip(s: Seq<u8>)
    requires
        uri_spec(s) is Ok,
        uri_spec(s)->Ok_0.1 == s.len(),
        !drops_port_colon(s),
    ensures
        render(uri_spec(s)->Ok_0.0) == s,
{
    lemma_render_parsed(s);
    assert(s.subrange(0, s.len() as int) =~= s);
}

/// The definition of the URI production, for one input.
proof fn lemma_uri_unfold(s: Seq<u8>)
    ensures
        uri_spec(s) == match scheme_spec(s, 0) {
            Ok(se) => if se < s.len() && s[se] == COLON {
                let (a, p, he) = hier_part_spec(s, se + 1);
                let (q, qe) = delimited_part(s, he, QUESTION);
                let (f, fe) = delimited_part(s, qe, HASH);
                Ok((UriModel { scheme: s.subrange(0, se), authority: a, path: p, query: q, fragment: f }, fe))
            } else {
                Err(se)
            },
            Err(p) => Err(p),
        },
{
    reveal(uri_spec);
}

/// Where the host of a URI whose authority ends in a bare colon ends.
pub open spec fn bare_host_end(s: Seq<u8>) -> int {
    host_spec(s, userinfo_prefix(s, scheme_spec(s, 0)->Ok_0 + 3).1)->Ok_0.1
}

/// The text of a URI whose authority ends in a bare colon, without that colon.
pub open spec fn bare_text(s: Seq<u8>) -> Seq<u8> {
    s.subrange(0, bare_host_end(s)) + s.subrange(bare_host_end(s) + 1, uri_spec(s)->Ok_0.1)
}

/// Where the parts of a URI whose authority ends in a bare colon lie.
proof fn lemma_bare_layout(s: Seq<u8>)
    requires
        uri_spec(s) is Ok,
        drops_port_colon(s),
    ensures
        ({
            let se = scheme_spec(s, 0)->Ok_0;
            let he = bare_host_end(s);
            let n = uri_spec(s)->Ok_0.1;
            let r = bare_text(s);
            &&& 0 < se && se + 3 <= he < n <= s.len()
            &&& s[se] == COLON && s[he] == COLON
            &&& agree_before(s, r, he)
            &&& shifted(s, he + 1, r, he, n)
            &&& stops_at(r, he)
            &&& hier_part_spec(s, se + 1).2 == path_abempty_end(s, he + 1)
            &&& he + 1 <= path_abempty_end(s, he + 1) <= n
        }),
{
    lemma_uri_unfold(s);
    let se = scheme_spec(s, 0)->Ok_0;
    lemma_run_end_bounds(CharClass::Scheme, s, 1);
    let j = se + 3;
    lemma_authority_host_text(s, j);
    let he = bare_host_end(s);
    let ae = he + 1;
    lemma_path_abempty_bounds(s, ae);
    let pe = path_abempty_end(s, ae);
    lemma_delimited_text(s, pe, QUESTION);
    let qe = delimited_part(s, pe, QUESTION).1;
    lemma_delimited_text(s, qe, HASH);
    let n = uri_spec(s)->Ok_0.1;
    let r = bare_text(s);
    assert(agree_before(s, r, he));
    assert(shifted(s, ae, r, he, n)) by {
        assert forall|q: int| 0 <= q < n - ae implies #[trigger] r[he + q] == s[ae + q] by {}
    }
    assert(stops_at(r, he)) by {
        if he < r.len() {
            assert(r[he] == s[ae]);
        }
    }
}

/// An authority that ends in a bare colon is written as the text before the colon.
proof fn lemma_hier_text_bare(s: Seq<u8>, i: int)
    requires
        0 <= i,
        double_slash_at(s, i),
        authority_spec(s, i + 2) is Ok,
        bare_port_colon(s, i + 2),
    ensures
        ({
            let he = host_spec(s, userinfo_prefix(s, i + 2).1)->Ok_0.1;
            let pe = hier_part_spec(s, i).2;
            &&& i + 2 <= he < pe <= s.len()
            &&& pe == path_abempty_end(s, he + 1)
            &&& authority_part(hier_part_spec(s, i).0) + hier_part_spec(s, i).1.text() == s.subrange(
                i,
                he,
            ) + s.subrange(he + 1, pe)
        }),
{
    lemma_authority_host_text(s, i + 2);
    let he = host_spec(s, userinfo_prefix(s, i + 2).1)->Ok_0.1;
    lemma_path_abempty_bounds(s, he + 1);
    assert(seq![SLASH, SLASH] =~= s.subrange(i, i + 2));
    lemma_join(s, i, i + 2, he);
    let a = authority_spec(s, i + 2)->Ok_0.0;
    assert(authority_rendering(a) =~= s.subrange(i + 2, he));
}

/// A URI whose authority ended in a bare colon is written without it.
proof fn lemma_render_bare(s: Seq<u8>)
    requires
        uri_spec(s) is Ok,
        drops_port_colon(s),
    ensures
        render(uri_spec(s)->Ok_0.0) == bare_text(s),
{
    lemma_uri_unfold(s);
    let se = scheme_spec(s, 0)->Ok_0;
    lemma_run_end_bounds(CharClass::Scheme, s, 1);
    let (m, n) = uri_spec(s)->Ok_0;
    lemma_hier_text_bare(s, se + 1);
    let he = bare_host_end(s);
    let (a, p, pe) = hier_part_spec(s, se + 1);
    lemma_delimited_text(s, pe, QUESTION);
    let qe = delimited_part(s, pe, QUESTION).1;
    lemma_delimited_text(s, qe, HASH);
    lemma_one(s, se);
    lemma_join(s, 0, se, se + 1);
    lemma_join(s, 0, se + 1, he);
    lemma_join(s, he + 1, pe, qe);
    lemma_join(s, he + 1, qe, n);
    assert(render(m) =~= s.subrange(0, se) + seq![COLON] + (authority_part(a) + p.text())
        + after_delimiter(QUESTION, m.query) + after_delimiter(HASH, m.fragment));
    assert(render(m) =~= bare_text(s));
}

/// An authority that ends in a bare colon reads the same, without its port, from the text
/// without the colon.
proof fn lemma_authority_bare(s: Seq<u8>, r: Seq<u8>, j: int, he: int)
    requires
        0 <= j,
        authority_spec(s, j) is Ok,
        bare_port_colon(s, j),
        he == host_spec(s, userinfo_prefix(s, j).1)->Ok_0.1,
        agree_before(s, r, he),
        stops_at(r, he),
    ensures
        authority_spec(r, j) == Ok::<(AuthorityModel, int), int>((authority_spec(s, j)->Ok_0.0, he)),
{
    lemma_authority_host_text(s, j);
    let hs = userinfo_prefix(s, j).1;
    lemma_userinfo_prefix_transfer(s, r, j, he);
    lemma_host_transfer(s, r, hs, he);
    assert(port_suffix(r, he) == (None::<Seq<u8>>, he));
}

/// The authority and the path of a URI whose authority ended in a bare colon read the same
/// from its text without the colon.
#[verifier::rlimit(60)]
proof fn lemma_hier_bare(s: Seq<u8>)
    requires
        uri_spec(s) is Ok,
        drops_port_colon(s),
    ensures
        hier_part_spec(bare_text(s), scheme_spec(s, 0)->Ok_0 + 1) == (
            hier_part_spec(s, scheme_spec(s, 0)->Ok_0 + 1).0,
            hier_part_spec(s, scheme_spec(s, 0)->Ok_0 + 1).1,
            hier_part_spec(s, scheme_spec(s, 0)->Ok_0 + 1).2 - 1,
        ),
{
    lemma_bare_layout(s);
    let se = scheme_spec(s, 0)->Ok_0;
    let i = se + 1;
    let he = bare_host_end(s);
    let ae = he + 1;
    let n = uri_spec(s)->Ok_0.1;
    let r = bare_text(s);
    lemma_hier_text_bare(s, i);
    assert(r[i] == s[i] && r[i + 1] == s[i + 1]);
    lemma_authority_bare(s, r, i + 2, he);
    lemma_path_abempty_shift(s, ae, r, he, n, ae);
    lemma_sub_shift(s, ae, r, he, n, ae, path_abempty_end(s, ae));
}

/// The scheme, query and fragment of a URI whose authority ended in a bare colon read the same
/// from its text without the colon.
proof fn lemma_ends_bare(s: Seq<u8>)
    requires
        uri_spec(s) is Ok,
        drops_port_colon(s),
    ensures
        ({
            let se = scheme_spec(s, 0)->Ok_0;
            let r = bare_text(s);
            let pe = hier_part_spec(s, se + 1).2;
            let qe = delimited_part(s, pe, QUESTION).1;
            &&& scheme_spec(r, 0) == Ok::<int, int>(se)
            &&& se < r.len() && r[se] == COLON
            &&& r.subrange(0, se) == s.subrange(0, se)
            &&& delimited_part(r, pe - 1, QUESTION) == (delimited_part(s, pe, QUESTION).0, qe - 1)
            &&& delimited_part(r, qe - 1, HASH) == (delimited_part(s, qe, HASH).0, delimited_part(
                s,
                qe,
                HASH,
            ).1 - 1)
            &&& r.len() == delimited_part(s, qe, HASH).1 - 1
            &&& uri_spec(s)->Ok_0.1 == delimited_part(s, qe, HASH).1
        }),
{
    lemma_bare_layout(s);
    lemma_uri_unfold(s);
    let se = scheme_spec(s, 0)->Ok_0;
    let he = bare_host_end(s);
    let ae = he + 1;
    let n = uri_spec(s)->Ok_0.1;
    let r = bare_text(s);
    let pe = hier_part_spec(s, se + 1).2;
    lemma_delimited_text(s, pe, QUESTION);
    let qe = delimited_part(s, pe, QUESTION).1;
    lemma_delimited_text(s, qe, HASH);
    assert(r[0] == s[0]);
    assert(r[se] == s[se]);
    lemma_run_end_bounds(CharClass::Scheme, s, 1);
    lemma_run_transfer(CharClass::Scheme, s, r, he, 1);
    lemma_delimited_shift(s, ae, r, he, n, pe, QUESTION);
    lemma_delimited_shift(s, ae, r, he, n, qe, HASH);
    assert(r.subrange(0, se) =~= s.subrange(0, se));
}

/// The text of a URI whose authority ended in a bare colon, without the colon, parses back to
/// the same URI.
proof fn lemma_reparse_bare(s: Seq<u8>)
    requires
        uri_spec(s) is Ok,
        drops_port_colon(s),
    ensures
        uri_spec(render(uri_spec(s)->Ok_0.0)) == Ok::<(UriModel, int), int>(
            (uri_spec(s)->Ok_0.0, render(uri_spec(s)->Ok_0.0).len() as int),
        ),
{
    lemma_render_bare(s);
    lemma_hier_bare(s);
    lemma_ends_bare(s);
    lemma_uri_unfold(s);
    lemma_uri_unfold(bare_text(s));
}

/// Re-parsing: the text of a parsed URI parses back to the same URI, field for field, and
/// takes all of that text.
pub proof fn law_reparse(s: Seq<u8>)
    requires
        uri_spec(s) is Ok,
    ensures
        uri_spec(render(uri_spec(s)->Ok_0.0)) == Ok::<(UriModel, int), int>(
            (uri_spec(s)->Ok_0.0, render(uri_spec(s)->Ok_0.0).len() as int),
        ),
{
    if drops_port_colon(s) {
        lemma_reparse_bare(s);
    } else {
        let m = uri_spec(s)->Ok_0.0;
        let n = uri_spec(s)->Ok_0.1;
        lemma_render_parsed(s);
        lemma_uri_cut(s);
        let t = s.subrange(0, n);
        assert(render(m) == t);
        assert(t.len() == n);
        assert(uri_spec(t) == Ok::<(UriModel, int), int>((m, n)));
    }
}

} // verus!
