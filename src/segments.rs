//! The `/`-separated segments of a path.
use vstd::prelude::*;
use vstd::string::StringSliceAdditionalSpecFns;
use vstd::utf8::{
    encode_utf8_valid_utf8, is_char_boundary, is_char_boundary_iff_not_is_continuation_byte,
    is_char_boundary_start_end_of_seq,
};

use crate::grammar::SLASH;

verus! {

/// The position of the first `/` at or after `k`, or the length where there is none.
pub open spec fn slash_index(t: Seq<u8>, k: int) -> int
    decreases t.len() - k,
{
    if k < 0 || k >= t.len() || t[k] == SLASH {
        k
    } else {
        slash_index(t, k + 1)
    }
}

proof fn lemma_slash_index_bounds(t: Seq<u8>, k: int)
    requires
        0 <= k <= t.len(),
    ensures
        k <= slash_index(t, k) <= t.len(),
        slash_index(t, k) < t.len() ==> t[slash_index(t, k)] == SLASH,
        forall|m: int| k <= m < slash_index(t, k) ==> t[m] != SLASH,
    decreases t.len() - k,
{
    if k < t.len() && t[k] != SLASH {
        lemma_slash_index_bounds(t, k + 1);
    }
}

/// The pieces of `t` between its slashes, in order; there is always at least one.
pub open spec fn split_segments(t: Seq<u8>) -> Seq<Seq<u8>>
    decreases t.len(),
    via split_segments_decreases
{
    let j = slash_index(t, 0);
    if j >= t.len() {
        seq![t]
    } else {
        seq![t.subrange(0, j)] + split_segments(t.subrange(j + 1, t.len() as int))
    }
}

#[via_fn]
proof fn split_segments_decreases(t: Seq<u8>) {
    lemma_slash_index_bounds(t, 0);
}

/// The segments of a path: one leading slash is dropped, and the rest is split at each slash.
pub open spec fn path_segments_of(p: Seq<u8>) -> Seq<Seq<u8>> {
    if p.len() > 0 && p[0] == SLASH {
        split_segments(p.subrange(1, p.len() as int))
    } else {
        split_segments(p)
    }
}

/// The segments of a path that are still to come, one at a time.
pub struct PathSegments<'a> {
    rest: &'a str,
    done: bool,
}

impl<'a> View for PathSegments<'a> {
    type V = Seq<Seq<u8>>;

    closed spec fn view(&self) -> Seq<Seq<u8>> {
        if self.done {
            Seq::empty()
        } else {
            split_segments(self.rest.spec_bytes())
        }
    }
}

impl<'a> PathSegments<'a> {
    /// The segments of `path`.
    pub fn new(path: &'a str) -> (r: Self)
        ensures
            r@ == path_segments_of(path.spec_bytes()),
    {
        let b = path.as_bytes();
        if b.len() > 0 && b[0] == SLASH {
            proof {
                encode_utf8_valid_utf8(path@);
                lemma_boundary_after_ascii(path.spec_bytes());
            }
            let (_, rest) = path.split_at(1);
            assert(rest.spec_bytes() =~= path.spec_bytes().subrange(1, path.spec_bytes().len() as int));
            PathSegments { rest, done: false }
        } else {
            PathSegments { rest: path, done: false }
        }
    }

    /// The next segment, if there is one.
    pub fn next(&mut self) -> (r: Option<&'a str>)
        ensures
            old(self)@.len() == 0 ==> r is None && final(self)@ == old(self)@,
            old(self)@.len() > 0 ==> (r matches Some(t) && t.spec_bytes() == old(self)@[0]
                && final(self)@ == old(self)@.drop_first()),
    {
        if self.done {
            return None;
        }
        let b = self.rest.as_bytes();
        let mut j: usize = 0;
        while j < b.len() && b[j] != SLASH
            invariant
                j <= b@.len(),
                slash_index(b@, 0) == slash_index(b@, j as int),
            decreases b@.len() - j,
        {
            j = j + 1;
        }
        let ghost t = self.rest.spec_bytes();
        if j == b.len() {
            let seg = self.rest;
            self.done = true;
            assert(split_segments(t) =~= seq![t]);
            return Some(seg);
        }
        proof {
            encode_utf8_valid_utf8(self.rest@);
            is_char_boundary_iff_not_is_continuation_byte(t, j as int);
        }
        let (seg, tail) = self.rest.split_at(j);
        proof {
            encode_utf8_valid_utf8(tail@);
            lemma_boundary_after_ascii(tail.spec_bytes());
        }
        let (_, after) = tail.split_at(1);
        self.rest = after;
        proof {
            assert(after.spec_bytes() =~= t.subrange(j + 1, t.len() as int));
            assert(seg.spec_bytes() =~= t.subrange(0, j as int));
            assert(split_segments(t) == seq![t.subrange(0, j as int)] + split_segments(
                t.subrange(j + 1, t.len() as int),
            ));
            assert((seq![t.subrange(0, j as int)] + split_segments(t.subrange(j + 1, t.len() as int))).drop_first()
                =~= split_segments(t.subrange(j + 1, t.len() as int)));
        }
        Some(seg)
    }
}

/// In valid UTF-8 that starts with an ASCII byte, the next byte starts a character.
proof fn lemma_boundary_after_ascii(t: Seq<u8>)
    requires
        vstd::utf8::valid_utf8(t),
        t.len() > 0,
        t[0] < 128,
    ensures
        is_char_boundary(t, 1),
{
    if t.len() == 1 {
        is_char_boundary_start_end_of_seq(t);
    } else {
        is_char_boundary_start_end_of_seq(vstd::utf8::pop_first_scalar(t));
    }
}

} // verus!
