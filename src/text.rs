//! Turning checked bytes into text.
use vstd::prelude::*;
use vstd::string::StringSliceAdditionalSpecFns;
use vstd::utf8::{is_leading_byte_width_1, partial_valid_utf8_extend_ascii_block, valid_utf8};

use crate::grammar::ascii;

verus! {

#[verifier::external_type_specification]
#[verifier::external_body]
pub struct ExUtf8Error(core::str::Utf8Error);

/// Relies on `core::str::from_utf8`: it succeeds exactly on valid UTF-8, and the text it gives
/// is a view of the same bytes.
#[verifier::external_body]
pub(crate) fn str_from_utf8<'a>(v: &'a [u8]) -> (r: Result<&'a str, core::str::Utf8Error>)
    ensures
        r is Ok <==> valid_utf8(v@),
        r is Ok ==> r->Ok_0.spec_bytes() == v@,
{
    core::str::from_utf8(v)
}

/// ASCII bytes are valid UTF-8.
pub proof fn lemma_ascii_valid_utf8(b: Seq<u8>)
    requires
        ascii(b, 0, b.len() as int),
    ensures
        valid_utf8(b),
{
    assert forall|k: int| 0 <= 0 <= k < b.len() <= b.len() implies #[trigger] is_leading_byte_width_1(
        b[k],
    ) by {
        assert(b[k] < 128);
    }
    assert(b.subrange(0, 0) =~= Seq::<u8>::empty());
    assert(valid_utf8(b.subrange(0, 0)));
    partial_valid_utf8_extend_ascii_block(b, 0, b.len() as int);
    assert(b.subrange(0, b.len() as int) =~= b);
}

/// The ASCII bytes in `[i, j)` of `s`, as text that borrows them.
pub(crate) fn ascii_view<'a>(s: &'a [u8], i: usize, j: usize) -> (r: &'a str)
    requires
        i <= j <= s@.len(),
        ascii(s@, i as int, j as int),
    ensures
        r.spec_bytes() == s@.subrange(i as int, j as int),
{
    let b = vstd::slice::slice_subrange(s, i, j);
    proof {
        assert forall|k: int| 0 <= k < b@.len() implies #[trigger] b@[k] < 128 by {
            assert(b@[k] == s@[i + k]);
        }
        lemma_ascii_valid_utf8(b@);
    }
    match str_from_utf8(b) {
        Ok(t) => t,
        Err(_) => "",
    }
}

} // verus!
