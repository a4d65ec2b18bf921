//! Writing a URI out, in the order of its parts, into a buffer that the caller owns.
use vstd::prelude::*;
use vstd::string::StringSliceAdditionalSpecFns;
use vstd::utf8::{encode_utf8_valid_utf8, valid_utf8, valid_utf8_concat};

use crate::error::Error;
use crate::grammar::{AT, COLON, HASH, LBRACKET, QUESTION, RBRACKET, SLASH};
use crate::model::{AuthorityModel, HostModel, UriModel};
use crate::uri::{Authority, Host, opt_bytes};

verus! {

/// A host as it is written: an IP literal between brackets.
pub open spec fn host_rendering(h: HostModel) -> Seq<u8> {
    match h {
        HostModel::RegistryName(t) => t,
        HostModel::V4(t) => t,
        HostModel::V6(t) => seq![LBRACKET] + t + seq![RBRACKET],
        HostModel::VFuture(t) => seq![LBRACKET] + t + seq![RBRACKET],
    }
}

/// An optional part with the delimiter that comes before it.
pub open spec fn after_delimiter(d: u8, t: Option<Seq<u8>>) -> Seq<u8> {
    match t {
        Some(x) => seq![d] + x,
        None => Seq::empty(),
    }
}

/// Optional user information with the `@` that ends it.
pub open spec fn userinfo_rendering(u: Option<Seq<u8>>) -> Seq<u8> {
    match u {
        Some(x) => x + seq![AT],
        None => Seq::empty(),
    }
}

/// An authority as it is written: `userinfo@host:port`.
pub open spec fn authority_rendering(a: AuthorityModel) -> Seq<u8> {
    userinfo_rendering(a.userinfo) + host_rendering(a.host) + after_delimiter(COLON, a.port)
}

/// An optional authority with the `//` that comes before it.
pub open spec fn authority_part(a: Option<AuthorityModel>) -> Seq<u8> {
    match a {
        Some(x) => seq![SLASH, SLASH] + authority_rendering(x),
        None => Seq::empty(),
    }
}

/// The text of a URI: scheme, `:`, `//` and the authority if there is one, the path, `?` and
/// the query if there is one, `#` and the fragment if there is one.
pub open spec fn render(m: UriModel) -> Seq<u8> {
    m.scheme + seq![COLON] + authority_part(m.authority) + m.path.text() + after_delimiter(QUESTION, m.query) + after_delimiter(HASH, m.fragment)
}

/// How an append of `piece` to a buffer of `capacity` bytes ended: whole, or not at all when it
/// does not fit.
pub open spec fn appended(
    r: Result<(), Error>,
    before: Seq<u8>,
    after: Seq<u8>,
    capacity: int,
    piece: Seq<u8>,
) -> bool {
    if before.len() + piece.len() <= capacity {
        r is Ok && after == before + piece
    } else {
        r == Err::<(), Error>(Error::BufferToSmall) && after == before
    }
}

/// A bounded writer over a byte buffer: what has been written so far, and room for the rest.
pub struct Buffer<'a> {
    buffer: &'a mut [u8],
    cursor: usize,
}

impl<'a> Buffer<'a> {
    #[verifier::type_invariant]
    closed spec fn inv(&self) -> bool {
        self.cursor <= self.buffer@.len()
    }

    /// How many bytes the buffer holds in all.
    pub closed spec fn capacity(&self) -> int {
        self.buffer@.len() as int
    }

    /// What has been written so far.
    pub closed spec fn written(&self) -> Seq<u8> {
        self.buffer@.subrange(0, self.cursor as int)
    }

    /// A writer that starts at the beginning of `buffer`.
    pub fn new(buffer: &'a mut [u8]) -> (r: Self)
        ensures
            r.written() == Seq::<u8>::empty(),
            r.capacity() == old(buffer)@.len(),
    {
        let r = Buffer { buffer, cursor: 0 };
        assert(r.written() =~= Seq::<u8>::empty());
        r
    }

    /// The part of the buffer that has been written.
    pub fn buffer(self) -> (r: &'a mut [u8])
        ensures
            r@ == self.written(),
    {
        proof {
            use_type_invariant(&self);
        }
        let Buffer { buffer, cursor } = self;
        let (o, _) = buffer.split_at_mut(cursor);
        o
    }

    /// Appends the bytes of `s` if they all fit; otherwise writes nothing and fails.
    pub fn write_bytes(&mut self, s: &[u8]) -> (r: Result<(), Error>)
        ensures
            final(self).capacity() == old(self).capacity(),
            appended(r, old(self).written(), final(self).written(), old(self).capacity(), s@),
            final(self).written().len() <= final(self).capacity(),
    {
        proof {
            use_type_invariant(&*self);
        }
        if self.buffer.len() - self.cursor < s.len() {
            return Err(Error::BufferToSmall);
        }
        let start = self.cursor;
        let mut i: usize = 0;
        while i < s.len()
            invariant
                start + s@.len() <= self.buffer@.len(),
                self.cursor == start + i,
                i <= s@.len(),
                self.buffer@.len() == old(self).buffer@.len(),
                self.buffer@.subrange(0, self.cursor as int) == old(self).buffer@.subrange(
                    0,
                    start as int,
                ) + s@.subrange(0, i as int),
                start == old(self).cursor,
            decreases s@.len() - i,
        {
            proof {
                use_type_invariant(&*self);
            }
            let c = self.cursor;
            let ghost prev = self.buffer@;
            let ghost done = s@.subrange(0, i as int);
            self.buffer[c] = s[i];
            assert(self.buffer@ == prev.update(c as int, s@[i as int]));
            assert(s@.subrange(0, i + 1) =~= done.push(s@[i as int]));
            assert(self.buffer@.subrange(0, c + 1) =~= prev.subrange(0, c as int).push(
                s@[i as int],
            ));
            assert((old(self).buffer@.subrange(0, start as int) + done).push(s@[i as int])
                =~= old(self).buffer@.subrange(0, start as int) + done.push(s@[i as int]));
            self.cursor = c + 1;
            i = i + 1;
            assert(self.buffer@.subrange(0, self.cursor as int) =~= old(self).buffer@.subrange(
                0,
                start as int,
            ) + s@.subrange(0, i as int));
        }
        assert(s@.subrange(0, i as int) =~= s@);
        Ok(())
    }

    /// Appends the text `s` if it fits; otherwise writes nothing and fails.
    pub fn write_str(&mut self, s: &str) -> (r: Result<(), Error>)
        ensures
            final(self).capacity() == old(self).capacity(),
            appended(r, old(self).written(), final(self).written(), old(self).capacity(), s.spec_bytes()),
            final(self).written().len() <= final(self).capacity(),
            valid_utf8(old(self).written()) ==> valid_utf8(final(self).written()),
    {
        proof {
            encode_utf8_valid_utf8(s@);
            if valid_utf8(old(self).written()) {
                valid_utf8_concat(old(self).written(), s.spec_bytes());
            }
        }
        self.write_bytes(s.as_bytes())
    }
}

} // verus!

verus! {

/// How a sequence of appends of `piece` ended: whole when it fits, and out of room when it
/// does not.
pub open spec fn wrote(
    r: Result<(), Error>,
    before: Seq<u8>,
    after: Seq<u8>,
    capacity: int,
    piece: Seq<u8>,
) -> bool {
    &&& before.len() + piece.len() <= capacity ==> r is Ok && after == before + piece
    &&& before.len() + piece.len() > capacity ==> r == Err::<(), Error>(Error::BufferToSmall)
}

/// Two appends in a row write their pieces one after the other.
pub proof fn lemma_wrote_then(
    r1: Result<(), Error>,
    r2: Result<(), Error>,
    before: Seq<u8>,
    middle: Seq<u8>,
    after: Seq<u8>,
    capacity: int,
    first: Seq<u8>,
    second: Seq<u8>,
)
    requires
        wrote(r1, before, middle, capacity, first),
        r1 is Ok ==> wrote(r2, middle, after, capacity, second),
    ensures
        wrote(if r1 is Ok { r2 } else { r1 }, before, after, capacity, first + second),
{
    assert((before + first) + second =~= before + (first + second));
}

/// An append that ran out of room leaves any longer piece out of room too.
pub proof fn lemma_wrote_stop(
    r1: Result<(), Error>,
    before: Seq<u8>,
    after: Seq<u8>,
    capacity: int,
    first: Seq<u8>,
    second: Seq<u8>,
)
    requires
        wrote(r1, before, after, capacity, first),
        r1 is Err,
        second.len() >= first.len(),
    ensures
        wrote(r1, before, after, capacity, second),
{
}

/// A single ASCII byte is valid UTF-8.
proof fn lemma_ascii_byte_valid(b: u8)
    requires
        b < 128,
    ensures
        valid_utf8(seq![b]),
{
    reveal_with_fuel(valid_utf8, 2);
    assert(seq![b].subrange(1, 1) =~= Seq::<u8>::empty());
}

/// How writing `piece` at position `c0` of a buffer ended: the buffer keeps its length, the
/// text before the new position is the old text followed by the piece when it fits, and on
/// success the bytes after the new position are left as they were.
pub open spec fn put(
    r: Result<(), Error>,
    b0: Seq<u8>,
    c0: int,
    b1: Seq<u8>,
    c1: int,
    piece: Seq<u8>,
) -> bool {
    &&& b1.len() == b0.len()
    &&& 0 <= c1 <= b1.len()
    &&& wrote(r, b0.subrange(0, c0), b1.subrange(0, c1), b0.len() as int, piece)
    &&& (r is Ok ==> forall|k: int| c1 <= k < b1.len() ==> #[trigger] b1[k] == b0[k])
}

/// Two writes in a row, the first of which succeeded, write their pieces one after the other.
pub proof fn lemma_put_then(
    r1: Result<(), Error>,
    r2: Result<(), Error>,
    b0: Seq<u8>,
    c0: int,
    b1: Seq<u8>,
    c1: int,
    b2: Seq<u8>,
    c2: int,
    first: Seq<u8>,
    second: Seq<u8>,
)
    requires
        0 <= c0 <= b0.len(),
        put(r1, b0, c0, b1, c1, first),
        r1 is Ok,
        put(r2, b1, c1, b2, c2, second),
    ensures
        put(r2, b0, c0, b2, c2, first + second),
{
    lemma_wrote_then(
        r1,
        r2,
        b0.subrange(0, c0),
        b1.subrange(0, c1),
        b2.subrange(0, c2),
        b0.len() as int,
        first,
        second,
    );
    if r2 is Ok {
        assert(b2.subrange(0, c2).len() == c1 + second.len());
    }
}

/// A write that ran out of room leaves any longer piece out of room too.
pub proof fn lemma_put_stop(
    r1: Result<(), Error>,
    b0: Seq<u8>,
    c0: int,
    b1: Seq<u8>,
    c1: int,
    first: Seq<u8>,
    longer: Seq<u8>,
)
    requires
        put(r1, b0, c0, b1, c1, first),
        r1 is Err,
        longer.len() >= first.len(),
    ensures
        put(r1, b0, c0, b1, c1, longer),
{
    lemma_wrote_stop(r1, b0.subrange(0, c0), b1.subrange(0, c1), b0.len() as int, first, longer);
}

/// Writes the bytes of `s` at `*cur` if they all fit before the end of `buf`; otherwise writes
/// nothing and fails.
pub(crate) fn put_bytes(buf: &mut [u8], cur: &mut usize, s: &[u8]) -> (r: Result<(), Error>)
    requires
        *old(cur) <= old(buf)@.len(),
    ensures
        put(r, old(buf)@, *old(cur) as int, final(buf)@, *final(cur) as int, s@),
        r is Err ==> final(buf)@ == old(buf)@ && *final(cur) == *old(cur),
{
    let start = *cur;
    if buf.len() - start < s.len() {
        return Err(Error::BufferToSmall);
    }
    let mut i: usize = 0;
    while i < s.len()
        invariant
            start + s@.len() <= buf@.len(),
            *cur == start + i,
            i <= s@.len(),
            buf@.len() == old(buf)@.len(),
            buf@.subrange(0, *cur as int) == old(buf)@.subrange(0, start as int) + s@.subrange(
                0,
                i as int,
            ),
            forall|k: int| start + i <= k < buf@.len() ==> #[trigger] buf@[k] == old(buf)@[k],
            start == *old(cur),
        decreases s@.len() - i,
    {
        let c = *cur;
        let ghost prev = buf@;
        let ghost done = s@.subrange(0, i as int);
        buf[c] = s[i];
        assert(buf@ == prev.update(c as int, s@[i as int]));
        assert(s@.subrange(0, i + 1) =~= done.push(s@[i as int]));
        assert(buf@.subrange(0, c + 1) =~= prev.subrange(0, c as int).push(s@[i as int]));
        assert((old(buf)@.subrange(0, start as int) + done).push(s@[i as int])
            =~= old(buf)@.subrange(0, start as int) + done.push(s@[i as int]));
        *cur = c + 1;
        i = i + 1;
    }
    assert(s@.subrange(0, i as int) =~= s@);
    Ok(())
}

/// Writes one ASCII byte.
pub(crate) fn write_byte(buf: &mut [u8], cur: &mut usize, b: u8) -> (r: Result<(), Error>)
    requires
        *old(cur) <= old(buf)@.len(),
        b < 128,
    ensures
        put(r, old(buf)@, *old(cur) as int, final(buf)@, *final(cur) as int, seq![b]),
        valid_utf8(old(buf)@.subrange(0, *old(cur) as int)) ==> valid_utf8(
            final(buf)@.subrange(0, *final(cur) as int),
        ),
{
    let a: [u8; 1] = [b];
    let s: &[u8] = &a;
    assert(s@ =~= seq![b]);
    proof {
        lemma_ascii_byte_valid(b);
        if valid_utf8(old(buf)@.subrange(0, *old(cur) as int)) {
            valid_utf8_concat(old(buf)@.subrange(0, *old(cur) as int), seq![b]);
        }
    }
    put_bytes(buf, cur, s)
}

/// Writes the text `t`.
pub(crate) fn write_text(buf: &mut [u8], cur: &mut usize, t: &str) -> (r: Result<(), Error>)
    requires
        *old(cur) <= old(buf)@.len(),
    ensures
        put(r, old(buf)@, *old(cur) as int, final(buf)@, *final(cur) as int, t.spec_bytes()),
        valid_utf8(old(buf)@.subrange(0, *old(cur) as int)) ==> valid_utf8(
            final(buf)@.subrange(0, *final(cur) as int),
        ),
{
    proof {
        encode_utf8_valid_utf8(t@);
        if valid_utf8(old(buf)@.subrange(0, *old(cur) as int)) {
            valid_utf8_concat(old(buf)@.subrange(0, *old(cur) as int), t.spec_bytes());
        }
    }
    put_bytes(buf, cur, t.as_bytes())
}

/// Writes a delimiter byte and a text.
fn write_pair(buf: &mut [u8], cur: &mut usize, d: u8, t: &str) -> (r: Result<(), Error>)
    requires
        *old(cur) <= old(buf)@.len(),
        d < 128,
    ensures
        put(r, old(buf)@, *old(cur) as int, final(buf)@, *final(cur) as int, seq![d]
            + t.spec_bytes()),
        valid_utf8(old(buf)@.subrange(0, *old(cur) as int)) ==> valid_utf8(
            final(buf)@.subrange(0, *final(cur) as int),
        ),
{
    let ghost b0 = buf@;
    let ghost c0 = *cur as int;
    let r1 = write_byte(buf, cur, d);
    if r1.is_err() {
        proof {
            lemma_put_stop(r1, b0, c0, buf@, *cur as int, seq![d], seq![d] + t.spec_bytes());
        }
        return r1;
    }
    let ghost b1 = buf@;
    let ghost c1 = *cur as int;
    let r2 = write_text(buf, cur, t);
    proof {
        lemma_put_then(r1, r2, b0, c0, b1, c1, buf@, *cur as int, seq![d], t.spec_bytes());
    }
    r2
}

/// Writes an optional part after its delimiter.
pub(crate) fn write_after(buf: &mut [u8], cur: &mut usize, d: u8, t: Option<&str>) -> (r: Result<
    (),
    Error,
>)
    requires
        *old(cur) <= old(buf)@.len(),
        d < 128,
    ensures
        put(
            r,
            old(buf)@,
            *old(cur) as int,
            final(buf)@,
            *final(cur) as int,
            after_delimiter(d, opt_bytes(t)),
        ),
        valid_utf8(old(buf)@.subrange(0, *old(cur) as int)) ==> valid_utf8(
            final(buf)@.subrange(0, *final(cur) as int),
        ),
{
    match t {
        Some(x) => write_pair(buf, cur, d, x),
        None => {
            assert(old(buf)@.subrange(0, *old(cur) as int) + Seq::<u8>::empty() =~= old(
                buf,
            )@.subrange(0, *old(cur) as int));
            Ok(())
        },
    }
}

/// Writes a text between brackets.
fn write_bracketed(buf: &mut [u8], cur: &mut usize, t: &str) -> (r: Result<(), Error>)
    requires
        *old(cur) <= old(buf)@.len(),
    ensures
        put(r, old(buf)@, *old(cur) as int, final(buf)@, *final(cur) as int, seq![LBRACKET]
            + t.spec_bytes() + seq![RBRACKET]),
        valid_utf8(old(buf)@.subrange(0, *old(cur) as int)) ==> valid_utf8(
            final(buf)@.subrange(0, *final(cur) as int),
        ),
{
    let ghost b0 = buf@;
    let ghost c0 = *cur as int;
    let ghost whole = seq![LBRACKET] + t.spec_bytes() + seq![RBRACKET];
    let r1 = write_pair(buf, cur, LBRACKET, t);
    if r1.is_err() {
        proof {
            lemma_put_stop(r1, b0, c0, buf@, *cur as int, seq![LBRACKET] + t.spec_bytes(), whole);
        }
        return r1;
    }
    let ghost b1 = buf@;
    let ghost c1 = *cur as int;
    let r2 = write_byte(buf, cur, RBRACKET);
    proof {
        lemma_put_then(
            r1,
            r2,
            b0,
            c0,
            b1,
            c1,
            buf@,
            *cur as int,
            seq![LBRACKET] + t.spec_bytes(),
            seq![RBRACKET],
        );
    }
    r2
}

/// Writes a host, an IP literal between brackets.
pub(crate) fn write_host(buf: &mut [u8], cur: &mut usize, h: Host) -> (r: Result<(), Error>)
    requires
        *old(cur) <= old(buf)@.len(),
    ensures
        put(r, old(buf)@, *old(cur) as int, final(buf)@, *final(cur) as int, host_rendering(h@)),
        valid_utf8(old(buf)@.subrange(0, *old(cur) as int)) ==> valid_utf8(
            final(buf)@.subrange(0, *final(cur) as int),
        ),
{
    match h {
        Host::RegistryName(t) => write_text(buf, cur, t),
        Host::V4(t) => write_text(buf, cur, t),
        Host::V6(t) => write_bracketed(buf, cur, t),
        Host::VFuture(t) => write_bracketed(buf, cur, t),
    }
}

/// Writes optional user information and the `@` that ends it.
fn write_userinfo(buf: &mut [u8], cur: &mut usize, u: Option<&str>) -> (r: Result<(), Error>)
    requires
        *old(cur) <= old(buf)@.len(),
    ensures
        put(r, old(buf)@, *old(cur) as int, final(buf)@, *final(cur) as int, userinfo_rendering(
            opt_bytes(u),
        )),
        valid_utf8(old(buf)@.subrange(0, *old(cur) as int)) ==> valid_utf8(
            final(buf)@.subrange(0, *final(cur) as int),
        ),
{
    match u {
        Some(x) => {
            let ghost b0 = buf@;
            let ghost c0 = *cur as int;
            let r1 = write_text(buf, cur, x);
            if r1.is_err() {
                proof {
                    lemma_put_stop(r1, b0, c0, buf@, *cur as int, x.spec_bytes(), x.spec_bytes() + seq![AT]);
                }
                return r1;
            }
            let ghost b1 = buf@;
            let ghost c1 = *cur as int;
            let r2 = write_byte(buf, cur, AT);
            proof {
                lemma_put_then(r1, r2, b0, c0, b1, c1, buf@, *cur as int, x.spec_bytes(), seq![AT]);
            }
            r2
        },
        None => {
            assert(old(buf)@.subrange(0, *old(cur) as int) + Seq::<u8>::empty() =~= old(
                buf,
            )@.subrange(0, *old(cur) as int));
            Ok(())
        },
    }
}

/// Writes a text and a delimiter byte after it.
pub(crate) fn write_pair_after(buf: &mut [u8], cur: &mut usize, t: &str, d: u8) -> (r: Result<
    (),
    Error,
>)
    requires
        *old(cur) <= old(buf)@.len(),
        d < 128,
    ensures
        put(r, old(buf)@, *old(cur) as int, final(buf)@, *final(cur) as int, t.spec_bytes()
            + seq![d]),
        valid_utf8(old(buf)@.subrange(0, *old(cur) as int)) ==> valid_utf8(
            final(buf)@.subrange(0, *final(cur) as int),
        ),
{
    let ghost b0 = buf@;
    let ghost c0 = *cur as int;
    let r1 = write_text(buf, cur, t);
    if r1.is_err() {
        proof {
            lemma_put_stop(r1, b0, c0, buf@, *cur as int, t.spec_bytes(), t.spec_bytes() + seq![d]);
        }
        return r1;
    }
    let ghost b1 = buf@;
    let ghost c1 = *cur as int;
    let r2 = write_byte(buf, cur, d);
    proof {
        lemma_put_then(r1, r2, b0, c0, b1, c1, buf@, *cur as int, t.spec_bytes(), seq![d]);
    }
    r2
}

/// Writes an optional authority after the `//` that introduces it.
pub(crate) fn write_authority_part(buf: &mut [u8], cur: &mut usize, a: Option<Authority>) -> (r:
    Result<(), Error>)
    requires
        *old(cur) <= old(buf)@.len(),
    ensures
        put(r, old(buf)@, *old(cur) as int, final(buf)@, *final(cur) as int, authority_part(
            match a {
                Some(x) => Some(x@),
                None => None,
            },
        )),
        valid_utf8(old(buf)@.subrange(0, *old(cur) as int)) ==> valid_utf8(
            final(buf)@.subrange(0, *final(cur) as int),
        ),
{
    match a {
        Some(x) => {
            let ghost b0 = buf@;
            let ghost c0 = *cur as int;
            let ghost whole = seq![SLASH, SLASH] + authority_rendering(x@);
            let r1 = write_byte(buf, cur, SLASH);
            if r1.is_err() {
                proof {
                    lemma_put_stop(r1, b0, c0, buf@, *cur as int, seq![SLASH], whole);
                }
                return r1;
            }
            let ghost b1 = buf@;
            let ghost c1 = *cur as int;
            let r2 = write_byte(buf, cur, SLASH);
            proof {
                lemma_put_then(r1, r2, b0, c0, b1, c1, buf@, *cur as int, seq![SLASH], seq![SLASH]);
                assert(seq![SLASH] + seq![SLASH] =~= seq![SLASH, SLASH]);
            }
            if r2.is_err() {
                proof {
                    lemma_put_stop(r2, b0, c0, buf@, *cur as int, seq![SLASH, SLASH], whole);
                }
                return r2;
            }
            let ghost b2 = buf@;
            let ghost c2 = *cur as int;
            let r3 = write_authority(buf, cur, x);
            proof {
                lemma_put_then(r2, r3, b0, c0, b2, c2, buf@, *cur as int, seq![SLASH, SLASH], authority_rendering(x@));
            }
            r3
        },
        None => {
            assert(old(buf)@.subrange(0, *old(cur) as int) + Seq::<u8>::empty() =~= old(
                buf,
            )@.subrange(0, *old(cur) as int));
            Ok(())
        },
    }
}

/// Writes an authority: `userinfo@host:port`.
pub(crate) fn write_authority(buf: &mut [u8], cur: &mut usize, a: Authority) -> (r: Result<
    (),
    Error,
>)
    requires
        *old(cur) <= old(buf)@.len(),
    ensures
        put(r, old(buf)@, *old(cur) as int, final(buf)@, *final(cur) as int, authority_rendering(
            a@,
        )),
        valid_utf8(old(buf)@.subrange(0, *old(cur) as int)) ==> valid_utf8(
            final(buf)@.subrange(0, *final(cur) as int),
        ),
{
    let ghost b0 = buf@;
    let ghost c0 = *cur as int;
    let ghost whole = authority_rendering(a@);
    let ghost with_userinfo = userinfo_rendering(a@.userinfo);
    let r1 = write_userinfo(buf, cur, a.userinfo);
    if r1.is_err() {
        proof {
            lemma_put_stop(r1, b0, c0, buf@, *cur as int, with_userinfo, whole);
        }
        return r1;
    }
    let ghost b1 = buf@;
    let ghost c1 = *cur as int;
    let r2 = write_host(buf, cur, a.host);
    proof {
        lemma_put_then(r1, r2, b0, c0, b1, c1, buf@, *cur as int, with_userinfo, host_rendering(a.host@));
    }
    let ghost with_host = with_userinfo + host_rendering(a.host@);
    if r2.is_err() {
        proof {
            lemma_put_stop(r2, b0, c0, buf@, *cur as int, with_host, whole);
        }
        return r2;
    }
    let ghost b2 = buf@;
    let ghost c2 = *cur as int;
    let r3 = write_after(buf, cur, COLON, a.port);
    proof {
        lemma_put_then(r2, r3, b0, c0, b2, c2, buf@, *cur as int, with_host, after_delimiter(COLON, a@.port));
    }
    r3
}

} // verus!

verus! {

} // verus!
