use std::io::Cursor;
use vstd::prelude::*;

use crate::error::{spec_io_kind, IoKind};

use crate::source::{cursor_bytes, spec_cursor_bytes};

verus! {

/// `content` after writing `data` at `pos`: bytes past the end are first
/// filled with zeros, and the written bytes replace or extend what is there.
pub open spec fn spec_place(content: Seq<u8>, pos: int, data: Seq<u8>) -> Seq<u8> {
    let filled = if pos <= content.len() {
        content
    } else {
        content + Seq::new((pos - content.len()) as nat, |i: int| 0u8)
    };
    let end = pos + data.len();
    filled.take(pos) + data + if end < filled.len() {
        filled.skip(end)
    } else {
        Seq::empty()
    }
}

/// A destination for archives: a byte stream with a position that can be
/// moved.
pub trait ArchiveWrite {
    /// The bytes written so far.
    ///
    /// The implementation in this crate defines it and `position`. One
    /// outside this crate cannot (spec functions are written in Verus) and
    /// keeps these defaults, an empty stream at position 0; the contracts
    /// below then describe such a stream, so the results that the library
    /// proves carry over only to the stream of this crate.
    closed spec fn written(&self) -> Seq<u8> {
        Seq::empty()
    }

    /// Where the next write goes.
    closed spec fn position(&self) -> int {
        0
    }

    /// Whether the stream is in memory, so that moving in it never fails and
    /// a write fails only where it would end past the largest possible
    /// vector. Implementations outside this crate keep this default.
    closed spec fn in_memory(&self) -> bool {
        false
    }

    /// Moves to the end and returns the length of the stream; a stream in
    /// memory always answers.
    fn seek_end(&mut self) -> (r: std::io::Result<u64>)
        ensures
            r matches Ok(n) ==> n == old(self).written().len() && final(self).written()
                == old(self).written() && final(self).position() == n,
            old(self).in_memory() ==> r is Ok,
            final(self).in_memory() == old(self).in_memory(),
    ;

    /// Moves to `pos`; a stream in memory always does.
    fn seek_to(&mut self, pos: u64) -> (r: std::io::Result<()>)
        ensures
            r is Ok ==> final(self).written() == old(self).written() && final(self).position() == pos,
            old(self).in_memory() ==> r is Ok,
            final(self).in_memory() == old(self).in_memory(),
    ;

    /// Writes all of `data` at the position and moves past it; a stream in
    /// memory fails only where the write would end past the largest possible
    /// vector, and is then left as it was.
    fn write_all(&mut self, data: &[u8]) -> (r: std::io::Result<()>)
        ensures
            r is Ok ==> final(self).written() == spec_place(
                old(self).written(),
                old(self).position(),
                data@,
            ) && final(self).position() == old(self).position() + data@.len(),
            old(self).in_memory() ==> (r is Ok <==> old(self).position() + data@.len() <= usize::MAX),
            old(self).in_memory() && r is Err ==> final(self).written() == old(self).written()
                && final(self).position() == old(self).position(),
            final(self).in_memory() == old(self).in_memory(),
    ;
}

/// Where the next write to a cursor goes.
pub uninterp spec fn spec_cursor_pos(c: Cursor<Vec<u8>>) -> int;

/// Calls `Cursor::new`; the contract claims that the cursor wraps `v` and
/// is at position 0.
#[verifier::external_body]
fn cursor_new(v: Vec<u8>) -> (r: Cursor<Vec<u8>>)
    ensures
        spec_cursor_bytes(r) == v@,
        spec_cursor_pos(r) == 0,
{
    Cursor::new(v)
}

/// Calls `Cursor::position`; the contract claims that the result is the
/// cursor's position.
#[verifier::external_body]
fn cursor_position(c: &Cursor<Vec<u8>>) -> (r: u64)
    ensures
        r == spec_cursor_pos(*c),
{
    c.position()
}

/// Calls `Cursor::set_position`; the contract claims that the cursor then
/// is at `pos` and wraps the same bytes.
#[verifier::external_body]
fn cursor_set_position(c: &mut Cursor<Vec<u8>>, pos: u64)
    ensures
        spec_cursor_bytes(*final(c)) == spec_cursor_bytes(*old(c)),
        spec_cursor_pos(*final(c)) == pos,
{
    c.set_position(pos)
}

/// Calls `Cursor::into_inner`; the contract claims that the result is the
/// wrapped vector.
#[verifier::external_body]
fn cursor_into_inner(c: Cursor<Vec<u8>>) -> (r: Vec<u8>)
    ensures
        r@ == spec_cursor_bytes(c),
{
    c.into_inner()
}

/// Builds the error for a write that would end past the largest possible
/// vector with `std::io::Error::new`; the contract claims that its kind is
/// the one it is built with, as `std::io::Error::kind` documents.
#[verifier::external_body]
fn too_long_error() -> (r: std::io::Error)
    ensures
        spec_io_kind(r) == IoKind::InvalidInput,
{
    std::io::Error::new(std::io::ErrorKind::InvalidInput, "cursor position exceeds maximum possible vector length")
}

/// `content` with the bytes of `data` written at `pos`, which is at most its
/// length: what comes before stays, `data` replaces or extends the rest.
fn write_at(v: &mut Vec<u8>, pos: usize, data: &[u8])
    requires
        pos <= old(v)@.len(),
        pos + data@.len() <= usize::MAX,
    ensures
        final(v)@ == spec_place(old(v)@, pos as int, data@),
{
    let ghost c = old(v)@;
    let n = data.len();
    let mut i: usize = 0;
    while i < n
        invariant
            n == data@.len(),
            pos <= c.len(),
            pos + n <= usize::MAX,
            i <= n,
            v@.len() == if pos + i < c.len() {
                c.len() as int
            } else {
                pos + i
            },
            forall|j: int| 0 <= j < pos ==> #[trigger] v@[j] == c[j],
            forall|j: int| 0 <= j < i ==> #[trigger] v@[pos + j] == data@[j],
            forall|j: int| pos + i <= j < v@.len() ==> #[trigger] v@[j] == c[j],
        decreases n - i,
    {
        if pos + i < v.len() {
            v.set(pos + i, data[i]);
        } else {
            v.push(data[i]);
        }
        i = i + 1;
    }
    proof {
        let p = spec_place(c, pos as int, data@);
        assert(c.len() >= pos);
        assert forall|j: int| 0 <= j < v@.len() implies #[trigger] v@[j] == p[j] by {
            if j < pos {
            } else if j < pos + n {
                assert(v@[pos + (j - pos)] == data@[j - pos]);
            } else {
            }
        }
        assert(v@ =~= p);
    }
}

impl ArchiveWrite for Cursor<Vec<u8>> {
    open spec fn written(&self) -> Seq<u8> {
        spec_cursor_bytes(*self)
    }

    open spec fn position(&self) -> int {
        spec_cursor_pos(*self)
    }

    open spec fn in_memory(&self) -> bool {
        true
    }

    fn seek_end(&mut self) -> (r: std::io::Result<u64>)
        ensures
            r is Ok,
    {
        let n = cursor_bytes(self).len() as u64;
        cursor_set_position(self, n);
        Ok(n)
    }

    fn seek_to(&mut self, pos: u64) -> (r: std::io::Result<()>)
        ensures
            r is Ok,
    {
        cursor_set_position(self, pos);
        Ok(())
    }

    /// Fails only when the write would end past the largest possible
    /// vector, and then leaves the cursor as it was.
    fn write_all(&mut self, data: &[u8]) -> (r: std::io::Result<()>)
        ensures
            r is Ok <==> spec_cursor_pos(*old(self)) + data@.len() <= usize::MAX,
            r is Err ==> *final(self) == *old(self),
            r matches Err(e) ==> spec_io_kind(e) == IoKind::InvalidInput,
    {
        let pos = cursor_position(self);
        if pos > (usize::MAX - data.len()) as u64 {
            return Err(too_long_error());
        }
        let p = pos as usize;
        let mut taken = cursor_new(Vec::new());
        core::mem::swap(self, &mut taken);
        let mut v = cursor_into_inner(taken);
        let ghost c = v@;
        while v.len() < p
            invariant
                p <= usize::MAX,
                c.len() <= v@.len(),
                v@.len() <= if c.len() < p { p as int } else { c.len() as int },
                v@ == c + Seq::new((v@.len() - c.len()) as nat, |k: int| 0u8),
            decreases p - v@.len(),
        {
            v.push(0);
            assert(v@ =~= c + Seq::new((v@.len() - c.len()) as nat, |k: int| 0u8));
        }
        let ghost filled = v@;
        write_at(&mut v, p, data);
        proof {
            if c.len() >= p {
                assert(filled =~= c);
            }
            assert(spec_place(filled, p as int, data@) =~= spec_place(c, p as int, data@));
        }
        let mut next = cursor_new(v);
        cursor_set_position(&mut next, pos + data.len() as u64);
        *self = next;
        Ok(())
    }
}

} // verus!
