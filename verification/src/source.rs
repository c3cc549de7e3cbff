use std::io::Cursor;
use std::sync::Arc;
use vstd::prelude::*;

use crate::error::{spec_io_kind, IoKind};

verus! {

#[verifier::external_type_specification]
#[verifier::external_body]
#[verifier::reject_recursive_types(T)]
pub struct ExCursor<T>(Cursor<T>);

/// A byte source that supports positioned reads through a shared reference.
pub trait RandomAccessRead {
    /// The bytes the source holds. Every implementation defines it, so
    /// that the contracts below speak of what the source really holds.
    spec fn content(&self) -> Seq<u8>;

    /// Whether the source is in memory, so that its reads fail only where
    /// the bytes asked for are not there.
    spec fn in_memory(&self) -> bool;

    /// The number of bytes the source holds; a source in memory always
    /// answers.
    fn len(&self) -> (r: std::io::Result<u64>)
        ensures
            r matches Ok(n) ==> n == self.content().len(),
            self.in_memory() ==> r is Ok,
    ;

    /// Fills `dst` with the bytes at `offset`; fails when they are not all
    /// there, and a source in memory only then.
    fn read_exact_at(&self, offset: u64, dst: &mut [u8]) -> (r: std::io::Result<()>)
        ensures
            final(dst)@.len() == old(dst)@.len(),
            r is Ok ==> offset + old(dst)@.len() <= self.content().len() && final(dst)@
                == self.content().subrange(offset as int, offset + old(dst)@.len()),
            offset + old(dst)@.len() > self.content().len() ==> r is Err,
            self.in_memory() ==> (r is Ok <==> offset + old(dst)@.len() <= self.content().len()),
    ;

    /// Whether the source holds no bytes; it fails only when `len` does, so
    /// never for a source in memory.
    fn is_empty(&self) -> (r: std::io::Result<bool>)
        ensures
            r matches Ok(b) ==> b == (self.content().len() == 0),
            self.in_memory() ==> r is Ok,
    {
        match self.len() {
            Ok(n) => Ok(n == 0),
            Err(e) => Err(e),
        }
    }
}

/// Builds the error that a read past the end of a source reports with
/// `std::io::Error::new`; the contract claims that its kind is the one it is
/// built with, as `std::io::Error::kind` documents.
#[verifier::external_body]
pub(crate) fn eof_error() -> (r: std::io::Error)
    ensures
        spec_io_kind(r) == IoKind::UnexpectedEof,
{
    std::io::Error::new(std::io::ErrorKind::UnexpectedEof, "failed to fill whole buffer")
}

/// Copies `source[offset..offset + dst.len()]` into `dst`, or fails with an
/// end-of-file error when that range is not inside `source`.
fn read_slice_exact(source: &[u8], offset: u64, dst: &mut [u8]) -> (r: std::io::Result<()>)
    ensures
        final(dst)@.len() == old(dst)@.len(),
        r is Ok <==> offset + old(dst)@.len() <= source@.len(),
        r is Ok ==> final(dst)@ == source@.subrange(offset as int, offset + old(dst)@.len()),
        r matches Err(e) ==> spec_io_kind(e) == IoKind::UnexpectedEof,
{
    let n = source.len();
    let m = dst.len();
    if offset > n as u64 || (m as u64) > (n as u64) - offset {
        return Err(eof_error());
    }
    let start = offset as usize;
    let mut i: usize = 0;
    while i < m
        invariant
            m == dst@.len(),
            n == source@.len(),
            start + m <= n,
            i <= m,
            forall|j: int| 0 <= j < i ==> dst@[j] == source@[start + j],
        decreases m - i,
    {
        dst[i] = source[start + i];
        i = i + 1;
    }
    assert(dst@ =~= source@.subrange(start as int, start + m));
    Ok(())
}

impl<'a> RandomAccessRead for &'a [u8] {
    open spec fn content(&self) -> Seq<u8> {
        (**self)@
    }

    open spec fn in_memory(&self) -> bool {
        true
    }

    fn len(&self) -> (r: std::io::Result<u64>) {
        Ok((**self).len() as u64)
    }

    fn read_exact_at(&self, offset: u64, dst: &mut [u8]) -> (r: std::io::Result<()>) {
        read_slice_exact(*self, offset, dst)
    }
}

impl RandomAccessRead for Vec<u8> {
    open spec fn content(&self) -> Seq<u8> {
        self@
    }

    open spec fn in_memory(&self) -> bool {
        true
    }

    fn len(&self) -> (r: std::io::Result<u64>) {
        Ok(self.as_slice().len() as u64)
    }

    fn read_exact_at(&self, offset: u64, dst: &mut [u8]) -> (r: std::io::Result<()>) {
        read_slice_exact(self.as_slice(), offset, dst)
    }
}

/// The bytes a shared slice holds.
pub uninterp spec fn spec_arc_bytes(a: Arc<[u8]>) -> Seq<u8>;

/// Dereferences an `Arc<[u8]>`; the contract claims that the slice is what the
/// shared slice holds.
#[verifier::external_body]
fn arc_bytes(a: &Arc<[u8]>) -> (r: &[u8])
    ensures
        r@ == spec_arc_bytes(*a),
{
    a
}

impl RandomAccessRead for Arc<[u8]> {
    open spec fn content(&self) -> Seq<u8> {
        spec_arc_bytes(*self)
    }

    open spec fn in_memory(&self) -> bool {
        true
    }

    fn len(&self) -> (r: std::io::Result<u64>) {
        Ok(arc_bytes(self).len() as u64)
    }

    fn read_exact_at(&self, offset: u64, dst: &mut [u8]) -> (r: std::io::Result<()>) {
        read_slice_exact(arc_bytes(self), offset, dst)
    }
}

/// The bytes of the vector a cursor wraps.
pub uninterp spec fn spec_cursor_bytes(c: Cursor<Vec<u8>>) -> Seq<u8>;

/// The bytes of the slice a cursor wraps.
pub uninterp spec fn spec_cursor_slice_bytes(c: Cursor<&[u8]>) -> Seq<u8>;

/// Calls `Cursor::get_ref` on a cursor over a vector; the contract claims that
/// the slice holds the wrapped bytes.
#[verifier::external_body]
pub(crate) fn cursor_bytes(c: &Cursor<Vec<u8>>) -> (r: &[u8])
    ensures
        r@ == spec_cursor_bytes(*c),
{
    c.get_ref().as_slice()
}

/// Calls `Cursor::get_ref` on a cursor over a slice; the contract claims that
/// the slice holds the wrapped bytes.
#[verifier::external_body]
fn cursor_slice_bytes<'a>(c: &Cursor<&'a [u8]>) -> (r: &'a [u8])
    ensures
        r@ == spec_cursor_slice_bytes(*c),
{
    c.get_ref()
}

impl RandomAccessRead for Cursor<Vec<u8>> {
    open spec fn content(&self) -> Seq<u8> {
        spec_cursor_bytes(*self)
    }

    open spec fn in_memory(&self) -> bool {
        true
    }

    fn len(&self) -> (r: std::io::Result<u64>) {
        Ok(cursor_bytes(self).len() as u64)
    }

    fn read_exact_at(&self, offset: u64, dst: &mut [u8]) -> (r: std::io::Result<()>) {
        read_slice_exact(cursor_bytes(self), offset, dst)
    }
}

impl<'a> RandomAccessRead for Cursor<&'a [u8]> {
    open spec fn content(&self) -> Seq<u8> {
        spec_cursor_slice_bytes(*self)
    }

    open spec fn in_memory(&self) -> bool {
        true
    }

    fn len(&self) -> (r: std::io::Result<u64>) {
        Ok(cursor_slice_bytes(self).len() as u64)
    }

    fn read_exact_at(&self, offset: u64, dst: &mut [u8]) -> (r: std::io::Result<()>) {
        read_slice_exact(cursor_slice_bytes(self), offset, dst)
    }
}

} // verus!
