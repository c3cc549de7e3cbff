use vstd::prelude::*;
use vstd::utf8::encode_utf8;

use crate::codec::{spec_decompress_exact, spec_xxh3_64};
use crate::crypto::{spec_chunk_aad, spec_unseal, AEAD_OVERHEAD};
use crate::error::ErrorView;
use crate::format::MAX_CHUNK_SIZE;
use crate::layout::{chunk_fits, entry_fits, sum_original};
use crate::path::{spec_hash_path, spec_id_label, spec_normalize};
use crate::toc::{Chunk, EntryView};

verus! {

/// What an opened archive holds: its entries and chunks as the table of
/// contents lists them, and the settings that reads use.
pub struct ArchiveModel {
    pub entries: Seq<EntryView>,
    pub chunks: Seq<Chunk>,
    pub chunk_size: u32,
    pub alignment: u32,
    pub paths_stripped: bool,
    /// The derived chunk key of a sealed archive.
    pub aead_key: Option<Seq<u8>>,
    pub max_chunks_per_operation: u32,
}

pub open spec fn entry_hashes(es: Seq<EntryView>) -> Seq<u64> {
    es.map_values(|e: EntryView| e.path_hash)
}

pub open spec fn entry_paths(es: Seq<EntryView>) -> Seq<Seq<char>> {
    es.map_values(|e: EntryView| e.path)
}

/// In an archive with paths, every entry's identifier is the hash of its
/// path.
pub open spec fn ids_match_paths(m: ArchiveModel) -> bool {
    !m.paths_stripped ==> forall|i: int|
        0 <= i < m.entries.len() ==> (#[trigger] m.entries[i]).path_hash == spec_xxh3_64(
            encode_utf8(m.entries[i].path),
        )
}

/// The layout facts that every opened archive has.
pub open spec fn layout_holds(m: ArchiveModel) -> bool {
    &&& 0 < m.chunk_size <= MAX_CHUNK_SIZE
    &&& m.entries.len() <= u32::MAX
    &&& m.chunks.len() <= u32::MAX
    &&& forall|g: int| 0 <= g < m.chunks.len() ==> chunk_fits(#[trigger] m.chunks[g], m.chunk_size)
    &&& forall|i: int|
        0 <= i < m.entries.len() ==> entry_fits(#[trigger] m.entries[i], m.chunks, m.chunk_size)
}

/// Reading `len` bytes at `offset` of the source: they must be there.
pub open spec fn spec_source_read(content: Seq<u8>, offset: int, len: int) -> Result<Seq<u8>, ErrorView> {
    if offset + len <= content.len() {
        Ok(content.subrange(offset, offset + len))
    } else {
        Err(ErrorView::Io)
    }
}

/// Recovering the payload of chunk `g`: a raw chunk of an obfuscated archive
/// is read as it is; otherwise the stored bytes are read, unsealed when the
/// archive is sealed, and then decompressed or checked for their size.
pub open spec fn spec_chunk_payload(content: Seq<u8>, m: ArchiveModel, g: int) -> Result<Seq<u8>, ErrorView> {
    let c = m.chunks[g];
    if m.aead_key is None && !c.compressed {
        spec_source_read(content, c.offset as int, c.original_size as int)
    } else {
        match spec_source_read(content, c.offset as int, c.stored_size as int) {
            Err(e) => Err(e),
            Ok(stored) => {
                let plain: Result<Seq<u8>, ErrorView> = match m.aead_key {
                    Some(k) => match spec_unseal(k, stored, spec_chunk_aad(g as u32)) {
                        Some(p) => Ok(p),
                        None => Err(
                            ErrorView::Crypto(
                                if stored.len() < AEAD_OVERHEAD {
                                    "encrypted block is truncated"
                                } else {
                                    "authentication failed"
                                },
                            ),
                        ),
                    },
                    None => Ok(stored),
                };
                match plain {
                    Err(e) => Err(e),
                    Ok(p) => if c.compressed {
                        spec_decompress_exact(p, c.original_size as nat, "decompressed chunk size mismatch")
                    } else if p.len() != c.original_size {
                        Err(ErrorView::Corrupt("decrypted chunk size mismatch"))
                    } else {
                        Ok(p)
                    },
                }
            },
        }
    }
}

/// Decoding chunk `g`, which is chunk `local` of the asset named `label`:
/// its payload, which must match the recorded checksum.
pub open spec fn spec_chunk(content: Seq<u8>, m: ArchiveModel, g: int, label: Seq<char>, local: u32) -> Result<
    Seq<u8>,
    ErrorView,
> {
    if m.max_chunks_per_operation < 1 {
        Err(ErrorView::TooManyChunks)
    } else {
        match spec_chunk_payload(content, m, g) {
            Err(e) => Err(e),
            Ok(d) => if spec_xxh3_64(d) != m.chunks[g].checksum {
                Err(ErrorView::ChecksumMismatch { path: label, chunk: local })
            } else {
                Ok(d)
            },
        }
    }
}

/// Decoding the chunks `lo..hi` of entry `e` in order: their bytes one after
/// the other, or the first failure.
pub open spec fn spec_chunks_between(
    content: Seq<u8>,
    m: ArchiveModel,
    e: EntryView,
    label: Seq<char>,
    lo: int,
    hi: int,
) -> Result<Seq<u8>, ErrorView>
    decreases hi - lo,
{
    if hi <= lo {
        Ok(Seq::empty())
    } else {
        match spec_chunks_between(content, m, e, label, lo, hi - 1) {
            Err(x) => Err(x),
            Ok(d) => match spec_chunk(content, m, e.first_chunk + hi - 1, label, (hi - 1) as u32) {
                Err(x) => Err(x),
                Ok(c) => Ok(d + c),
            },
        }
    }
}

/// A decoded chunk has its recorded decoded size.
pub proof fn lemma_chunk_len(content: Seq<u8>, m: ArchiveModel, g: int, label: Seq<char>, local: u32)
    requires
        spec_chunk(content, m, g, label, local) is Ok,
    ensures
        spec_chunk(content, m, g, label, local)->Ok_0.len() == m.chunks[g].original_size,
{
}

/// Decoded chunks `lo..hi` hold as many bytes as those chunks decode to.
pub proof fn lemma_between_len(
    content: Seq<u8>,
    m: ArchiveModel,
    e: EntryView,
    label: Seq<char>,
    lo: int,
    hi: int,
)
    requires
        lo <= hi,
        spec_chunks_between(content, m, e, label, lo, hi) is Ok,
    ensures
        spec_chunks_between(content, m, e, label, lo, hi)->Ok_0.len() == sum_original(
            m.chunks,
            e.first_chunk + lo,
            e.first_chunk + hi,
        ),
    decreases hi - lo,
{
    if lo < hi {
        lemma_between_len(content, m, e, label, lo, hi - 1);
        lemma_chunk_len(content, m, e.first_chunk + hi - 1, label, (hi - 1) as u32);
    }
}

/// Decoding chunks `a..c` succeeds exactly as decoding `a..b` and then
/// `b..c` does, and yields their bytes one after the other.
pub proof fn lemma_between_split(
    content: Seq<u8>,
    m: ArchiveModel,
    e: EntryView,
    label: Seq<char>,
    a: int,
    b: int,
    c: int,
)
    requires
        a <= b <= c,
        spec_chunks_between(content, m, e, label, a, c) is Ok,
    ensures
        spec_chunks_between(content, m, e, label, a, b) is Ok,
        spec_chunks_between(content, m, e, label, b, c) is Ok,
        spec_chunks_between(content, m, e, label, a, c)->Ok_0 == spec_chunks_between(
            content,
            m,
            e,
            label,
            a,
            b,
        )->Ok_0 + spec_chunks_between(content, m, e, label, b, c)->Ok_0,
    decreases c - b,
{
    if b < c {
        lemma_between_split(content, m, e, label, a, b, c - 1);
        let y = spec_chunks_between(content, m, e, label, a, b)->Ok_0;
        let z = spec_chunks_between(content, m, e, label, b, c - 1)->Ok_0;
        let d = spec_chunk(content, m, e.first_chunk + c - 1, label, (c - 1) as u32)->Ok_0;
        assert((y + z) + d =~= y + (z + d));
    } else {
        assert(spec_chunks_between(content, m, e, label, a, c)->Ok_0 + Seq::<u8>::empty()
            =~= spec_chunks_between(content, m, e, label, a, c)->Ok_0);
    }
}

/// A failure while decoding chunks `lo..b` is the failure of decoding any
/// longer run `lo..c`.
pub proof fn lemma_between_err_prefix(
    content: Seq<u8>,
    m: ArchiveModel,
    e: EntryView,
    label: Seq<char>,
    lo: int,
    b: int,
    c: int,
)
    requires
        b <= c,
        spec_chunks_between(content, m, e, label, lo, b) is Err,
    ensures
        spec_chunks_between(content, m, e, label, lo, c) == spec_chunks_between(content, m, e, label, lo, b),
    decreases c - b,
{
    if b < c {
        lemma_between_err_prefix(content, m, e, label, lo, b, c - 1);
    }
}

/// `v` capped at `c`.
pub open spec fn cap(v: int, c: int) -> int {
    if v < c {
        v
    } else {
        c
    }
}

/// Where, inside the next `dl` bytes after `c` bytes, position `x` falls.
pub open spec fn window_pos(x: int, c: int, dl: int) -> int {
    if c >= x {
        0
    } else {
        cap(x - c, dl)
    }
}

/// The window `x..y` of `a + d` is the window of `a` followed by the part
/// of the window that falls inside `d`.
pub proof fn lemma_window_append(a: Seq<u8>, d: Seq<u8>, x: int, y: int)
    requires
        0 <= x <= y,
    ensures
        (a + d).subrange(cap(x, (a.len() + d.len()) as int), cap(y, (a.len() + d.len()) as int)) == a.subrange(
            cap(x, a.len() as int),
            cap(y, a.len() as int),
        ) + d.subrange(window_pos(x, a.len() as int, d.len() as int), window_pos(y, a.len() as int, d.len() as int)),
{
    let c = a.len() as int;
    let lhs = (a + d).subrange(cap(x, c + d.len()), cap(y, c + d.len()));
    let rhs = a.subrange(cap(x, c), cap(y, c)) + d.subrange(
        window_pos(x, c, d.len() as int),
        window_pos(y, c, d.len() as int),
    );
    assert(lhs.len() == rhs.len());
    assert forall|j: int| 0 <= j < lhs.len() implies lhs[j] == rhs[j] by {
        if cap(x, c) + j < c {
        } else {
        }
    }
    assert(lhs =~= rhs);
}

/// Decoding entry `i` whole: it must not need more chunks than one
/// operation may decode, and its size must fit in memory.
pub open spec fn spec_entry_data(content: Seq<u8>, m: ArchiveModel, i: int, label: Seq<char>) -> Result<
    Seq<u8>,
    ErrorView,
> {
    let e = m.entries[i];
    if e.chunk_count > m.max_chunks_per_operation {
        Err(ErrorView::TooManyChunks)
    } else if e.original_size > usize::MAX {
        Err(ErrorView::TooLarge("original entry size"))
    } else {
        spec_chunks_between(content, m, e, label, 0, e.chunk_count as int)
    }
}

/// Entry `i` has identifier `h` and, unless paths are stripped, path `p`.
pub open spec fn path_matches(m: ArchiveModel, i: int, h: u64, p: Seq<char>) -> bool {
    m.entries[i].path_hash == h && (m.paths_stripped || m.entries[i].path == p)
}

/// Entry `i` is the first entry that normalized path `p` matches.
pub open spec fn first_match(m: ArchiveModel, i: int, p: Seq<char>) -> bool {
    let h = spec_xxh3_64(encode_utf8(p));
    &&& 0 <= i < m.entries.len()
    &&& path_matches(m, i, h, p)
    &&& forall|j: int| 0 <= j < i ==> !#[trigger] path_matches(m, j, h, p)
}

/// Looking up a path: it is normalized, and names the first entry with its
/// identifier (and, unless paths are stripped, with that path).
pub open spec fn spec_lookup(m: ArchiveModel, path: Seq<char>) -> Result<(int, Seq<char>), ErrorView> {
    match spec_normalize(path) {
        None => Err(ErrorView::InvalidPath),
        Some(n) => if exists|i: int| first_match(m, i, n) {
            Ok((choose|i: int| first_match(m, i, n), n))
        } else {
            Err(ErrorView::NotFound(n))
        },
    }
}

/// At most one entry is the first match of a path.
pub proof fn lemma_first_match_unique(m: ArchiveModel, p: Seq<char>, i: int, j: int)
    requires
        first_match(m, i, p),
        first_match(m, j, p),
    ensures
        i == j,
{
    let h = spec_xxh3_64(encode_utf8(p));
    if i < j {
        assert(!path_matches(m, i, h, p));
    } else if j < i {
        assert(!path_matches(m, j, h, p));
    }
}

/// A lookup of a path that normalizes to `n` finds the first match of `n`.
pub proof fn lemma_lookup_found(m: ArchiveModel, path: Seq<char>, n: Seq<char>, i: int)
    requires
        spec_normalize(path) == Some(n),
        first_match(m, i, n),
    ensures
        spec_lookup(m, path) == Ok::<(int, Seq<char>), ErrorView>((i, n)),
{
    let c = choose|k: int| first_match(m, k, n);
    lemma_first_match_unique(m, n, i, c);
}

/// Entry `i` has identifier `id`.
pub open spec fn has_id(m: ArchiveModel, i: int, id: u64) -> bool {
    0 <= i < m.entries.len() && m.entries[i].path_hash == id
}

/// Looking up an identifier: it must name exactly one entry.
pub open spec fn spec_lookup_id(m: ArchiveModel, id: u64) -> Result<int, ErrorView> {
    if !exists|i: int| has_id(m, i, id) {
        Err(ErrorView::NotFound(spec_id_label(id)))
    } else if exists|i: int, j: int| has_id(m, i, id) && has_id(m, j, id) && i != j {
        Err(ErrorView::HashCollision(id))
    } else {
        Ok(choose|i: int| has_id(m, i, id))
    }
}

/// A successful identifier lookup names an entry with that identifier.
pub proof fn lemma_lookup_id_ok(m: ArchiveModel, id: u64)
    requires
        spec_lookup_id(m, id) is Ok,
    ensures
        has_id(m, spec_lookup_id(m, id)->Ok_0, id),
{
}

/// Reading the asset at `path` whole.
pub open spec fn spec_read(content: Seq<u8>, m: ArchiveModel, path: Seq<char>) -> Result<Seq<u8>, ErrorView> {
    match spec_lookup(m, path) {
        Err(e) => Err(e),
        Ok((i, n)) => spec_entry_data(content, m, i, n),
    }
}

/// The name checksum failures of entry `i`, looked up by identifier `id`,
/// report: the identifier when paths are stripped, else the entry's path.
pub open spec fn id_read_label(m: ArchiveModel, i: int, id: u64) -> Seq<char> {
    if m.paths_stripped {
        spec_id_label(id)
    } else {
        m.entries[i].path
    }
}

/// Reading the asset with identifier `id` whole.
pub open spec fn spec_read_by_id(content: Seq<u8>, m: ArchiveModel, id: u64) -> Result<Seq<u8>, ErrorView> {
    match spec_lookup_id(m, id) {
        Err(e) => Err(e),
        Ok(i) => spec_entry_data(content, m, i, id_read_label(m, i, id)),
    }
}

/// Reading the asset at `path` into a buffer of `dst_len` bytes, which must
/// be its size.
pub open spec fn spec_read_into(content: Seq<u8>, m: ArchiveModel, path: Seq<char>, dst_len: nat) -> Result<
    Seq<u8>,
    ErrorView,
> {
    match spec_lookup(m, path) {
        Err(e) => Err(e),
        Ok((i, n)) => {
            let e = m.entries[i];
            if e.chunk_count > m.max_chunks_per_operation {
                Err(ErrorView::TooManyChunks)
            } else if e.original_size > usize::MAX {
                Err(ErrorView::TooLarge("original entry size"))
            } else if dst_len != e.original_size {
                Err(ErrorView::BufferSizeMismatch { expected: e.original_size as usize, actual: dst_len as usize })
            } else {
                spec_chunks_between(content, m, e, n, 0, e.chunk_count as int)
            }
        },
    }
}

/// Reading chunk `k` of the asset at `path`; with `dst_len`, into a buffer of
/// that many bytes, which must be the chunk's size.
pub open spec fn spec_read_chunk(content: Seq<u8>, m: ArchiveModel, path: Seq<char>, k: u32, dst_len: Option<nat>) -> Result<
    Seq<u8>,
    ErrorView,
> {
    match spec_lookup(m, path) {
        Err(e) => Err(e),
        Ok((i, n)) => {
            let e = m.entries[i];
            let g = e.first_chunk + k;
            if k >= e.chunk_count {
                Err(ErrorView::ChunkOutOfRange { chunk: k, count: e.chunk_count })
            } else if m.max_chunks_per_operation < 1 {
                Err(ErrorView::TooManyChunks)
            } else if dst_len matches Some(l) && l != m.chunks[g].original_size {
                Err(
                    ErrorView::BufferSizeMismatch {
                        expected: m.chunks[g].original_size as usize,
                        actual: dst_len->Some_0 as usize,
                    },
                )
            } else {
                spec_chunk(content, m, g, n, k)
            }
        },
    }
}

/// How many bytes a range read of entry `i` at `offset` for `len` bytes
/// yields: the part of the range inside the asset (all of it, if `exact`),
/// which must not need more chunks than one operation may decode.
pub open spec fn spec_range_len(m: ArchiveModel, i: int, offset: u64, len: int, exact: bool) -> Result<
    int,
    ErrorView,
> {
    let size = m.entries[i].original_size;
    if offset > size || (offset == size && len >= 1 && exact) {
        Err(ErrorView::InvalidRange)
    } else if len == 0 || offset == size {
        Ok(0)
    } else if exact && offset + len > size {
        Err(ErrorView::InvalidRange)
    } else {
        let actual = if offset + len < size { len } else { size - offset };
        let first = (offset as int) / (m.chunk_size as int);
        let last = (offset + actual - 1) / (m.chunk_size as int);
        if last - first + 1 > m.max_chunks_per_operation {
            Err(ErrorView::TooManyChunks)
        } else {
            Ok(actual)
        }
    }
}

/// The bytes `offset..offset + n` of entry `e` (with `n` positive and inside
/// it): the chunks that hold them are decoded in order, and the bytes are
/// cut from what they yield.
pub open spec fn spec_range_bytes(
    content: Seq<u8>,
    m: ArchiveModel,
    e: EntryView,
    label: Seq<char>,
    offset: int,
    n: int,
) -> Result<Seq<u8>, ErrorView> {
    let cs = m.chunk_size as int;
    let lo = offset / cs;
    let hi = (offset + n - 1) / cs + 1;
    match spec_chunks_between(content, m, e, label, lo, hi) {
        Err(x) => Err(x),
        Ok(d) => Ok(d.subrange(offset - lo * cs, offset - lo * cs + n)),
    }
}

/// Reading up to `len` bytes at `offset` of the asset at `path` (exactly
/// `len`, if `exact`).
pub open spec fn spec_read_range(
    content: Seq<u8>,
    m: ArchiveModel,
    path: Seq<char>,
    offset: u64,
    len: int,
    exact: bool,
) -> Result<Seq<u8>, ErrorView> {
    match spec_lookup(m, path) {
        Err(e) => Err(e),
        Ok((i, n)) => match spec_range_len(m, i, offset, len, exact) {
            Err(e) => Err(e),
            Ok(actual) => if actual == 0 {
                Ok(Seq::empty())
            } else {
                spec_range_bytes(content, m, m.entries[i], n, offset as int, actual)
            },
        },
    }
}

/// The name checksum failures of entry `i` report while verifying.
pub open spec fn verify_label(m: ArchiveModel, i: int) -> Seq<char> {
    if m.paths_stripped {
        spec_id_label(m.entries[i].path_hash)
    } else {
        m.entries[i].path
    }
}

/// Decoding every chunk of the first `n` entries, in order.
pub open spec fn spec_verify_entries(content: Seq<u8>, m: ArchiveModel, n: int) -> Result<(), ErrorView>
    decreases n,
{
    if n <= 0 {
        Ok(())
    } else {
        match spec_verify_entries(content, m, n - 1) {
            Err(x) => Err(x),
            Ok(()) => {
                let e = m.entries[n - 1];
                match spec_chunks_between(content, m, e, verify_label(m, n - 1), 0, e.chunk_count as int) {
                    Err(x) => Err(x),
                    Ok(_) => Ok(()),
                }
            },
        }
    }
}

/// A failure while verifying the first `b` entries is the failure of
/// verifying any more of them.
pub proof fn lemma_verify_err_prefix(content: Seq<u8>, m: ArchiveModel, b: int, c: int)
    requires
        b <= c,
        spec_verify_entries(content, m, b) is Err,
    ensures
        spec_verify_entries(content, m, c) == spec_verify_entries(content, m, b),
    decreases c - b,
{
    if b < c {
        lemma_verify_err_prefix(content, m, b, c - 1);
    }
}

/// Verifying the archive: decoding every chunk of every entry, which must
/// fit in one operation.
pub open spec fn spec_verify(content: Seq<u8>, m: ArchiveModel) -> Result<(), ErrorView> {
    if m.chunks.len() > m.max_chunks_per_operation {
        Err(ErrorView::TooManyChunks)
    } else {
        spec_verify_entries(content, m, m.entries.len() as int)
    }
}

/// A chunk that decodes does so whatever name its failures would report.
proof fn lemma_chunk_label(content: Seq<u8>, m: ArchiveModel, g: int, l1: Seq<char>, l2: Seq<char>, local: u32)
    requires
        spec_chunk(content, m, g, l1, local) is Ok,
    ensures
        spec_chunk(content, m, g, l2, local) == spec_chunk(content, m, g, l1, local),
{
}

/// Chunks that decode do so whatever name their failures would report.
proof fn lemma_between_label(
    content: Seq<u8>,
    m: ArchiveModel,
    e: EntryView,
    l1: Seq<char>,
    l2: Seq<char>,
    lo: int,
    hi: int,
)
    requires
        spec_chunks_between(content, m, e, l1, lo, hi) is Ok,
    ensures
        spec_chunks_between(content, m, e, l2, lo, hi) == spec_chunks_between(content, m, e, l1, lo, hi),
    decreases hi - lo,
{
    if lo < hi {
        lemma_between_label(content, m, e, l1, l2, lo, hi - 1);
        lemma_chunk_label(content, m, e.first_chunk + hi - 1, l1, l2, (hi - 1) as u32);
    }
}

/// Reading an asset by the identifier of its path gives what reading the
/// path gives, when that identifier names a single entry.
pub proof fn lemma_read_by_id_is_read(content: Seq<u8>, m: ArchiveModel, path: Seq<char>)
    requires
        spec_read(content, m, path) is Ok,
        spec_hash_path(path) is Ok,
        spec_lookup_id(m, spec_hash_path(path)->Ok_0) is Ok,
    ensures
        spec_read_by_id(content, m, spec_hash_path(path)->Ok_0) == spec_read(content, m, path),
{
    let (i, n) = spec_lookup(m, path)->Ok_0;
    let id = spec_hash_path(path)->Ok_0;
    assert(first_match(m, i, n));
    assert(has_id(m, i, id));
    lemma_lookup_id_ok(m, id);
    let j = spec_lookup_id(m, id)->Ok_0;
    assert(i == j);
    let e = m.entries[i];
    lemma_between_label(content, m, e, n, id_read_label(m, i, id), 0, e.chunk_count as int);
}

/// Reading an asset into a buffer of its size gives what reading it whole
/// gives.
pub proof fn lemma_read_into_is_read(content: Seq<u8>, m: ArchiveModel, path: Seq<char>)
    requires
        layout_holds(m),
        spec_read(content, m, path) is Ok,
    ensures
        spec_read_into(content, m, path, spec_read(content, m, path)->Ok_0.len()) == spec_read(content, m, path),
{
    let (i, n) = spec_lookup(m, path)->Ok_0;
    assert(first_match(m, i, n));
    let e = m.entries[i];
    assert(entry_fits(e, m.chunks, m.chunk_size));
    lemma_between_len(content, m, e, n, 0, e.chunk_count as int);
}

} // verus!
