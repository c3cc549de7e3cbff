use vstd::prelude::*;

use vstd::utf8::encode_utf8;

use crate::codec::{
    checksum, decompress_block_exact, decompress_into_exact, spec_decompress_exact, spec_xor, spec_xxh3_64, xor_in_place,
    zeroed,
};
use crate::crypto::{chunk_aad, spec_chunk_aad, decrypt, derive_key, spec_derive_key, spec_toc_aad, spec_unseal, toc_aad, AEAD_OVERHEAD};
use crate::error::{result_view, Error, ErrorView, Result};
use crate::format::{
    read_header, spec_flags_aead, spec_flags_paths_stripped, spec_parse_header,
    spec_validate_header, validate_header, Header, HEADER_FLAG_AEAD, HEADER_FLAG_PATHS_STRIPPED, HEADER_SIZE,
};
use crate::index::{
    build_index, has_slot, is_index_of, is_sorted_strict, lemma_index_slots, lemma_sorted_keys, spec_index,
    spec_scan_index, validate_index,
};
use crate::layout::{spec_validate_layout, validate_layout};
use crate::layout::{
    chunk_fits, entry_fits, lemma_entry_span, lemma_full_prefix, lemma_range_chunks, lemma_sum_original_split, sum_original,
};
use crate::model::{
    lemma_between_split,
    lemma_lookup_id_ok,
    lemma_verify_err_prefix, spec_read_by_id, spec_read_chunk, spec_read_into, spec_read_range,
    spec_verify, spec_verify_entries, verify_label,
    cap, lemma_between_err_prefix, lemma_between_len, lemma_chunk_len, lemma_lookup_found,
    lemma_window_append, spec_chunk, spec_chunks_between, spec_entry_data, spec_range_bytes,
    spec_range_len, spec_read,
    entry_hashes, entry_paths, first_match, has_id, ids_match_paths, layout_holds,
    path_matches, spec_lookup, spec_lookup_id, ArchiveModel,
};
use crate::path::{id_label, normalize_lookup_path, spec_id_label, spec_normalize, AssetId};
use crate::limits::{spec_clamped, spec_validate_limits, validate_limits, ArchiveLimits};
use crate::options::Protection;
use crate::source::RandomAccessRead;
use crate::toc::{decode_toc, spec_decode_toc, Chunk, Entry, EntryView, TocLimits};

verus! {

/// Reading and checking the header: it must be there, parse, be supported
/// and fit the limits.
pub open spec fn spec_stage_header(content: Seq<u8>, l: ArchiveLimits) -> core::result::Result<
    Header,
    ErrorView,
> {
    if content.len() < HEADER_SIZE {
        Err(ErrorView::Io)
    } else {
        match spec_parse_header(content.subrange(0, 60)) {
            Err(e) => Err(e@),
            Ok(h) => match spec_validate_header(h) {
                Err(e) => Err(e@),
                Ok(()) => match spec_validate_limits(h, l) {
                    Err(e) => Err(e@),
                    Ok(()) => Ok(h),
                },
            },
        }
    }
}

/// Where the stored TOC lies: it must fit the archive and be aligned.
pub open spec fn spec_stage_toc_range(h: Header, file_len: int) -> core::result::Result<(), ErrorView> {
    if h.toc_offset + h.toc_size > u64::MAX {
        Err(ErrorView::Corrupt("TOC range overflow"))
    } else if h.toc_offset < HEADER_SIZE || h.toc_offset + h.toc_size > file_len {
        Err(ErrorView::Corrupt("TOC outside archive"))
    } else if h.toc_offset % (h.alignment as u64) != 0 {
        Err(ErrorView::Corrupt("TOC is not aligned"))
    } else {
        Ok(())
    }
}

/// Recovering the decoded TOC: unsealing or de-obfuscating the stored bytes,
/// decompressing them to the announced size, and checking their hash.
pub open spec fn spec_stage_toc(content: Seq<u8>, key: Seq<u8>, h: Header) -> core::result::Result<
    Seq<u8>,
    ErrorView,
> {
    let stored = content.subrange(h.toc_offset as int, h.toc_offset + h.toc_size);
    let plain: core::result::Result<Seq<u8>, ErrorView> = if spec_flags_aead(h.flags) {
        match spec_unseal(spec_derive_key(key), stored, spec_toc_aad()) {
            Some(p) => Ok(p),
            None => Err(
                ErrorView::Crypto(
                    if stored.len() < AEAD_OVERHEAD {
                        "encrypted block is truncated"
                    } else {
                        "authentication failed"
                    },
                ),
            ),
        }
    } else {
        Ok(spec_xor(stored, key))
    };
    match plain {
        Err(e) => Err(e),
        Ok(p) => match spec_decompress_exact(p, h.toc_raw_size as nat, "decompressed TOC size mismatch") {
            Err(e) => Err(e),
            Ok(d) => if spec_xxh3_64(d) != h.toc_hash {
                Err(ErrorView::Corrupt("TOC checksum mismatch"))
            } else {
                Ok(d)
            },
        },
    }
}

/// The limits that decoding entry records uses.
pub open spec fn toc_limits(h: Header, l: ArchiveLimits) -> TocLimits {
    TocLimits {
        paths_stripped: spec_flags_paths_stripped(h.flags),
        max_path_bytes: l.max_path_bytes,
        max_total_path_bytes: l.max_total_path_bytes,
        max_single_asset_bytes: l.max_single_asset_bytes,
    }
}

/// Decoding the records, checking the layout, then the identifier buckets.
pub open spec fn spec_stage_decode(d: Seq<u8>, h: Header, l: ArchiveLimits) -> core::result::Result<
    (Seq<EntryView>, Seq<Chunk>),
    ErrorView,
> {
    match spec_decode_toc(d, h.entry_count, h.chunk_count, toc_limits(h, l)) {
        Err(e) => Err(e@),
        Ok((es, cs)) => match spec_validate_layout(
            es,
            cs,
            h.toc_offset,
            h.chunk_size,
            h.alignment,
            spec_flags_aead(h.flags),
            l.max_total_decompressed_bytes,
        ) {
            Err(e) => Err(e@),
            Ok(()) => match spec_scan_index(
                entry_paths(es),
                spec_index(entry_hashes(es)),
                spec_flags_paths_stripped(h.flags),
                0,
            ) {
                Err(e) => Err(e),
                Ok(()) => Ok((es, cs)),
            },
        },
    }
}

/// Opening an archive held in `content` with `key` under `limits`.
pub open spec fn spec_open(content: Seq<u8>, key: Seq<u8>, limits: ArchiveLimits) -> core::result::Result<
    ArchiveModel,
    ErrorView,
> {
    let l = spec_clamped(limits);
    if key.len() == 0 {
        Err(ErrorView::EmptyXorKey)
    } else {
        match spec_stage_header(content, l) {
            Err(e) => Err(e),
            Ok(h) => match spec_stage_toc_range(h, content.len() as int) {
                Err(e) => Err(e),
                Ok(()) => match spec_stage_toc(content, key, h) {
                    Err(e) => Err(e),
                    Ok(d) => match spec_stage_decode(d, h, l) {
                        Err(e) => Err(e),
                        Ok((es, cs)) => Ok(
                            ArchiveModel {
                                entries: es,
                                chunks: cs,
                                chunk_size: h.chunk_size,
                                alignment: h.alignment,
                                paths_stripped: spec_flags_paths_stripped(h.flags),
                                aead_key: if spec_flags_aead(h.flags) {
                                    Some(spec_derive_key(key))
                                } else {
                                    None
                                },
                                max_chunks_per_operation: l.max_chunks_per_operation,
                            },
                        ),
                    },
                },
            },
        }
    }
}

/// Every archive that opens has the layout facts that reads rely on, and in
/// an archive with paths every identifier is the hash of its path.
pub proof fn lemma_open_layout(content: Seq<u8>, key: Seq<u8>, limits: ArchiveLimits)
    requires
        spec_open(content, key, limits) is Ok,
    ensures
        layout_holds(spec_open(content, key, limits)->Ok_0),
        ids_match_paths(spec_open(content, key, limits)->Ok_0),
{
    let l = spec_clamped(limits);
    let h = spec_stage_header(content, l)->Ok_0;
    let d = spec_stage_toc(content, key, h)->Ok_0;
    let lim = toc_limits(h, l);
    crate::toc::lemma_decode_counts(d, h.entry_count, h.chunk_count, lim);
    let es = spec_decode_toc(d, h.entry_count, h.chunk_count, lim)->Ok_0.0;
    let cs = spec_decode_toc(d, h.entry_count, h.chunk_count, lim)->Ok_0.1;
    crate::layout::lemma_layout_fits(
        es,
        cs,
        h.toc_offset,
        h.chunk_size,
        h.alignment,
        spec_flags_aead(h.flags),
        l.max_total_decompressed_bytes,
    );
}

/// An opened archive keeps within the limits it was opened under, once
/// they are clamped to the hard maxima: no more entries or chunks than
/// allowed, no entry larger than one asset may be, no more decoded bytes
/// in all than allowed, and the per-operation chunk limit it was given.
pub proof fn lemma_open_within_limits(content: Seq<u8>, key: Seq<u8>, limits: ArchiveLimits)
    requires
        spec_open(content, key, limits) is Ok,
    ensures
        ({
            let m = spec_open(content, key, limits)->Ok_0;
            let l = spec_clamped(limits);
            &&& m.entries.len() <= l.max_entries
            &&& m.chunks.len() <= l.max_chunks
            &&& forall|i: int| 0 <= i < m.entries.len() ==> (#[trigger] m.entries[i]).original_size
                <= l.max_single_asset_bytes
            &&& sum_original(m.chunks, 0, m.chunks.len() as int) <= l.max_total_decompressed_bytes
            &&& m.max_chunks_per_operation == l.max_chunks_per_operation
        }),
{
    let l = spec_clamped(limits);
    let h = spec_stage_header(content, l)->Ok_0;
    let d = spec_stage_toc(content, key, h)->Ok_0;
    let lim = toc_limits(h, l);
    crate::toc::lemma_decode_counts(d, h.entry_count, h.chunk_count, lim);
    crate::toc::lemma_decode_sizes(d, h.entry_count, h.chunk_count, lim);
    let es = spec_decode_toc(d, h.entry_count, h.chunk_count, lim)->Ok_0.0;
    let cs = spec_decode_toc(d, h.entry_count, h.chunk_count, lim)->Ok_0.1;
    crate::layout::lemma_check_chunks_total(
        cs,
        cs.len(),
        h.toc_offset,
        h.chunk_size,
        h.alignment,
        spec_flags_aead(h.flags),
        l.max_total_decompressed_bytes,
    );
}

/// Chunk `k` of an asset is its `k`-th run of `chunk_size` bytes (the last
/// run may be shorter): when reading the asset at `path` whole yields `d`
/// and `k * chunk_size < d.len()`, reading chunk `k` yields
/// `d[k * chunk_size .. min((k + 1) * chunk_size, d.len())]`.
pub proof fn lemma_chunk_read_is_slice(
    content: Seq<u8>,
    key: Seq<u8>,
    limits: ArchiveLimits,
    path: Seq<char>,
    k: u32,
)
    requires
        spec_open(content, key, limits) is Ok,
        spec_read(content, spec_open(content, key, limits)->Ok_0, path) is Ok,
        k * spec_open(content, key, limits)->Ok_0.chunk_size < spec_read(
            content,
            spec_open(content, key, limits)->Ok_0,
            path,
        )->Ok_0.len(),
    ensures
        ({
            let m = spec_open(content, key, limits)->Ok_0;
            let d = spec_read(content, m, path)->Ok_0;
            let c = m.chunk_size as int;
            spec_read_chunk(content, m, path, k, None) == Ok::<Seq<u8>, ErrorView>(
                d.subrange(k * c, cap((k + 1) * c, d.len() as int)),
            )
        }),
{
    let m = spec_open(content, key, limits)->Ok_0;
    lemma_open_layout(content, key, limits);
    let d = spec_read(content, m, path)->Ok_0;
    let (i, n) = spec_lookup(m, path)->Ok_0;
    let e = m.entries[i];
    let first = e.first_chunk as int;
    let count = e.chunk_count as int;
    let c = m.chunk_size as int;
    let kk = k as int;
    assert(entry_fits(e, m.chunks, m.chunk_size));
    lemma_between_len(content, m, e, n, 0, count);
    let size = e.original_size as int;
    assert(d.len() == size);
    assert(count > 0);
    lemma_entry_span(e, m.chunks, m.chunk_size);
    assert(kk < count) by (nonlinear_arith)
        requires
            kk * c < size,
            size <= count * c,
            c > 0,
    ;
    lemma_between_split(content, m, e, n, 0, kk, count);
    lemma_between_split(content, m, e, n, kk, kk + 1, count);
    let a = spec_chunks_between(content, m, e, n, 0, kk)->Ok_0;
    let b = spec_chunks_between(content, m, e, n, kk, kk + 1)->Ok_0;
    let rest = spec_chunks_between(content, m, e, n, kk + 1, count)->Ok_0;
    assert(spec_chunks_between(content, m, e, n, kk, kk) == Ok::<Seq<u8>, ErrorView>(Seq::empty()));
    assert(spec_chunk(content, m, first + kk, n, k) is Ok);
    assert(b =~= spec_chunk(content, m, first + kk, n, k)->Ok_0);
    lemma_chunk_len(content, m, first + kk, n, k);
    lemma_between_len(content, m, e, n, 0, kk);
    lemma_full_prefix(e, m.chunks, m.chunk_size, kk);
    assert(a.len() == kk * c);
    assert(d == a + (b + rest));
    assert(d.subrange(kk * c, kk * c + b.len()) =~= b);
    let g = first + kk;
    if kk < count - 1 {
        assert(m.chunks[g].original_size == c);
        assert((kk + 1) * c <= (count - 1) * c) by (nonlinear_arith)
            requires
                kk + 1 <= count - 1,
                c > 0,
        ;
        assert(kk * c + c == (kk + 1) * c) by (nonlinear_arith);
    } else {
        lemma_between_len(content, m, e, n, kk + 1, count);
        assert(rest.len() == 0);
        assert(size <= (kk + 1) * c);
    }
    assert(cap((kk + 1) * c, size) == kk * c + b.len());
}

/// A range read yields the matching slice of the whole asset: when reading
/// the asset at `path` whole yields `d`, a read of `len` bytes at an
/// `offset` inside it (and, for an exact read, a range inside it) yields
/// `d[offset .. min(offset + len, d.len())]`.
pub proof fn lemma_range_read_is_slice(
    content: Seq<u8>,
    key: Seq<u8>,
    limits: ArchiveLimits,
    path: Seq<char>,
    offset: u64,
    len: nat,
    exact: bool,
)
    requires
        spec_open(content, key, limits) is Ok,
        spec_read(content, spec_open(content, key, limits)->Ok_0, path) is Ok,
        offset <= spec_read(content, spec_open(content, key, limits)->Ok_0, path)->Ok_0.len(),
        exact ==> offset + len <= spec_read(content, spec_open(content, key, limits)->Ok_0, path)->Ok_0.len(),
    ensures
        ({
            let m = spec_open(content, key, limits)->Ok_0;
            let d = spec_read(content, m, path)->Ok_0;
            spec_read_range(content, m, path, offset, len as int, exact) == Ok::<Seq<u8>, ErrorView>(
                d.subrange(offset as int, cap(offset + len, d.len() as int)),
            )
        }),
{
    let m = spec_open(content, key, limits)->Ok_0;
    lemma_open_layout(content, key, limits);
    let d = spec_read(content, m, path)->Ok_0;
    let (i, n) = spec_lookup(m, path)->Ok_0;
    let e = m.entries[i];
    let first = e.first_chunk as int;
    let count = e.chunk_count as int;
    let c = m.chunk_size as int;
    assert(entry_fits(e, m.chunks, m.chunk_size));
    lemma_between_len(content, m, e, n, 0, count);
    let size = e.original_size as int;
    assert(d.len() == size);
    if len == 0 || offset == size {
        assert(d.subrange(offset as int, cap(offset + len, size)) =~= Seq::<u8>::empty());
    } else {
        let actual = if offset + len < size {
            len as int
        } else {
            size - offset
        };
        let end = offset + actual;
        lemma_range_chunks(e, m.chunks, m.chunk_size, offset as int, end);
        let lo = (offset as int) / c;
        let hi = (end - 1) / c + 1;
        assert((offset as int) / c <= (end - 1) / c) by (nonlinear_arith)
            requires
                c > 0,
                offset <= end - 1,
        ;
        assert(spec_range_len(m, i, offset, len as int, exact) == Ok::<int, ErrorView>(actual));
        lemma_between_split(content, m, e, n, 0, lo, count);
        lemma_between_split(content, m, e, n, lo, hi, count);
        let a = spec_chunks_between(content, m, e, n, 0, lo)->Ok_0;
        let b = spec_chunks_between(content, m, e, n, lo, hi)->Ok_0;
        let rest = spec_chunks_between(content, m, e, n, hi, count)->Ok_0;
        lemma_between_len(content, m, e, n, 0, lo);
        lemma_between_len(content, m, e, n, lo, hi);
        lemma_sum_original_split(m.chunks, first, first + lo, first + hi);
        assert(d == a + (b + rest));
        assert(d.subrange(offset as int, end) =~= b.subrange(offset - lo * c, offset - lo * c + actual));
        assert(cap(offset + len, size) == end);
    }
}

/// An opened archive: its decoded table of contents over a byte source.
pub struct Archive<R> {
    source: R,
    entries: Vec<Entry>,
    chunks: Vec<Chunk>,
    index: Vec<(u64, usize)>,
    chunk_size: u32,
    alignment: u32,
    paths_stripped: bool,
    protection: Protection,
    aead_key: Option<Vec<u8>>,
    max_chunks_per_operation: u32,
}

impl<R> View for Archive<R> {
    type V = ArchiveModel;

    closed spec fn view(&self) -> ArchiveModel {
        ArchiveModel {
            entries: self.entries@.map_values(|e: Entry| e@),
            chunks: self.chunks@,
            chunk_size: self.chunk_size,
            alignment: self.alignment,
            paths_stripped: self.paths_stripped,
            aead_key: match self.aead_key {
                Some(k) => Some(k@),
                None => None,
            },
            max_chunks_per_operation: self.max_chunks_per_operation,
        }
    }
}

/// Reusable buffers for reads: the stored bytes of a chunk and its decoded
/// bytes.
pub struct ArchiveScratch {
    stored: Vec<u8>,
    decoded: Vec<u8>,
}

impl ArchiveScratch {
    /// Both buffers are empty.
    pub closed spec fn is_empty(&self) -> bool {
        self.stored@.len() == 0 && self.decoded@.len() == 0
    }
}

impl Default for ArchiveScratch {
    fn default() -> (r: Self)
        ensures
            r.is_empty(),
    {
        ArchiveScratch { stored: Vec::new(), decoded: Vec::new() }
    }
}

/// What a checksum failure names: the path that was looked up, or an
/// identifier.
#[derive(Clone, Copy)]
enum ChecksumLabel<'a> {
    Path(&'a str),
    Hash(u64),
}

impl<'a> ChecksumLabel<'a> {
    spec fn chars(self) -> Seq<char> {
        match self {
            ChecksumLabel::Path(p) => p@,
            ChecksumLabel::Hash(id) => spec_id_label(id),
        }
    }

    fn to_error_string(self) -> (r: String)
        ensures
            r@ == self.chars(),
    {
        match self {
            ChecksumLabel::Path(p) => p.to_owned(),
            ChecksumLabel::Hash(id) => id_label(id),
        }
    }
}

/// Fills `dst` with `src`.
fn copy_bytes(dst: &mut [u8], src: &[u8])
    requires
        old(dst)@.len() == src@.len(),
    ensures
        final(dst)@ == src@,
{
    let n = src.len();
    let mut i: usize = 0;
    while i < n
        invariant
            n == src@.len(),
            dst@.len() == n,
            i <= n,
            forall|j: int| 0 <= j < i ==> dst@[j] == src@[j],
        decreases n - i,
    {
        dst[i] = src[i];
        i = i + 1;
    }
    assert(dst@ =~= src@);
}

/// Overwrites the first `src.len()` bytes of `dst` with `src`.
fn copy_prefix(dst: &mut [u8], src: &[u8])
    requires
        src@.len() <= old(dst)@.len(),
    ensures
        final(dst)@ == src@ + old(dst)@.skip(src@.len() as int),
{
    let ghost orig = dst@;
    let n = src.len();
    let mut i: usize = 0;
    while i < n
        invariant
            n == src@.len(),
            dst@.len() == orig.len(),
            n <= orig.len(),
            i <= n,
            forall|j: int| 0 <= j < i ==> dst@[j] == src@[j],
            forall|j: int| n <= j < orig.len() ==> dst@[j] == orig[j],
        decreases n - i,
    {
        dst[i] = src[i];
        i = i + 1;
    }
    assert(dst@ =~= src@ + orig.skip(n as int));
}

/// Appends `src[from..to]` to `out`.
fn append_range(out: &mut Vec<u8>, src: &[u8], from: usize, to: usize)
    requires
        from <= to <= src@.len(),
    ensures
        final(out)@ == old(out)@ + src@.subrange(from as int, to as int),
{
    let ghost start = out@;
    let mut i = from;
    while i < to
        invariant
            from <= i <= to <= src@.len(),
            out@ == start + src@.subrange(from as int, i as int),
        decreases to - i,
    {
        out.push(src[i]);
        i = i + 1;
        assert(out@ =~= start + src@.subrange(from as int, i as int));
    }
}

/// Turns the payload `plain` of a chunk into its decoded bytes in `out`,
/// which has the chunk's decoded size: decompressing it, or checking that
/// it already has that size.
fn finish_chunk(plain: &[u8], compressed: bool, out: &mut Vec<u8>) -> (r: Result<()>)
    ensures
        final(out)@.len() == old(out)@.len(),
        compressed ==> match spec_decompress_exact(plain@, old(out)@.len(), "decompressed chunk size mismatch") {
            Ok(d) => r is Ok && final(out)@ == d,
            Err(e) => r matches Err(x) && x@ == e,
        },
        !compressed ==> if plain@.len() != old(out)@.len() {
            r matches Err(x) && x@ == ErrorView::Corrupt("decrypted chunk size mismatch")
        } else {
            r is Ok && final(out)@ == plain@
        },
{
    if compressed {
        decompress_into_exact(plain, out.as_mut_slice(), "decompressed chunk size mismatch")
    } else if plain.len() != out.len() {
        Err(Error::Corrupt("decrypted chunk size mismatch"))
    } else {
        copy_bytes(out.as_mut_slice(), plain);
        Ok(())
    }
}

impl<R> Archive<R> {
    /// An opened archive keeps the layout facts its table passed, an index
    /// of its entries' identifiers, and a 32-byte key exactly when sealed.
    #[verifier::type_invariant]
    spec fn well_formed(self) -> bool {
        &&& layout_holds(self@)
        &&& ids_match_paths(self@)
        &&& is_index_of(entry_hashes(self@.entries), self.index@)
        &&& self.protection == (if self.aead_key is Some {
            Protection::Aead
        } else {
            Protection::Xor
        })
        &&& self.aead_key matches Some(k) ==> k@.len() == 32
    }
}

fn read_checked_header<R: RandomAccessRead>(source: &R, l: ArchiveLimits) -> (r: Result<Header>)
    ensures
        r matches Ok(h) ==> spec_stage_header(source.content(), l) == Ok::<Header, ErrorView>(h),
        r matches Err(e) ==> (e@ == ErrorView::Io && !source.in_memory()) || spec_stage_header(source.content(), l) == Err::<
            Header,
            ErrorView,
        >(e@),
{
    let mut hb = zeroed(60);
    match source.read_exact_at(0, hb.as_mut_slice()) {
        Ok(()) => {},
        Err(e) => return Err(Error::Io(e)),
    }
    let h = match read_header(hb.as_slice()) {
        Ok(h) => h,
        Err(e) => return Err(e),
    };
    match validate_header(h) {
        Ok(()) => {},
        Err(e) => return Err(e),
    }
    match validate_limits(h, l) {
        Ok(()) => {},
        Err(e) => return Err(e),
    }
    Ok(h)
}

impl<R: RandomAccessRead> Archive<R> {
    /// The bytes of the archive's source.
    pub closed spec fn content(&self) -> Seq<u8> {
        self.source.content()
    }

    /// Whether the archive's source is in memory, so that its reads fail
    /// only where the bytes asked for are not there.
    pub closed spec fn in_memory(&self) -> bool {
        self.source.in_memory()
    }

    /// Opens an archive with the runtime default limits.
    pub fn open(source: R, key: &[u8]) -> (r: Result<Self>)
        ensures
            r matches Ok(a) ==> spec_open(a.content(), key@, crate::limits::spec_runtime_limits())
                == Ok::<ArchiveModel, ErrorView>(a@) && a.content() == source.content(),
            r matches Ok(a) ==> a.in_memory() == source.in_memory(),
            r matches Err(e) ==> (e@ == ErrorView::Io && !source.in_memory() && key@.len() > 0) || spec_open(
                source.content(),
                key@,
                crate::limits::spec_runtime_limits(),
            ) == Err::<ArchiveModel, ErrorView>(e@),
    {
        Self::open_with_limits(source, key, ArchiveLimits::runtime_default())
    }

    /// Opens an archive: checks the header and limits, recovers and decodes
    /// the table of contents, and checks its layout and identifiers.
    /// From a source in memory the result is exactly what [`spec_open`]
    /// gives; from another, an I/O error may stand in for it, but never
    /// for the refusal of an empty key.
    pub fn open_with_limits(source: R, key: &[u8], limits: ArchiveLimits) -> (r: Result<Self>)
        ensures
            r matches Ok(a) ==> spec_open(a.content(), key@, limits) == Ok::<ArchiveModel, ErrorView>(
                a@,
            ) && a.content() == source.content(),
            r matches Ok(a) ==> a.in_memory() == source.in_memory(),
            r matches Err(e) ==> (e@ == ErrorView::Io && !source.in_memory() && key@.len() > 0) || spec_open(source.content(), key@, limits)
                == Err::<ArchiveModel, ErrorView>(e@),
    {
        if key.len() == 0 {
            return Err(Error::EmptyXorKey);
        }
        let l = limits.clamped();
        proof {
            crate::limits::lemma_clamped_within_hard(limits);
        }
        let h = match read_checked_header(&source, l) {
            Ok(h) => h,
            Err(e) => return Err(e),
        };
        let aead = h.flags & HEADER_FLAG_AEAD != 0;
        let aead_key: Option<Vec<u8>> = if aead {
            Some(derive_key(key))
        } else {
            None
        };
        let file_len = match source.len() {
            Ok(n) => n,
            Err(e) => return Err(Error::Io(e)),
        };
        if h.toc_offset > u64::MAX - h.toc_size {
            return Err(Error::Corrupt("TOC range overflow"));
        }
        let toc_end = h.toc_offset + h.toc_size;
        if h.toc_offset < HEADER_SIZE || toc_end > file_len {
            return Err(Error::Corrupt("TOC outside archive"));
        }
        if h.toc_offset % (h.alignment as u64) != 0 {
            return Err(Error::Corrupt("TOC is not aligned"));
        }
        let mut stored = zeroed(h.toc_size as usize);
        match source.read_exact_at(h.toc_offset, stored.as_mut_slice()) {
            Ok(()) => {},
            Err(e) => return Err(Error::Io(e)),
        }
        let plain_stored = match &aead_key {
            Some(k) => match decrypt(stored.as_slice(), k.as_slice(), toc_aad().as_slice()) {
                Ok(p) => p,
                Err(e) => return Err(e),
            },
            None => {
                xor_in_place(stored.as_mut_slice(), key);
                stored
            },
        };
        let toc_plain = match decompress_block_exact(
            plain_stored.as_slice(),
            h.toc_raw_size as usize,
            "decompressed TOC size mismatch",
        ) {
            Ok(d) => d,
            Err(e) => return Err(e),
        };
        if checksum(toc_plain.as_slice()) != h.toc_hash {
            return Err(Error::Corrupt("TOC checksum mismatch"));
        }
        let stripped = h.flags & HEADER_FLAG_PATHS_STRIPPED != 0;
        let lim = TocLimits {
            paths_stripped: stripped,
            max_path_bytes: l.max_path_bytes,
            max_total_path_bytes: l.max_total_path_bytes,
            max_single_asset_bytes: l.max_single_asset_bytes,
        };
        let (entries, chunks) = match decode_toc(toc_plain.as_slice(), h.entry_count, h.chunk_count, &lim) {
            Ok(t) => t,
            Err(e) => return Err(e),
        };
        match validate_layout(
            &entries,
            &chunks,
            h.toc_offset,
            h.chunk_size,
            h.alignment,
            aead,
            l.max_total_decompressed_bytes,
        ) {
            Ok(()) => {},
            Err(e) => return Err(e),
        }
        let index = build_index(&entries);
        proof {
            let es = entries@.map_values(|e: Entry| e@);
            assert(entry_hashes(es).len() == entries.len());
            assert(entries@.map_values(|e: Entry| e.path_hash) =~= entry_hashes(es));
            assert(entries@.map_values(|e: Entry| e.path@) =~= entry_paths(es));
            crate::index::lemma_index_slots(entry_hashes(es), index@);
        }
        match validate_index(&entries, &index, stripped) {
            Ok(()) => {},
            Err(e) => return Err(e),
        }
        let protection = if aead {
            Protection::Aead
        } else {
            Protection::Xor
        };
        proof {
            let es = entries@.map_values(|e: Entry| e@);
            crate::toc::lemma_decode_counts(toc_plain@, h.entry_count, h.chunk_count, lim);
            crate::layout::lemma_layout_fits(
                es,
                chunks@,
                h.toc_offset,
                h.chunk_size,
                h.alignment,
                aead,
                l.max_total_decompressed_bytes,
            );
            assert(entries@.map_values(|e: Entry| e.path_hash) =~= entry_hashes(es));
        }
        Ok(
            Archive {
                source,
                entries,
                chunks,
                index,
                chunk_size: h.chunk_size,
                alignment: h.alignment,
                paths_stripped: stripped,
                protection,
                aead_key,
                max_chunks_per_operation: l.max_chunks_per_operation,
            },
        )
    }
}

impl<R: RandomAccessRead> Archive<R> {
    /// The first index slot whose identifier is at least `id` (with `above`:
    /// greater than `id`).
    fn slot_bound(&self, id: u64, above: bool) -> (r: usize)
        ensures
            r <= self.index@.len(),
            forall|k: int|
                0 <= k < r ==> if above {
                    (#[trigger] self.index@[k]).0 <= id
                } else {
                    self.index@[k].0 < id
                },
            forall|k: int|
                r <= k < self.index@.len() ==> if above {
                    (#[trigger] self.index@[k]).0 > id
                } else {
                    self.index@[k].0 >= id
                },
    {
        proof {
            use_type_invariant(self);
            lemma_sorted_keys(self.index@);
        }
        let ghost s = self.index@;
        let mut lo: usize = 0;
        let mut hi: usize = self.index.len();
        while lo < hi
            invariant
                s == self.index@,
                lo <= hi <= s.len(),
                forall|a: int, b: int| 0 <= a <= b < s.len() ==> (#[trigger] s[a]).0 <= (#[trigger] s[b]).0,
                forall|k: int|
                    0 <= k < lo ==> if above {
                        (#[trigger] s[k]).0 <= id
                    } else {
                        s[k].0 < id
                    },
                forall|k: int|
                    hi <= k < s.len() ==> if above {
                        (#[trigger] s[k]).0 > id
                    } else {
                        s[k].0 >= id
                    },
            decreases hi - lo,
        {
            let mid = lo + (hi - lo) / 2;
            let key = self.index[mid].0;
            let below = if above {
                key <= id
            } else {
                key < id
            };
            if below {
                proof {
                    assert forall|k: int| 0 <= k <= mid implies if above {
                        (#[trigger] s[k]).0 <= id
                    } else {
                        s[k].0 < id
                    } by {
                        assert(s[k].0 <= s[mid as int].0);
                    }
                }
                lo = mid + 1;
            } else {
                proof {
                    assert forall|k: int| mid <= k < s.len() implies if above {
                        (#[trigger] s[k]).0 > id
                    } else {
                        s[k].0 >= id
                    } by {
                        assert(s[mid as int].0 <= s[k].0);
                    }
                }
                hi = mid;
            }
        }
        lo
    }

    /// The slots `start..end` hold exactly the entries with identifier `id`.
    fn id_slots(&self, id: u64) -> (r: (usize, usize))
        ensures
            r.0 <= r.1 <= self.index@.len(),
            forall|k: int| r.0 <= k < r.1 ==> (#[trigger] self.index@[k]).0 == id,
            forall|k: int|
                0 <= k < self.index@.len() && (#[trigger] self.index@[k]).0 == id ==> r.0 <= k < r.1,
            forall|k: int|
                0 <= k < self.index@.len() ==> (#[trigger] self.index@[k]).1 < self@.entries.len()
                    && self.index@[k].0 == self@.entries[self.index@[k].1 as int].path_hash,
            forall|i: int|
                0 <= i < self@.entries.len() ==> #[trigger] has_slot(self.index@, i),
    {
        proof {
            use_type_invariant(self);
            lemma_index_slots(entry_hashes(self@.entries), self.index@);
        }
        let start = self.slot_bound(id, false);
        let end = self.slot_bound(id, true);
        proof {
            if start > end {
                assert(self.index@[end as int].0 > id);
                assert(self.index@[end as int].0 < id);
            }
        }
        (start, end)
    }

    /// The entry that a normalized path names: the first entry with its
    /// identifier and, unless paths are stripped, that path.
    fn find_normalized(&self, normalized: &String) -> (r: Result<usize>)
        ensures
            r matches Ok(i) ==> first_match(self@, i as int, normalized@),
            r matches Err(e) ==> e@ == ErrorView::NotFound(normalized@) && forall|i: int|
                !first_match(self@, i, normalized@),
    {
        proof {
            use_type_invariant(self);
        }
        let ghost m = self@;
        let ghost n = normalized@;
        let h = checksum(normalized.as_str().as_bytes());
        let ghost s = self.index@;
        let (start, end) = self.id_slots(h);
        if start == end {
            proof {
                assert forall|i: int| !first_match(m, i, n) by {
                    if first_match(m, i, n) {
                        assert(has_slot(s, i));
                        let k = choose|k: int| 0 <= k < s.len() && (#[trigger] s[k]).1 == i;
                        assert(s[k].0 == h);
                    }
                }
            }
            return Err(Error::NotFound(normalized.clone()));
        }
        if self.paths_stripped {
            let i = self.index[start].1;
            proof {
                assert(path_matches(m, i as int, h, n));
                assert forall|j: int| 0 <= j < i implies !#[trigger] path_matches(m, j, h, n) by {
                    if path_matches(m, j, h, n) {
                        assert(has_slot(s, j));
                        let k = choose|k: int| 0 <= k < s.len() && (#[trigger] s[k]).1 == j;
                        assert(s[k].0 == h);
                        assert(crate::index::lex_lt(s[start as int], s[k]));
                    }
                }
            }
            return Ok(i);
        }
        let mut k = start;
        while k < end
            invariant
                m == self@,
                n == normalized@,
                s == self.index@,
                !m.paths_stripped,
                h == spec_xxh3_64(encode_utf8(n)),
                start <= k <= end <= s.len(),
                is_sorted_strict(s),
                forall|q: int| start <= q < end ==> (#[trigger] s[q]).0 == h,
                forall|q: int| 0 <= q < s.len() && (#[trigger] s[q]).0 == h ==> start <= q < end,
                forall|q: int|
                    0 <= q < s.len() ==> (#[trigger] s[q]).1 < m.entries.len() && s[q].0
                        == m.entries[s[q].1 as int].path_hash,
                forall|i: int| 0 <= i < m.entries.len() ==> #[trigger] has_slot(s, i),
                forall|q: int| start <= q < k ==> m.entries[(#[trigger] s[q]).1 as int].path != n,
                m.entries == self.entries@.map_values(|e: Entry| e@),
            decreases end - k,
        {
            let i = self.index[k].1;
            if self.entries[i].path == *normalized {
                proof {
                    assert(path_matches(m, i as int, h, n));
                    assert forall|j: int| 0 <= j < i implies !#[trigger] path_matches(m, j, h, n) by {
                        if path_matches(m, j, h, n) {
                            assert(has_slot(s, j));
                            let q = choose|q: int| 0 <= q < s.len() && (#[trigger] s[q]).1 == j;
                            assert(s[q].0 == h);
                            if q > k {
                                assert(crate::index::lex_lt(s[k as int], s[q]));
                            }
                        }
                    }
                }
                return Ok(i);
            }
            k = k + 1;
        }
        proof {
            assert forall|i: int| !first_match(m, i, n) by {
                if first_match(m, i, n) {
                    assert(has_slot(s, i));
                    let q = choose|q: int| 0 <= q < s.len() && (#[trigger] s[q]).1 == i;
                    assert(s[q].0 == h);
                }
            }
        }
        Err(Error::NotFound(normalized.clone()))
    }

    /// The entry that an identifier names; it must name exactly one.
    fn find_id(&self, id: u64) -> (r: Result<usize>)
        ensures
            r matches Ok(i) ==> spec_lookup_id(self@, id) == Ok::<int, ErrorView>(i as int),
            r matches Err(e) ==> spec_lookup_id(self@, id) == Err::<int, ErrorView>(e@),
    {
        proof {
            use_type_invariant(self);
        }
        let ghost m = self@;
        let ghost s = self.index@;
        let (start, end) = self.id_slots(id);
        if start == end {
            proof {
                assert forall|i: int| !has_id(m, i, id) by {
                    if has_id(m, i, id) {
                        assert(has_slot(s, i));
                        let k = choose|k: int| 0 <= k < s.len() && (#[trigger] s[k]).1 == i;
                        assert(s[k].0 == id);
                    }
                }
            }
            return Err(Error::NotFound(id_label(id)));
        }
        if end - start != 1 {
            proof {
                let a = s[start as int].1 as int;
                let b = s[start + 1].1 as int;
                assert(has_id(m, a, id));
                assert(has_id(m, b, id));
                assert(crate::index::lex_lt(s[start as int], s[start + 1]));
            }
            return Err(Error::HashCollision(id));
        }
        let i = self.index[start].1;
        proof {
            assert(has_id(m, i as int, id));
            assert forall|j: int| has_id(m, j, id) implies j == i by {
                assert(has_slot(s, j));
                let k = choose|k: int| 0 <= k < s.len() && (#[trigger] s[k]).1 == j;
                assert(s[k].0 == id);
            }
            let c = choose|j: int| has_id(m, j, id);
            assert(c == i);
        }
        Ok(i)
    }
}

impl<R: RandomAccessRead> Archive<R> {
    /// Decodes chunk `global` (chunk `local` of the asset `label` names)
    /// into `out`, using `stored` for its stored bytes.
    fn decode_chunk(
        &self,
        label: ChecksumLabel,
        local: u32,
        global: u32,
        out: &mut Vec<u8>,
        stored: &mut Vec<u8>,
    ) -> (r: Result<()>)
        requires
            global < self@.chunks.len(),
        ensures
            r is Ok ==> spec_chunk(self.content(), self@, global as int, label.chars(), local) == Ok::<
                Seq<u8>,
                ErrorView,
            >(final(out)@),
            r matches Err(e) ==> (e@ == ErrorView::Io && !self.in_memory()) || spec_chunk(
                self.content(),
                self@,
                global as int,
                label.chars(),
                local,
            ) == Err::<Seq<u8>, ErrorView>(e@),
    {
        proof {
            use_type_invariant(self);
        }
        if self.max_chunks_per_operation < 1 {
            return Err(Error::TooManyChunks);
        }
        let c = self.chunks[global as usize];
        proof {
            assert(chunk_fits(self@.chunks[global as int], self@.chunk_size));
        }
        let n = c.original_size as usize;
        out.resize(n, 0u8);
        if self.aead_key.is_none() && !c.compressed {
            match self.source.read_exact_at(c.offset, out.as_mut_slice()) {
                Ok(()) => {},
                Err(e) => return Err(Error::Io(e)),
            }
        } else {
            let sn = c.stored_size as usize;
            stored.resize(sn, 0u8);
            match self.source.read_exact_at(c.offset, stored.as_mut_slice()) {
                Ok(()) => {},
                Err(e) => return Err(Error::Io(e)),
            }
            let finished = match &self.aead_key {
                Some(k) => match decrypt(stored.as_slice(), k.as_slice(), chunk_aad(global).as_slice()) {
                    Ok(p) => finish_chunk(p.as_slice(), c.compressed, out),
                    Err(e) => Err(e),
                },
                None => finish_chunk(stored.as_slice(), c.compressed, out),
            };
            match finished {
                Ok(()) => {},
                Err(e) => return Err(e),
            }
        }
        if checksum(out.as_slice()) != c.checksum {
            return Err(Error::ChecksumMismatch { path: label.to_error_string(), chunk: local });
        }
        Ok(())
    }
}

impl<R: RandomAccessRead> Archive<R> {
    /// Normalizes `path` and finds the entry it names.
    fn lookup(&self, path: &str) -> (r: Result<(usize, String)>)
        ensures
            match spec_lookup(self@, path@) {
                Ok((i, n)) => r matches Ok((x, s)) && x == i && s@ == n,
                Err(e) => r matches Err(x) && x@ == e,
            },
    {
        let normalized = match normalize_lookup_path(path) {
            Ok(n) => n,
            Err(e) => return Err(e),
        };
        match self.find_normalized(&normalized) {
            Ok(i) => {
                proof {
                    lemma_lookup_found(self@, path@, normalized@, i as int);
                }
                Ok((i, normalized))
            },
            Err(e) => Err(e),
        }
    }

    /// Decodes the chunks `lo..hi` of entry `i`, one after the other.
    fn collect_chunks(
        &self,
        i: usize,
        label: ChecksumLabel,
        lo: u32,
        hi: u32,
        scratch: &mut ArchiveScratch,
    ) -> (r: Result<Vec<u8>>)
        requires
            i < self@.entries.len(),
            lo <= hi <= self@.entries[i as int].chunk_count,
            sum_original(
                self@.chunks,
                self@.entries[i as int].first_chunk + lo,
                self@.entries[i as int].first_chunk + hi,
            ) <= usize::MAX,
        ensures
            r matches Ok(v) ==> spec_chunks_between(
                self.content(),
                self@,
                self@.entries[i as int],
                label.chars(),
                lo as int,
                hi as int,
            ) == Ok::<Seq<u8>, ErrorView>(v@),
            r matches Err(x) ==> (x@ == ErrorView::Io && !self.in_memory()) || spec_chunks_between(
                self.content(),
                self@,
                self@.entries[i as int],
                label.chars(),
                lo as int,
                hi as int,
            ) == Err::<Seq<u8>, ErrorView>(x@),
    {
        proof {
            use_type_invariant(self);
        }
        let ghost m = self@;
        let ghost e = m.entries[i as int];
        let ghost content = self.content();
        let ghost lab = label.chars();
        proof {
            assert(entry_fits(e, m.chunks, m.chunk_size));
        }
        let first = self.entries[i].first_chunk;
        let mut acc: Vec<u8> = Vec::new();
        let mut k = lo;
        while k < hi
            invariant
                m == self@,
                content == self.content(),
                lab == label.chars(),
                e == m.entries[i as int],
                first == e.first_chunk,
                lo <= k <= hi <= e.chunk_count,
                e.first_chunk + e.chunk_count <= m.chunks.len(),
                m.chunks.len() <= u32::MAX,
                sum_original(m.chunks, first + lo, first + hi) <= usize::MAX,
                spec_chunks_between(content, m, e, lab, lo as int, k as int) == Ok::<
                    Seq<u8>,
                    ErrorView,
                >(acc@),
            decreases hi - k,
        {
            let g = first + k;
            match self.decode_chunk(label, k, g, &mut scratch.decoded, &mut scratch.stored) {
                Ok(()) => {},
                Err(x) => {
                    proof {
                        if !(x@ == ErrorView::Io && !self.in_memory()) {
                            lemma_between_err_prefix(content, m, e, lab, lo as int, k + 1, hi as int);
                        }
                    }
                    return Err(x);
                },
            }
            proof {
                lemma_between_len(content, m, e, lab, lo as int, k as int);
                lemma_chunk_len(content, m, g as int, lab, k);
                lemma_sum_original_split(m.chunks, first + lo, first + k + 1, first + hi);
            }
            let dl = scratch.decoded.len();
            append_range(&mut acc, scratch.decoded.as_slice(), 0, dl);
            proof {
                assert(scratch.decoded@.subrange(0, dl as int) =~= scratch.decoded@);
            }
            k = k + 1;
        }
        Ok(acc)
    }

    /// Decodes entry `i` whole.
    fn read_entry(&self, i: usize, label: ChecksumLabel, scratch: &mut ArchiveScratch) -> (r: Result<
        Vec<u8>,
    >)
        requires
            i < self@.entries.len(),
        ensures
            r matches Ok(v) ==> spec_entry_data(self.content(), self@, i as int, label.chars()) == Ok::<
                Seq<u8>,
                ErrorView,
            >(v@),
            r matches Err(x) ==> (x@ == ErrorView::Io && !self.in_memory()) || spec_entry_data(
                self.content(),
                self@,
                i as int,
                label.chars(),
            ) == Err::<Seq<u8>, ErrorView>(x@),
    {
        proof {
            use_type_invariant(self);
            assert(entry_fits(self@.entries[i as int], self@.chunks, self@.chunk_size));
        }
        let count = self.entries[i].chunk_count;
        if count > self.max_chunks_per_operation {
            return Err(Error::TooManyChunks);
        }
        if self.entries[i].original_size > usize::MAX as u64 {
            return Err(Error::TooLarge("original entry size"));
        }
        self.collect_chunks(i, label, 0, count, scratch)
    }

    /// How many bytes a range read of entry `i` yields.
    fn range_len(&self, i: usize, offset: u64, len: usize, exact: bool) -> (r: Result<usize>)
        requires
            i < self@.entries.len(),
        ensures
            match spec_range_len(self@, i as int, offset, len as int, exact) {
                Ok(a) => r == Ok::<usize, Error>(a as usize),
                Err(x) => r matches Err(e) && e@ == x,
            },
    {
        proof {
            use_type_invariant(self);
        }
        let size = self.entries[i].original_size;
        if offset > size || (offset == size && len >= 1 && exact) {
            return Err(Error::InvalidRange);
        }
        if len == 0 || offset == size {
            return Ok(0);
        }
        if exact && (offset > u64::MAX - len as u64 || offset + len as u64 > size) {
            return Err(Error::InvalidRange);
        }
        let actual: usize = if offset <= u64::MAX - len as u64 && offset + (len as u64) < size {
            len
        } else {
            (size - offset) as usize
        };
        let cs = self.chunk_size as u64;
        let first = offset / cs;
        let last = (offset + actual as u64 - 1) / cs;
        proof {
            assert(first <= last) by (nonlinear_arith)
                requires
                    cs > 0,
                    first == offset / cs,
                    last == (offset + actual - 1) / (cs as int),
                    offset <= offset + actual - 1,
            ;
        }
        if last - first + 1 > self.max_chunks_per_operation as u64 {
            return Err(Error::TooManyChunks);
        }
        Ok(actual)
    }

    /// Decodes the `n` bytes at `offset` of entry `i` from the chunks that
    /// hold them.
    fn range_bytes(&self, i: usize, label: ChecksumLabel, offset: u64, n: usize, scratch: &mut ArchiveScratch) -> (r:
        Result<Vec<u8>>)
        requires
            i < self@.entries.len(),
            0 < n,
            offset + n <= self@.entries[i as int].original_size,
        ensures
            r matches Ok(v) ==> spec_range_bytes(
                self.content(),
                self@,
                self@.entries[i as int],
                label.chars(),
                offset as int,
                n as int,
            ) == Ok::<Seq<u8>, ErrorView>(v@) && v@.len() == n,
            r matches Err(x) ==> (x@ == ErrorView::Io && !self.in_memory()) || spec_range_bytes(
                self.content(),
                self@,
                self@.entries[i as int],
                label.chars(),
                offset as int,
                n as int,
            ) == Err::<Seq<u8>, ErrorView>(x@),
    {
        proof {
            use_type_invariant(self);
        }
        let ghost m = self@;
        let ghost e = m.entries[i as int];
        let ghost content = self.content();
        let ghost lab = label.chars();
        let first = self.entries[i].first_chunk;
        let count = self.entries[i].chunk_count;
        let cs = self.chunk_size as u64;
        let end = offset + n as u64;
        let lo = offset / cs;
        let hi = (end - 1) / cs + 1;
        proof {
            assert(entry_fits(e, m.chunks, m.chunk_size));
            lemma_entry_span(e, m.chunks, m.chunk_size);
            lemma_range_chunks(e, m.chunks, m.chunk_size, offset as int, end as int);
        }
        let s0 = offset - lo * cs;
        let want_end = s0 + n as u64;
        let mut out: Vec<u8> = Vec::new();
        let mut covered: u64 = 0;
        let mut k: u32 = lo as u32;
        let ghost mut acc: Seq<u8> = Seq::empty();
        while k < hi as u32
            invariant
                m == self@,
                content == self.content(),
                lab == label.chars(),
                e == m.entries[i as int],
                first == e.first_chunk,
                count == e.chunk_count,
                lo <= k <= hi <= count,
                e.first_chunk + e.chunk_count <= m.chunks.len(),
                m.chunks.len() <= u32::MAX,
                s0 <= want_end,
                want_end == s0 + n,
                n <= usize::MAX,
                spec_chunks_between(content, m, e, lab, lo as int, k as int) == Ok::<
                    Seq<u8>,
                    ErrorView,
                >(acc),
                covered == acc.len(),
                covered == sum_original(m.chunks, first + lo, first + k),
                sum_original(m.chunks, first as int, first + count) == e.original_size,
                sum_original(m.chunks, first as int, first + lo) == lo * cs,
                sum_original(m.chunks, first as int, first + hi) >= end,
                end == offset + n,
                s0 == offset - lo * cs,
                i < m.entries.len(),
                cs == m.chunk_size,
                cs > 0,
                lo == offset / cs,
                hi == (end - 1) / (cs as int) + 1,
                out@ == acc.subrange(cap(s0 as int, covered as int), cap(want_end as int, covered as int)),
            decreases hi - k,
        {
            let g = first + k;
            match self.decode_chunk(label, k, g, &mut scratch.decoded, &mut scratch.stored) {
                Ok(()) => {},
                Err(x) => {
                    proof {
                        if !(x@ == ErrorView::Io && !self.in_memory()) {
                            lemma_between_err_prefix(content, m, e, lab, lo as int, k + 1, hi as int);
                        }
                    }
                    return Err(x);
                },
            }
            let ghost d = scratch.decoded@;
            proof {
                lemma_chunk_len(content, m, g as int, lab, k);
                lemma_sum_original_split(m.chunks, first as int, first + lo, first + k + 1);
                lemma_sum_original_split(m.chunks, first as int, first + k + 1, first + count);
                lemma_sum_original_split(m.chunks, first as int, first as int, first + lo);
                lemma_sum_original_split(m.chunks, first + lo, first + k, first + k + 1);
                lemma_window_append(acc, d, s0 as int, want_end as int);
            }
            let dl = scratch.decoded.len() as u64;
            let ts: u64 = if covered >= s0 {
                0
            } else if s0 - covered < dl {
                s0 - covered
            } else {
                dl
            };
            let te: u64 = if covered >= want_end {
                0
            } else if want_end - covered < dl {
                want_end - covered
            } else {
                dl
            };
            append_range(&mut out, scratch.decoded.as_slice(), ts as usize, te as usize);
            proof {
                acc = acc + d;
            }
            covered = covered + dl;
            k = k + 1;
        }
        proof {
            lemma_sum_original_split(m.chunks, first as int, first + lo, first + hi);
            assert(out@ == acc.subrange(s0 as int, want_end as int));
        }
        Ok(out)
    }

    /// Reads the asset at `path` whole. Like every read, it gives exactly
    /// what the model gives when the source is in memory; from another source
    /// an I/O error may stand in for it once the path has been found.
    pub fn read(&self, path: &str) -> (r: Result<Vec<u8>>)
        ensures
            r matches Ok(v) ==> spec_read(self.content(), self@, path@) == Ok::<Seq<u8>, ErrorView>(v@),
            r matches Err(e) ==> (e@ == ErrorView::Io && !self.in_memory() && spec_lookup(self@, path@) is Ok) || spec_read(self.content(), self@, path@) == Err::<
                Seq<u8>,
                ErrorView,
            >(e@),
    {
        let (i, normalized) = match self.lookup(path) {
            Ok(found) => found,
            Err(e) => return Err(e),
        };
        let mut scratch = ArchiveScratch::default();
        self.read_entry(i, ChecksumLabel::Path(normalized.as_str()), &mut scratch)
    }
}

impl<R: RandomAccessRead> Archive<R> {
    /// The entries, in table order.
    pub fn entries(&self) -> (r: &[Entry])
        ensures
            r@.map_values(|e: Entry| e@) == self@.entries,
    {
        self.entries.as_slice()
    }

    /// The entry at `path`.
    pub fn entry(&self, path: &str) -> (r: Result<&Entry>)
        ensures
            match spec_lookup(self@, path@) {
                Ok((i, _)) => r matches Ok(e) && e@ == self@.entries[i],
                Err(x) => r matches Err(e) && e@ == x,
            },
    {
        match self.lookup(path) {
            Ok((i, _)) => Ok(&self.entries[i]),
            Err(e) => Err(e),
        }
    }

    /// The entry with identifier `asset_id`, which must name exactly one.
    pub fn entry_by_id(&self, asset_id: AssetId) -> (r: Result<&Entry>)
        ensures
            match spec_lookup_id(self@, asset_id.0) {
                Ok(i) => r matches Ok(e) && e@ == self@.entries[i],
                Err(x) => r matches Err(e) && e@ == x,
            },
    {
        match self.find_id(asset_id.get()) {
            Ok(i) => {
                proof {
                    lemma_lookup_id_ok(self@, asset_id.0);
                }
                Ok(&self.entries[i])
            },
            Err(e) => Err(e),
        }
    }

    /// The decoded size of every chunk but the last of each asset.
    pub fn chunk_size(&self) -> (r: u32)
        ensures
            r == self@.chunk_size,
    {
        self.chunk_size
    }

    /// The alignment of chunks and of the table of contents.
    pub fn alignment(&self) -> (r: u32)
        ensures
            r == self@.alignment,
    {
        self.alignment
    }

    /// Whether the entries carry identifiers only.
    pub fn paths_stripped(&self) -> (r: bool)
        ensures
            r == self@.paths_stripped,
    {
        self.paths_stripped
    }

    /// How the archive is protected: sealed archives carry a chunk key.
    pub fn protection(&self) -> (r: Protection)
        ensures
            r == (if self@.aead_key is Some {
                Protection::Aead
            } else {
                Protection::Xor
            }),
    {
        proof {
            use_type_invariant(self);
        }
        self.protection
    }

    /// Fails with `TooManyChunks` when one operation would decode more than
    /// `count` chunks.
    fn ensure_chunk_operation_limit(&self, count: u32) -> (r: Result<()>)
        ensures
            r is Ok <==> count <= self@.max_chunks_per_operation,
            r matches Err(e) ==> e@ == ErrorView::TooManyChunks,
    {
        if count <= self.max_chunks_per_operation {
            Ok(())
        } else {
            Err(Error::TooManyChunks)
        }
    }

    /// Chunk record `global`.
    fn chunk(&self, global: u32) -> (r: Result<Chunk>)
        ensures
            global < self@.chunks.len() ==> r == Ok::<Chunk, Error>(self@.chunks[global as int]),
            global >= self@.chunks.len() ==> (r matches Err(e) && e@ == ErrorView::Corrupt(
                "chunk index outside TOC",
            )),
    {
        if (global as usize) < self.chunks.len() {
            Ok(self.chunks[global as usize])
        } else {
            Err(Error::Corrupt("chunk index outside TOC"))
        }
    }

    /// Decodes every chunk of every entry, checking each against its
    /// checksum.
    pub fn verify(&self) -> (r: Result<()>)
        ensures
            r is Ok ==> spec_verify(self.content(), self@) == Ok::<(), ErrorView>(()),
            r matches Err(e) ==> (e@ == ErrorView::Io && !self.in_memory() && self@.chunks.len() <= self@.max_chunks_per_operation) || spec_verify(self.content(), self@) == Err::<
                (),
                ErrorView,
            >(e@),
    {
        proof {
            use_type_invariant(self);
        }
        let ghost m = self@;
        let ghost content = self.content();
        if self.chunks.len() > self.max_chunks_per_operation as usize {
            return Err(Error::TooManyChunks);
        }
        let mut scratch = ArchiveScratch::default();
        let n = self.entries.len();
        let mut i: usize = 0;
        while i < n
            invariant
                m == self@,
                content == self.content(),
                n == m.entries.len(),
                i <= n,
                m.chunks.len() <= m.max_chunks_per_operation,
                layout_holds(m),
                spec_verify_entries(content, m, i as int) == Ok::<(), ErrorView>(()),
            decreases n - i,
        {
            let label = if self.paths_stripped {
                ChecksumLabel::Hash(self.entries[i].path_hash)
            } else {
                ChecksumLabel::Path(self.entries[i].path.as_str())
            };
            let ghost e = m.entries[i as int];
            let ghost lab = label.chars();
            proof {
                assert(lab == verify_label(m, i as int));
                assert(entry_fits(e, m.chunks, m.chunk_size));
            }
            let first = self.entries[i].first_chunk;
            let count = self.entries[i].chunk_count;
            let mut k: u32 = 0;
            let ghost mut acc: Seq<u8> = Seq::empty();
            while k < count
                invariant
                    m == self@,
                    content == self.content(),
                    lab == label.chars(),
                    i < n == m.entries.len(),
                    e == m.entries[i as int],
                    first == e.first_chunk,
                    count == e.chunk_count,
                    k <= count,
                    e.first_chunk + e.chunk_count <= m.chunks.len(),
                    m.chunks.len() <= u32::MAX,
                    m.chunks.len() <= m.max_chunks_per_operation,
                    lab == verify_label(m, i as int),
                    spec_verify_entries(content, m, i as int) == Ok::<(), ErrorView>(()),
                    spec_chunks_between(content, m, e, lab, 0, k as int) == Ok::<Seq<u8>, ErrorView>(
                        acc,
                    ),
                decreases count - k,
            {
                let g = first + k;
                match self.decode_chunk(label, k, g, &mut scratch.decoded, &mut scratch.stored) {
                    Ok(()) => {},
                    Err(x) => {
                        proof {
                            if !(x@ == ErrorView::Io && !self.in_memory()) {
                                lemma_between_err_prefix(content, m, e, lab, 0, k + 1, count as int);
                                assert(spec_verify_entries(content, m, i + 1) is Err);
                                lemma_verify_err_prefix(content, m, i + 1, n as int);
                            }
                        }
                        return Err(x);
                    },
                }
                proof {
                    acc = acc + scratch.decoded@;
                }
                k = k + 1;
            }
            i = i + 1;
        }
        Ok(())
    }

    /// Whether `path` names an entry; a malformed path names none.
    pub fn contains(&self, path: &str) -> (r: bool)
        ensures
            r == spec_lookup(self@, path@) is Ok,
    {
        match self.try_contains(path) {
            Ok(b) => b,
            Err(_) => false,
        }
    }

    /// Whether `path` names an entry; a malformed path is an error.
    pub fn try_contains(&self, path: &str) -> (r: Result<bool>)
        ensures
            spec_normalize(path@) is None ==> (r matches Err(e) && e@ == ErrorView::InvalidPath),
            spec_normalize(path@) is Some ==> r == Ok::<bool, Error>(spec_lookup(self@, path@) is Ok),
    {
        let normalized = match normalize_lookup_path(path) {
            Ok(n) => n,
            Err(e) => return Err(e),
        };
        match self.find_normalized(&normalized) {
            Ok(i) => {
                proof {
                    lemma_lookup_found(self@, path@, normalized@, i as int);
                }
                Ok(true)
            },
            Err(_) => Ok(false),
        }
    }

    /// Whether some entry has identifier `path_hash`.
    pub fn contains_hash(&self, path_hash: u64) -> (r: bool)
        ensures
            r == exists|i: int| has_id(self@, i, path_hash),
    {
        self.contains_id(AssetId::from_raw(path_hash))
    }

    /// Whether some entry has identifier `asset_id`.
    pub fn contains_id(&self, asset_id: AssetId) -> (r: bool)
        ensures
            r == exists|i: int| has_id(self@, i, asset_id.0),
    {
        let id = asset_id.get();
        let ghost s = self.index@;
        let (start, end) = self.id_slots(id);
        proof {
            if start == end {
                assert forall|i: int| !has_id(self@, i, id) by {
                    if has_id(self@, i, id) {
                        assert(has_slot(s, i));
                        let k = choose|k: int| 0 <= k < s.len() && (#[trigger] s[k]).1 == i;
                        assert(s[k].0 == id);
                    }
                }
            } else {
                assert(has_id(self@, s[start as int].1 as int, id));
            }
        }
        start != end
    }

    /// Reads the asset with identifier `path_hash` whole.
    pub fn read_by_hash(&self, path_hash: u64) -> (r: Result<Vec<u8>>)
        ensures
            r matches Ok(v) ==> spec_read_by_id(self.content(), self@, path_hash) == Ok::<Seq<u8>, ErrorView>(
                v@,
            ),
            r matches Err(e) ==> (e@ == ErrorView::Io && !self.in_memory() && spec_lookup_id(self@, path_hash) is Ok) || spec_read_by_id(self.content(), self@, path_hash)
                == Err::<Seq<u8>, ErrorView>(e@),
    {
        self.read_by_id(AssetId::from_raw(path_hash))
    }

    /// Reads the asset with identifier `asset_id` whole.
    pub fn read_by_id(&self, asset_id: AssetId) -> (r: Result<Vec<u8>>)
        ensures
            r matches Ok(v) ==> spec_read_by_id(self.content(), self@, asset_id.0) == Ok::<
                Seq<u8>,
                ErrorView,
            >(v@),
            r matches Err(e) ==> (e@ == ErrorView::Io && !self.in_memory() && spec_lookup_id(self@, asset_id.0) is Ok) || spec_read_by_id(self.content(), self@, asset_id.0)
                == Err::<Seq<u8>, ErrorView>(e@),
    {
        let id = asset_id.get();
        let i = match self.find_id(id) {
            Ok(i) => i,
            Err(e) => return Err(e),
        };
        proof {
            lemma_lookup_id_ok(self@, id);
        }
        let label = if self.paths_stripped {
            ChecksumLabel::Hash(id)
        } else {
            ChecksumLabel::Path(self.entries[i].path.as_str())
        };
        let mut scratch = ArchiveScratch::default();
        self.read_entry(i, label, &mut scratch)
    }

    /// Reads the asset at `path` into `dst`, which must have its size.
    pub fn read_into(&self, path: &str, dst: &mut [u8]) -> (r: Result<()>)
        ensures
            final(dst)@.len() == old(dst)@.len(),
            r is Err ==> final(dst)@ == old(dst)@,
            r is Ok ==> spec_read_into(self.content(), self@, path@, old(dst)@.len()) == Ok::<
                Seq<u8>,
                ErrorView,
            >(final(dst)@),
            r matches Err(e) ==> (e@ == ErrorView::Io && !self.in_memory() && spec_lookup(self@, path@) is Ok) || spec_read_into(
                self.content(),
                self@,
                path@,
                old(dst)@.len(),
            ) == Err::<Seq<u8>, ErrorView>(e@),
    {
        let mut scratch = ArchiveScratch::default();
        self.read_into_with_scratch(path, dst, &mut scratch)
    }

    /// Reads the asset at `path` into `dst`, which must have its size,
    /// using `scratch` for intermediate buffers.
    pub fn read_into_with_scratch(&self, path: &str, dst: &mut [u8], scratch: &mut ArchiveScratch) -> (r:
        Result<()>)
        ensures
            final(dst)@.len() == old(dst)@.len(),
            r is Err ==> final(dst)@ == old(dst)@,
            r is Ok ==> spec_read_into(self.content(), self@, path@, old(dst)@.len()) == Ok::<
                Seq<u8>,
                ErrorView,
            >(final(dst)@),
            r matches Err(e) ==> (e@ == ErrorView::Io && !self.in_memory() && spec_lookup(self@, path@) is Ok) || spec_read_into(
                self.content(),
                self@,
                path@,
                old(dst)@.len(),
            ) == Err::<Seq<u8>, ErrorView>(e@),
    {
        proof {
            use_type_invariant(self);
        }
        let (i, normalized) = match self.lookup(path) {
            Ok(found) => found,
            Err(e) => return Err(e),
        };
        proof {
            assert(entry_fits(self@.entries[i as int], self@.chunks, self@.chunk_size));
        }
        let count = self.entries[i].chunk_count;
        match self.ensure_chunk_operation_limit(count) {
            Ok(()) => {},
            Err(e) => return Err(e),
        }
        let size = self.entries[i].original_size;
        if size > usize::MAX as u64 {
            return Err(Error::TooLarge("original entry size"));
        }
        if dst.len() != size as usize {
            return Err(Error::BufferSizeMismatch { expected: size as usize, actual: dst.len() });
        }
        let data = match self.collect_chunks(i, ChecksumLabel::Path(normalized.as_str()), 0, count, scratch) {
            Ok(d) => d,
            Err(e) => return Err(e),
        };
        proof {
            lemma_between_len(
                self.content(),
                self@,
                self@.entries[i as int],
                normalized@,
                0,
                count as int,
            );
        }
        copy_bytes(dst, data.as_slice());
        Ok(())
    }

    /// Reads chunk `chunk_index` of the asset at `path`.
    pub fn read_chunk(&self, path: &str, chunk_index: u32) -> (r: Result<Vec<u8>>)
        ensures
            r matches Ok(v) ==> spec_read_chunk(self.content(), self@, path@, chunk_index, None) == Ok::<
                Seq<u8>,
                ErrorView,
            >(v@),
            r matches Err(e) ==> (e@ == ErrorView::Io && !self.in_memory() && spec_lookup(self@, path@) is Ok) || spec_read_chunk(
                self.content(),
                self@,
                path@,
                chunk_index,
                None,
            ) == Err::<Seq<u8>, ErrorView>(e@),
    {
        proof {
            use_type_invariant(self);
        }
        let (i, normalized) = match self.lookup(path) {
            Ok(found) => found,
            Err(e) => return Err(e),
        };
        proof {
            assert(entry_fits(self@.entries[i as int], self@.chunks, self@.chunk_size));
        }
        let count = self.entries[i].chunk_count;
        if chunk_index >= count {
            return Err(Error::ChunkOutOfRange { chunk: chunk_index, count });
        }
        let global = self.entries[i].first_chunk + chunk_index;
        match self.ensure_chunk_operation_limit(1) {
            Ok(()) => {},
            Err(e) => return Err(e),
        }
        let mut out: Vec<u8> = Vec::new();
        let mut scratch = ArchiveScratch::default();
        match self.decode_chunk(
            ChecksumLabel::Path(normalized.as_str()),
            chunk_index,
            global,
            &mut out,
            &mut scratch.stored,
        ) {
            Ok(()) => Ok(out),
            Err(e) => Err(e),
        }
    }

    /// Reads chunk `chunk_index` of the asset at `path` into `dst`, which
    /// must have the chunk's size.
    pub fn read_chunk_into(&self, path: &str, chunk_index: u32, dst: &mut [u8]) -> (r: Result<()>)
        ensures
            final(dst)@.len() == old(dst)@.len(),
            r is Err ==> final(dst)@ == old(dst)@,
            r is Ok ==> spec_read_chunk(
                self.content(),
                self@,
                path@,
                chunk_index,
                Some(old(dst)@.len()),
            ) == Ok::<Seq<u8>, ErrorView>(final(dst)@),
            r matches Err(e) ==> (e@ == ErrorView::Io && !self.in_memory() && spec_lookup(self@, path@) is Ok) || spec_read_chunk(
                self.content(),
                self@,
                path@,
                chunk_index,
                Some(old(dst)@.len()),
            ) == Err::<Seq<u8>, ErrorView>(e@),
    {
        let mut scratch = ArchiveScratch::default();
        self.read_chunk_into_with_scratch(path, chunk_index, dst, &mut scratch)
    }

    /// Reads chunk `chunk_index` of the asset at `path` into `dst`, which
    /// must have the chunk's size, using `scratch` for intermediate buffers.
    pub fn read_chunk_into_with_scratch(
        &self,
        path: &str,
        chunk_index: u32,
        dst: &mut [u8],
        scratch: &mut ArchiveScratch,
    ) -> (r: Result<()>)
        ensures
            final(dst)@.len() == old(dst)@.len(),
            r is Err ==> final(dst)@ == old(dst)@,
            r is Ok ==> spec_read_chunk(
                self.content(),
                self@,
                path@,
                chunk_index,
                Some(old(dst)@.len()),
            ) == Ok::<Seq<u8>, ErrorView>(final(dst)@),
            r matches Err(e) ==> (e@ == ErrorView::Io && !self.in_memory() && spec_lookup(self@, path@) is Ok) || spec_read_chunk(
                self.content(),
                self@,
                path@,
                chunk_index,
                Some(old(dst)@.len()),
            ) == Err::<Seq<u8>, ErrorView>(e@),
    {
        proof {
            use_type_invariant(self);
        }
        let (i, normalized) = match self.lookup(path) {
            Ok(found) => found,
            Err(e) => return Err(e),
        };
        proof {
            assert(entry_fits(self@.entries[i as int], self@.chunks, self@.chunk_size));
        }
        let count = self.entries[i].chunk_count;
        if chunk_index >= count {
            return Err(Error::ChunkOutOfRange { chunk: chunk_index, count });
        }
        let global = self.entries[i].first_chunk + chunk_index;
        match self.ensure_chunk_operation_limit(1) {
            Ok(()) => {},
            Err(e) => return Err(e),
        }
        let c = match self.chunk(global) {
            Ok(c) => c,
            Err(e) => return Err(e),
        };
        proof {
            assert(chunk_fits(self@.chunks[global as int], self@.chunk_size));
        }
        if dst.len() != c.original_size as usize {
            return Err(
                Error::BufferSizeMismatch { expected: c.original_size as usize, actual: dst.len() },
            );
        }
        match self.decode_chunk(
            ChecksumLabel::Path(normalized.as_str()),
            chunk_index,
            global,
            &mut scratch.decoded,
            &mut scratch.stored,
        ) {
            Ok(()) => {},
            Err(e) => return Err(e),
        }
        proof {
            lemma_chunk_len(self.content(), self@, global as int, normalized@, chunk_index);
        }
        copy_bytes(dst, scratch.decoded.as_slice());
        Ok(())
    }

    /// Reads up to `len` bytes at `offset` of the asset at `path`: what of
    /// the range lies inside the asset.
    pub fn read_range(&self, path: &str, offset: u64, len: usize) -> (r: Result<Vec<u8>>)
        ensures
            r matches Ok(v) ==> spec_read_range(self.content(), self@, path@, offset, len as int, false)
                == Ok::<Seq<u8>, ErrorView>(v@),
            r matches Err(e) ==> (e@ == ErrorView::Io && !self.in_memory() && spec_lookup(self@, path@) is Ok) || spec_read_range(
                self.content(),
                self@,
                path@,
                offset,
                len as int,
                false,
            ) == Err::<Seq<u8>, ErrorView>(e@),
    {
        let mut scratch = ArchiveScratch::default();
        self.range_read(path, offset, len, false, &mut scratch)
    }

    /// Reads exactly `len` bytes at `offset` of the asset at `path`.
    pub fn read_range_exact(&self, path: &str, offset: u64, len: usize) -> (r: Result<Vec<u8>>)
        ensures
            r matches Ok(v) ==> spec_read_range(self.content(), self@, path@, offset, len as int, true)
                == Ok::<Seq<u8>, ErrorView>(v@),
            r matches Err(e) ==> (e@ == ErrorView::Io && !self.in_memory() && spec_lookup(self@, path@) is Ok) || spec_read_range(
                self.content(),
                self@,
                path@,
                offset,
                len as int,
                true,
            ) == Err::<Seq<u8>, ErrorView>(e@),
    {
        let mut scratch = ArchiveScratch::default();
        self.range_read(path, offset, len, true, &mut scratch)
    }

    /// Reads up to `dst.len()` bytes at `offset` of the asset at `path` into
    /// the front of `dst`, and returns how many it read.
    pub fn read_range_into(&self, path: &str, offset: u64, dst: &mut [u8]) -> (r: Result<usize>)
        ensures
            final(dst)@.len() == old(dst)@.len(),
            r is Err ==> final(dst)@ == old(dst)@,
            r matches Ok(n) ==> n <= old(dst)@.len() && spec_read_range(
                self.content(),
                self@,
                path@,
                offset,
                old(dst)@.len() as int,
                false,
            ) == Ok::<Seq<u8>, ErrorView>(final(dst)@.take(n as int)) && final(dst)@.skip(n as int)
                == old(dst)@.skip(n as int),
            r matches Err(e) ==> (e@ == ErrorView::Io && !self.in_memory() && spec_lookup(self@, path@) is Ok) || spec_read_range(
                self.content(),
                self@,
                path@,
                offset,
                old(dst)@.len() as int,
                false,
            ) == Err::<Seq<u8>, ErrorView>(e@),
    {
        let mut scratch = ArchiveScratch::default();
        self.read_range_with_scratch(path, offset, dst, &mut scratch)
    }

    /// Reads up to `dst.len()` bytes at `offset` of the asset at `path` into
    /// the front of `dst`, using `scratch` for intermediate buffers, and
    /// returns how many it read.
    pub fn read_range_with_scratch(
        &self,
        path: &str,
        offset: u64,
        dst: &mut [u8],
        scratch: &mut ArchiveScratch,
    ) -> (r: Result<usize>)
        ensures
            final(dst)@.len() == old(dst)@.len(),
            r is Err ==> final(dst)@ == old(dst)@,
            r matches Ok(n) ==> n <= old(dst)@.len() && spec_read_range(
                self.content(),
                self@,
                path@,
                offset,
                old(dst)@.len() as int,
                false,
            ) == Ok::<Seq<u8>, ErrorView>(final(dst)@.take(n as int)) && final(dst)@.skip(n as int)
                == old(dst)@.skip(n as int),
            r matches Err(e) ==> (e@ == ErrorView::Io && !self.in_memory() && spec_lookup(self@, path@) is Ok) || spec_read_range(
                self.content(),
                self@,
                path@,
                offset,
                old(dst)@.len() as int,
                false,
            ) == Err::<Seq<u8>, ErrorView>(e@),
    {
        let data = match self.range_read(path, offset, dst.len(), false, scratch) {
            Ok(d) => d,
            Err(e) => return Err(e),
        };
        let n = data.len();
        copy_prefix(dst, data.as_slice());
        proof {
            assert(dst@.take(n as int) =~= data@);
        }
        Ok(n)
    }

    /// The range read behind the public range readers.
    fn range_read(&self, path: &str, offset: u64, len: usize, exact: bool, scratch: &mut ArchiveScratch) -> (r:
        Result<Vec<u8>>)
        ensures
            r matches Ok(v) ==> v@.len() <= len && spec_read_range(
                self.content(),
                self@,
                path@,
                offset,
                len as int,
                exact,
            ) == Ok::<Seq<u8>, ErrorView>(v@),
            r matches Err(e) ==> (e@ == ErrorView::Io && !self.in_memory() && spec_lookup(self@, path@) is Ok) || spec_read_range(
                self.content(),
                self@,
                path@,
                offset,
                len as int,
                exact,
            ) == Err::<Seq<u8>, ErrorView>(e@),
    {
        let (i, normalized) = match self.lookup(path) {
            Ok(found) => found,
            Err(e) => return Err(e),
        };
        let actual = match self.range_len(i, offset, len, exact) {
            Ok(a) => a,
            Err(e) => return Err(e),
        };
        if actual == 0 {
            return Ok(Vec::new());
        }
        self.range_bytes(i, ChecksumLabel::Path(normalized.as_str()), offset, actual, scratch)
    }
}

} // verus!
