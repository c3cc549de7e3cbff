use std::collections::HashSet;
use vstd::prelude::*;
use vstd::utf8::encode_utf8;

use crate::codec::{
    checksum, lz4_compress, spec_lz4_compress, spec_lz4_decompress, spec_xor, spec_xxh3_64, xor_in_place,
    zeroed,
};
use crate::crypto::{
    chunk_aad, derive_key, encrypt, spec_chunk_aad, spec_derive_key, spec_toc_aad, spec_unseal, toc_aad,
    AEAD_OVERHEAD,
};
use crate::error::{Error, ErrorView, Result};
use crate::format::{
    align_up, spec_align_up, spec_header_bytes, write_header, Header, HEADER_SIZE, MAX_TOC_RAW_SIZE,
    MAX_TOC_STORED_SIZE, VERSION,
};
use crate::layout::{sum_original, sum_stored};
use crate::options::{spec_validate_options, PackMode, PackOptions, Protection};
use crate::path::{lemma_normalize_idempotent, normalize_path, spec_normalize};
use crate::deterministic::chunk_total;
use crate::sink::{spec_place, ArchiveWrite};
use crate::toc::{encode_toc, path_bytes, spec_entries_len, spec_toc_bytes, Chunk, Entry, EntryView};

verus! {

broadcast use vstd::std_specs::hash::group_hash_axioms;

/// A source of an asset's bytes, read front to back.
///
/// Implementations retry interrupted reads themselves.
pub trait AssetRead {
    /// The bytes still to be read.
    ///
    /// The implementation in this crate defines it. One outside this crate
    /// cannot (spec functions are written in Verus) and keeps this default,
    /// which holds no bytes; the contract of `read` then describes an empty
    /// reader, so the results that the library proves carry over only to
    /// the reader of this crate.
    closed spec fn remaining(&self) -> Seq<u8> {
        Seq::empty()
    }

    /// Whether the reader is in memory, so that its reads never fail.
    /// Implementations outside this crate keep this default.
    closed spec fn in_memory(&self) -> bool {
        false
    }

    /// Reads the next bytes into the front of `buf` and returns how many;
    /// zero for a non-empty `buf` means that nothing is left. A reader in
    /// memory always answers.
    fn read(&mut self, buf: &mut [u8]) -> (r: std::io::Result<usize>)
        ensures
            old(self).in_memory() ==> r is Ok,
            final(self).in_memory() == old(self).in_memory(),
            final(buf)@.len() == old(buf)@.len(),
            r matches Ok(n) ==> {
                &&& n <= old(buf)@.len()
                &&& n <= old(self).remaining().len()
                &&& final(buf)@.take(n as int) == old(self).remaining().take(n as int)
                &&& final(self).remaining() == old(self).remaining().skip(n as int)
                &&& (n == 0 && old(buf)@.len() > 0 ==> old(self).remaining().len() == 0)
            },
    ;
}

impl<'a> AssetRead for &'a [u8] {
    open spec fn remaining(&self) -> Seq<u8> {
        (*self)@
    }

    open spec fn in_memory(&self) -> bool {
        true
    }

    fn read(&mut self, buf: &mut [u8]) -> (r: std::io::Result<usize>)
        ensures
            r matches Ok(n) && n == (if old(buf)@.len() < old(self)@.len() {
                old(buf)@.len()
            } else {
                old(self)@.len()
            }),
    {
        let len = self.len();
        let n = if buf.len() < len {
            buf.len()
        } else {
            len
        };
        let src: &'a [u8] = *self;
        let mut i: usize = 0;
        while i < n
            invariant
                n <= src@.len(),
                n <= buf@.len(),
                buf@.len() == old(buf)@.len(),
                i <= n,
                forall|j: int| 0 <= j < i ==> buf@[j] == src@[j],
            decreases n - i,
        {
            buf[i] = src[i];
            i = i + 1;
        }
        assert(buf@.take(n as int) =~= src@.take(n as int));
        *self = vstd::slice::slice_subrange(src, n, len);
        assert((*self)@ =~= src@.skip(n as int));
        Ok(n)
    }
}

/// `x / d` is at least `q` when `x` holds `q` multiples of `d`.
proof fn lemma_div_at_least(x: int, d: int, q: int)
    requires
        d > 0,
        x >= q * d,
        x >= 0,
    ensures
        x / d >= q,
{
    vstd::arithmetic::div_mod::lemma_fundamental_div_mod(x, d);
    vstd::arithmetic::div_mod::lemma_mod_pos_bound(x, d);
    let m = x / d;
    let r = x % d;
    assert(m >= q) by (nonlinear_arith)
        requires
            x == d * m + r,
            r < d,
            x >= q * d,
            d > 0,
    ;
}

/// `x / d` is `q` when `x` lies in `[q * d, (q + 1) * d)`.
proof fn lemma_div_between(x: int, d: int, q: int)
    requires
        d > 0,
        q * d <= x < (q + 1) * d,
        x >= 0,
    ensures
        x / d == q,
{
    vstd::arithmetic::div_mod::lemma_fundamental_div_mod(x, d);
    vstd::arithmetic::div_mod::lemma_mod_pos_bound(x, d);
    let m = x / d;
    let r = x % d;
    assert(m == q) by (nonlinear_arith)
        requires
            x == d * m + r,
            0 <= r < d,
            q * d <= x < (q + 1) * d,
            d > 0,
    ;
}

/// The number of chunks of `size` bytes that `len` bytes are stored in: the
/// length divided by the chunk size, rounded up.
pub open spec fn chunks_for(len: int, size: int) -> int {
    (len + size - 1) / size
}

/// Whether the destination `w` may have refused a write of the packer: it
/// is not in memory, or it holds so many bytes that one more write of the
/// packer (at most 512 MiB) could end past the largest possible vector.
pub open spec fn write_may_fail<W: ArchiveWrite>(w: W) -> bool {
    !w.in_memory() || w.written().len() + 0x2000_0000 > usize::MAX
}

/// Fills `buf` from `reader`, stopping early only when the reader is
/// exhausted; returns how many bytes it read.
fn read_chunk<R: AssetRead>(reader: &mut R, buf: &mut [u8]) -> (r: Result<usize>)
    ensures
        final(buf)@.len() == old(buf)@.len(),
        r matches Ok(n) ==> {
            &&& n <= old(buf)@.len()
            &&& n <= old(reader).remaining().len()
            &&& final(buf)@.take(n as int) == old(reader).remaining().take(n as int)
            &&& final(reader).remaining() == old(reader).remaining().skip(n as int)
            &&& (n < old(buf)@.len() ==> n == old(reader).remaining().len())
        },
        r matches Err(e) ==> e@ == ErrorView::Io && !old(reader).in_memory(),
        final(reader).in_memory() == old(reader).in_memory(),
{
    let ghost start = reader.remaining();
    let total = buf.len();
    let mut filled: usize = 0;
    while filled < total
        invariant_except_break
            filled <= total,
            total == old(buf)@.len(),
            buf@.len() == total,
            filled <= start.len(),
            buf@.take(filled as int) == start.take(filled as int),
            reader.remaining() == start.skip(filled as int),
            reader.in_memory() == old(reader).in_memory(),
        ensures
            filled <= total,
            buf@.len() == total,
            filled <= start.len(),
            buf@.take(filled as int) == start.take(filled as int),
            reader.remaining() == start.skip(filled as int),
            reader.in_memory() == old(reader).in_memory(),
            filled < total ==> filled == start.len(),
        decreases total - filled,
    {
        let ghost before = buf@;
        let ghost rem = reader.remaining();
        let (head, tail) = buf.split_at_mut(filled);
        let res = reader.read(tail);
        let ghost t = tail@;
        proof {
            assert(buf@ == head@ + t);
            assert(head@ == before.subrange(0, filled as int));
        }
        match res {
            Ok(0) => {
                break;
            },
            Ok(n) => {
                proof {
                    assert(t.take(n as int) == rem.take(n as int));
                    assert(rem == start.skip(filled as int));
                    assert forall|j: int| 0 <= j < filled + n implies buf@[j] == start[j] by {
                        if j < filled {
                            assert(buf@[j] == before[j]);
                            assert(before.take(filled as int)[j] == start.take(filled as int)[j]);
                        } else {
                            assert(buf@[j] == t[j - filled]);
                            assert(t.take(n as int)[j - filled] == rem.take(n as int)[j - filled]);
                        }
                    }
                    assert(buf@.take(filled + n) =~= start.take(filled + n));
                    assert(reader.remaining() =~= start.skip(filled + n));
                }
                filled = filled + n;
            },
            Err(e) => return Err(Error::Io(e)),
        }
    }
    Ok(filled)
}

/// A file to pack: its path and its bytes.
#[derive(Debug, Clone)]
pub struct InputFile {
    pub path: String,
    pub data: Vec<u8>,
}

/// What a finished pack wrote.
#[derive(Debug, Copy, Clone, PartialEq, Eq, Structural)]
pub struct PackSummary {
    pub archive_len: u64,
    pub entry_count: u32,
    pub chunk_count: u32,
}

/// The stored form of a chunk that decodes to `raw`: its LZ4 encoding when
/// that is smaller, and then, with a key, that payload sealed to position
/// `g`.
pub open spec fn stored_form(stored: Seq<u8>, raw: Seq<u8>, compressed: bool, aead_key: Option<Seq<u8>>, g: u32) -> bool {
    let plain = if compressed {
        spec_lz4_compress(raw)
    } else {
        raw
    };
    &&& compressed == (spec_lz4_compress(raw).len() < raw.len())
    &&& plain.len() > 0
    &&& (compressed ==> spec_lz4_decompress(plain, raw.len()) == Some(raw))
    &&& match aead_key {
        None => stored == plain,
        Some(k) => stored.len() == plain.len() + AEAD_OVERHEAD && spec_unseal(k, stored, spec_chunk_aad(g))
            == Some(plain),
    }
}

/// Chunk record `c`, number `g`, lies in `content`: after the header,
/// aligned, and holding the stored form of `raw` under its checksum.
pub open spec fn chunk_written(
    content: Seq<u8>,
    c: Chunk,
    raw: Seq<u8>,
    aead_key: Option<Seq<u8>>,
    g: int,
    o: PackOptions,
) -> bool {
    &&& 0 < raw.len() <= o.chunk_size
    &&& c.original_size == raw.len()
    &&& c.checksum == spec_xxh3_64(raw)
    &&& c.offset >= HEADER_SIZE
    &&& c.offset % (o.alignment as u64) == 0
    &&& c.offset + c.stored_size <= content.len()
    &&& stored_form(content.subrange(c.offset as int, c.offset + c.stored_size), raw, c.compressed, aead_key, g as u32)
}

/// The bytes of the decoded chunks `lo..hi`, one after the other.
pub open spec fn concat_range(raws: Seq<Seq<u8>>, lo: int, hi: int) -> Seq<u8>
    decreases hi - lo,
{
    if hi <= lo {
        Seq::empty()
    } else {
        concat_range(raws, lo, hi - 1) + raws[hi - 1]
    }
}

/// Where the chunks of entry `i` start: right after those of the entry
/// before it.
pub open spec fn entry_start(es: Seq<EntryView>, i: int) -> int {
    if i <= 0 {
        0
    } else {
        es[i - 1].first_chunk + es[i - 1].chunk_count
    }
}

/// Entry `e`, which packed `data`, owns chunks `start..` that decode to
/// `data` and all but the last of which are full.
pub open spec fn entry_written(
    e: EntryView,
    data: Seq<u8>,
    start: int,
    cs: Seq<Chunk>,
    raws: Seq<Seq<u8>>,
    o: PackOptions,
) -> bool {
    let first = e.first_chunk as int;
    let end = first + e.chunk_count;
    &&& first == start
    &&& end <= cs.len()
    &&& concat_range(raws, first, end) == data
    &&& e.original_size == data.len()
    &&& e.stored_size == sum_stored(cs, first, end)
    &&& forall|g: int| first <= g < end - 1 ==> (#[trigger] raws[g]).len() == o.chunk_size
    &&& spec_normalize(e.path) == Some(e.path)
    &&& e.path_hash == spec_xxh3_64(encode_utf8(e.path))
}

/// The identifiers (in production) or paths (in debug mode) of the entries
/// are distinct.
pub open spec fn entries_distinct(es: Seq<EntryView>, mode: PackMode) -> bool {
    forall|i: int, j: int|
        0 <= i < j < es.len() ==> if mode == PackMode::Production {
            (#[trigger] es[i]).path_hash != (#[trigger] es[j]).path_hash
        } else {
            es[i].path != es[j].path
        }
}

/// The chunks lie one after the other, in order.
pub open spec fn chunks_ordered(cs: Seq<Chunk>) -> bool {
    forall|a: int, b: int| 0 <= a < b < cs.len() ==> (#[trigger] cs[a]).offset + cs[a].stored_size <= (
    #[trigger] cs[b]).offset
}

/// The key the chunks and table of an archive packed with `o` are sealed
/// under, if they are sealed.
pub open spec fn pack_key(o: PackOptions, key: Seq<u8>) -> Option<Seq<u8>> {
    if o.protection == Protection::Aead {
        Some(spec_derive_key(key))
    } else {
        None
    }
}

/// The header flags of an archive packed with `o`: LZ4, chunked and XXH3
/// always, XOR or AEAD protection, and stripped paths in production mode.
pub open spec fn pack_flags(o: PackOptions) -> u16 {
    match (o.protection, o.mode) {
        (Protection::Xor, PackMode::Debug) => 15,
        (Protection::Xor, PackMode::Production) => 31,
        (Protection::Aead, PackMode::Debug) => 45,
        (Protection::Aead, PackMode::Production) => 61,
    }
}

/// The entries as the table stores them: without paths in production mode.
pub open spec fn stored_entries(es: Seq<EntryView>, mode: PackMode) -> Seq<EntryView> {
    if mode == PackMode::Production {
        es.map_values(|e: EntryView| EntryView { path: Seq::empty(), ..e })
    } else {
        es
    }
}

/// The header of an archive packed with `o` that holds `entry_count`
/// entries and `chunk_count` chunks, and whose table is stored in
/// `toc_size` bytes at `toc_offset` and decodes to `toc_plain`.
pub open spec fn packed_header(
    o: PackOptions,
    entry_count: nat,
    chunk_count: nat,
    toc_offset: u64,
    toc_size: u64,
    toc_plain: Seq<u8>,
) -> Header {
    Header {
        version: VERSION,
        flags: pack_flags(o),
        header_size: HEADER_SIZE as u32,
        alignment: o.alignment,
        chunk_size: o.chunk_size as u32,
        entry_count: entry_count as u32,
        chunk_count: chunk_count as u32,
        toc_offset,
        toc_size,
        toc_raw_size: toc_plain.len() as u64,
        toc_hash: spec_xxh3_64(toc_plain),
    }
}

/// Where the bytes in front of chunk `g` end: at the end of chunk `g - 1`,
/// or of the header for the first chunk.
pub open spec fn chunk_end(cs: Seq<Chunk>, g: int) -> int {
    if g <= 0 {
        HEADER_SIZE as int
    } else {
        cs[g - 1].offset + cs[g - 1].stored_size
    }
}

/// The bytes `lo..hi` of `content` are zero.
#[verifier::opaque]
pub open spec fn zeros_between(content: Seq<u8>, lo: int, hi: int) -> bool {
    forall|x: int| lo <= x < hi ==> #[trigger] content[x] == 0
}

/// Each chunk starts at the first multiple of the alignment at or after the
/// end of the bytes in front of it, and the padding in front of it is zero.
#[verifier::opaque]
pub open spec fn tightly_placed(content: Seq<u8>, cs: Seq<Chunk>, alignment: u32) -> bool {
    forall|g: int|
        0 <= g < cs.len() ==> {
            &&& (#[trigger] cs[g]).offset == spec_align_up(chunk_end(cs, g), alignment as int)
            &&& zeros_between(content, chunk_end(cs, g), cs[g].offset as int)
        }
}

/// `content` is an archive packed with `key` and options `o` that holds
/// `datas` under the entries `es` (with their normalized paths), stored in
/// chunks `cs` that decode to `raws`, with its table at `toc_offset`.
pub open spec fn packing_of(
    content: Seq<u8>,
    key: Seq<u8>,
    o: PackOptions,
    es: Seq<EntryView>,
    datas: Seq<Seq<u8>>,
    cs: Seq<Chunk>,
    raws: Seq<Seq<u8>>,
    toc_offset: u64,
) -> bool {
    let k = pack_key(o, key);
    let toc_plain = spec_toc_bytes(stored_entries(es, o.mode), cs);
    let stored = content.skip(toc_offset as int);
    &&& key.len() > 0
    &&& content.len() <= u64::MAX
    &&& spec_validate_options(o) is Ok
    &&& es.len() == datas.len()
    &&& es.len() <= u32::MAX
    &&& cs.len() == raws.len()
    &&& cs.len() <= u32::MAX
    &&& forall|g: int|
        0 <= g < cs.len() ==> chunk_written(content, #[trigger] cs[g], raws[g], k, g, o) && cs[g].offset
            + cs[g].stored_size <= toc_offset
    &&& chunks_ordered(cs)
    &&& forall|i: int|
        0 <= i < es.len() ==> entry_written(#[trigger] es[i], datas[i], entry_start(es, i), cs, raws, o)
    &&& entries_distinct(es, o.mode)
    &&& entry_start(es, es.len() as int) == cs.len()
    &&& HEADER_SIZE <= toc_offset <= content.len()
    &&& toc_offset % (o.alignment as u64) == 0
    &&& tightly_placed(content, cs, o.alignment)
    &&& toc_offset == spec_align_up(chunk_end(cs, cs.len() as int), o.alignment as int)
    &&& zeros_between(content, chunk_end(cs, cs.len() as int), toc_offset as int)
    &&& toc_plain.len() <= MAX_TOC_RAW_SIZE
    &&& stored.len() <= MAX_TOC_STORED_SIZE
    &&& spec_lz4_decompress(spec_lz4_compress(toc_plain), toc_plain.len()) == Some(toc_plain)
    &&& match k {
        None => stored == spec_xor(spec_lz4_compress(toc_plain), key),
        Some(kk) => spec_unseal(kk, stored, spec_toc_aad()) == Some(spec_lz4_compress(toc_plain)),
    }
    &&& content.take(HEADER_SIZE as int) == spec_header_bytes(
        packed_header(o, es.len(), cs.len(), toc_offset, stored.len() as u64, toc_plain),
    )
}

/// Every entry of `es` packed its data in `datas` into its own run of the
/// chunks `cs` (decoding to `raws`), the entries are distinct, and `seen`
/// holds their identifiers.
#[verifier::opaque]
pub open spec fn entries_hold(
    es: Seq<EntryView>,
    datas: Seq<Seq<u8>>,
    cs: Seq<Chunk>,
    raws: Seq<Seq<u8>>,
    o: PackOptions,
    seen: Set<u64>,
) -> bool {
    &&& es.len() == datas.len()
    &&& es.len() <= u32::MAX
    &&& forall|i: int|
        0 <= i < es.len() ==> entry_written(#[trigger] es[i], datas[i], entry_start(es, i), cs, raws, o)
    &&& entries_distinct(es, o.mode)
    &&& forall|h: u64| seen.contains(h) <==> exists|i: int| 0 <= i < es.len() && (#[trigger] es[i]).path_hash == h
}

/// The seen identifiers are those of the entries.
proof fn lemma_entries_seen(
    es: Seq<EntryView>,
    datas: Seq<Seq<u8>>,
    cs: Seq<Chunk>,
    raws: Seq<Seq<u8>>,
    o: PackOptions,
    seen: Set<u64>,
)
    requires
        entries_hold(es, datas, cs, raws, o, seen),
    ensures
        forall|h: u64| seen.contains(h) <==> exists|i: int| 0 <= i < es.len() && (#[trigger] es[i]).path_hash == h,
{
    reveal(entries_hold);
}

/// A pack in progress.
struct PackState {
    aead_key: Option<Vec<u8>>,
    options: PackOptions,
    entries: Vec<Entry>,
    chunks: Vec<Chunk>,
    seen_hashes: HashSet<u64>,
    raw: Vec<u8>,
    offset: u64,
    raws: Ghost<Seq<Seq<u8>>>,
    datas: Ghost<Seq<Seq<u8>>>,
}

impl PackState {
    spec fn key_view(&self) -> Option<Seq<u8>> {
        match self.aead_key {
            Some(k) => Some(k@),
            None => None,
        }
    }

    spec fn entry_views(&self) -> Seq<EntryView> {
        self.entries@.map_values(|e: Entry| e@)
    }

    /// The chunks written so far sit in `content` as recorded.
    spec fn chunks_ok(&self, content: Seq<u8>) -> bool {
        &&& self.chunks@.len() == self.raws@.len()
        &&& self.chunks@.len() <= u32::MAX
        &&& forall|g: int|
            0 <= g < self.chunks@.len() ==> chunk_written(
                content,
                #[trigger] self.chunks@[g],
                self.raws@[g],
                self.key_view(),
                g,
                self.options,
            )
        &&& chunks_ordered(self.chunks@)
    }

    /// The settings and the written bytes agree with the records.
    spec fn settled(&self, content: Seq<u8>, key: Seq<u8>) -> bool {
        &&& key.len() > 0
        &&& spec_validate_options(self.options) is Ok
        &&& self.raw@.len() == self.options.chunk_size
        &&& (self.options.protection == Protection::Aead) == (self.aead_key is Some)
        &&& (self.aead_key matches Some(k) ==> k@ == spec_derive_key(key) && k@.len() == 32)
        &&& content.len() == self.offset
        &&& self.offset >= HEADER_SIZE
        &&& self.chunks_ok(content)
        &&& self.offset == chunk_end(self.chunks@, self.chunks@.len() as int)
        &&& tightly_placed(content, self.chunks@, self.options.alignment)
    }

    /// Every entry owns its run of chunks and the set of seen identifiers
    /// is theirs.
    spec fn entries_ok(&self) -> bool {
        entries_hold(self.entry_views(), self.datas@, self.chunks@, self.raws@, self.options, self.seen_hashes@)
    }

    /// A pack between files: every chunk belongs to an entry.
    spec fn wf(&self, content: Seq<u8>, key: Seq<u8>) -> bool {
        &&& self.settled(content, key)
        &&& self.entries_ok()
        &&& entry_start(self.entry_views(), self.entry_views().len() as int) == self.chunks@.len()
    }
}

/// Writing at the end of the stream appends.
proof fn lemma_place_at_end(content: Seq<u8>, data: Seq<u8>)
    ensures
        spec_place(content, content.len() as int, data) == content + data,
{
    assert(spec_place(content, content.len() as int, data) =~= content + data);
}

/// Placement facts survive changes to the stream outside the padding: the
/// bytes from the end of the header to `n` stay as they are.
proof fn lemma_tight_keep(c1: Seq<u8>, c2: Seq<u8>, cs: Seq<Chunk>, alignment: u32, n: int)
    requires
        tightly_placed(c1, cs, alignment),
        n <= c1.len(),
        n <= c2.len(),
        forall|x: int| HEADER_SIZE <= x < n ==> #[trigger] c1[x] == c2[x],
        forall|g: int| 0 <= g < cs.len() ==> HEADER_SIZE <= #[trigger] cs[g].offset <= n,
    ensures
        tightly_placed(c2, cs, alignment),
{
    reveal(tightly_placed);
    reveal(zeros_between);
    assert forall|g: int| 0 <= g < cs.len() implies zeros_between(c2, chunk_end(cs, g), (
    #[trigger] cs[g]).offset as int) by {
        assert(zeros_between(c1, chunk_end(cs, g), cs[g].offset as int));
        if g > 0 {
            assert(HEADER_SIZE <= cs[g - 1].offset);
        }
        assert forall|x: int| chunk_end(cs, g) <= x < cs[g].offset implies #[trigger] c2[x] == 0 by {
            assert(c1[x] == 0);
        }
    }
}

/// Zero bytes stay zero when the bytes from the end of the header to `n`
/// stay as they are.
proof fn lemma_zeros_keep(c1: Seq<u8>, c2: Seq<u8>, lo: int, hi: int, n: int)
    requires
        zeros_between(c1, lo, hi),
        HEADER_SIZE <= lo,
        hi <= n <= c1.len(),
        n <= c2.len(),
        forall|x: int| HEADER_SIZE <= x < n ==> #[trigger] c1[x] == c2[x],
    ensures
        zeros_between(c2, lo, hi),
{
    reveal(zeros_between);
    assert forall|x: int| lo <= x < hi implies #[trigger] c2[x] == 0 by {
        assert(c1[x] == 0);
    }
}

impl PackState {
    /// Appending to the stream keeps the chunks where they are.
    proof fn lemma_chunks_extend(&self, content: Seq<u8>, extra: Seq<u8>)
        requires
            self.chunks_ok(content),
        ensures
            self.chunks_ok(content + extra),
    {
        assert forall|g: int| 0 <= g < self.chunks@.len() implies chunk_written(
            content + extra,
            #[trigger] self.chunks@[g],
            self.raws@[g],
            self.key_view(),
            g,
            self.options,
        ) by {
            let c = self.chunks@[g];
            assert(chunk_written(content, c, self.raws@[g], self.key_view(), g, self.options));
            assert((content + extra).subrange(c.offset as int, c.offset + c.stored_size) =~= content.subrange(
                c.offset as int,
                c.offset + c.stored_size,
            ));
        }
    }

    /// Starts a pack: checks the key, the options and that the destination
    /// is empty, and reserves room for the header.
    fn start<W: ArchiveWrite>(writer: &mut W, key: &[u8], options: PackOptions) -> (r: Result<PackState>)
        ensures
            key@.len() == 0 ==> (r matches Err(e) && e@ == ErrorView::EmptyXorKey),
            key@.len() > 0 ==> (spec_validate_options(options) matches Err(x) ==> (r matches Err(e) && e
                == x)),
            r matches Ok(st) ==> {
                &&& st.wf(final(writer).written(), key@)
                &&& final(writer).position() == final(writer).written().len()
                &&& st.entry_views().len() == 0
                &&& st.datas@.len() == 0
                &&& st.options == options
                &&& old(writer).written().len() == 0
                &&& st.offset == HEADER_SIZE
                &&& st.chunks@.len() == 0
                &&& final(writer).written() == Seq::new(60, |i: int| 0u8)
            },
            r matches Err(e) && e@ != ErrorView::Io ==> final(writer).written() == old(writer).written(),
            r matches Err(e) ==> (e@ == ErrorView::Io && !old(writer).in_memory()) || (e@ == ErrorView::EmptyXorKey && key@.len() == 0)
                || (spec_validate_options(options) matches Err(x) && e == x) || (e@
                == ErrorView::NonEmptyDestination && old(writer).written().len() > 0),
            key@.len() > 0 && spec_validate_options(options) is Ok && old(writer).in_memory() ==> if old(
                writer,
            ).written().len() > 0 {
                r matches Err(e) && e@ == ErrorView::NonEmptyDestination
            } else {
                r is Ok
            },
            final(writer).in_memory() == old(writer).in_memory(),
    {
        if key.len() == 0 {
            return Err(Error::EmptyXorKey);
        }
        let options = match options.validate() {
            Ok(o) => o,
            Err(e) => return Err(e),
        };
        let aead_key = if options.protection == Protection::Aead {
            Some(derive_key(key))
        } else {
            None
        };
        let len = match writer.seek_end() {
            Ok(n) => n,
            Err(e) => return Err(Error::Io(e)),
        };
        if len != 0 {
            return Err(Error::NonEmptyDestination);
        }
        match writer.seek_to(0) {
            Ok(()) => {},
            Err(e) => return Err(Error::Io(e)),
        }
        let header = zeroed(60);
        match writer.write_all(header.as_slice()) {
            Ok(()) => {},
            Err(e) => return Err(Error::Io(e)),
        }
        proof {
            lemma_place_at_end(Seq::<u8>::empty(), header@);
            assert(Seq::<u8>::empty() + header@ =~= header@);
        }
        let raw = zeroed(options.chunk_size);
        let st = PackState {
            aead_key,
            options,
            entries: Vec::new(),
            chunks: Vec::new(),
            seen_hashes: HashSet::new(),
            raw,
            offset: HEADER_SIZE,
            raws: Ghost(Seq::empty()),
            datas: Ghost(Seq::empty()),
        };
        proof {
            reveal(entries_hold);
            reveal(tightly_placed);
            assert(st.entry_views() =~= Seq::<EntryView>::empty());
        }
        Ok(st)
    }

    /// Pads the stream with zeros up to the next multiple of the alignment.
    fn align<W: ArchiveWrite>(&mut self, writer: &mut W) -> (r: Result<()>)
        requires
            old(self).offset == old(writer).written().len(),
            old(writer).position() == old(writer).written().len(),
            spec_validate_options(old(self).options) is Ok,
        ensures
            r is Ok ==> {
                &&& final(self).offset == spec_align_up(old(self).offset as int, old(self).options.alignment as int)
                &&& final(writer).written() == old(writer).written() + Seq::new(
                    (final(self).offset - old(self).offset) as nat,
                    |i: int| 0u8,
                )
                &&& final(writer).position() == final(writer).written().len()
                &&& final(self).offset >= old(self).offset
                &&& final(self).offset % (old(self).options.alignment as u64) == 0
                &&& final(self).options == old(self).options
                &&& final(self).aead_key == old(self).aead_key
                &&& final(self).entries == old(self).entries
                &&& final(self).chunks == old(self).chunks
                &&& final(self).seen_hashes == old(self).seen_hashes
                &&& final(self).raw == old(self).raw
                &&& final(self).raws == old(self).raws
                &&& final(self).datas == old(self).datas
            },
            r matches Err(e) ==> e@ == ErrorView::Io || e@ == ErrorView::TooLarge("aligned offset"),
            r matches Err(e) && e@ == ErrorView::Io ==> write_may_fail(*final(writer)) && write_may_fail(
                *old(writer),
            ),
            final(writer).in_memory() == old(writer).in_memory(),
            old(writer).in_memory() && old(self).offset + old(self).options.alignment <= usize::MAX ==> r is Ok,
            r is Ok ==> final(self).offset < old(self).offset + old(self).options.alignment,
    {
        let a = self.options.alignment as u64;
        let aligned = match align_up(self.offset, a) {
            Ok(v) => v,
            Err(e) => return Err(e),
        };
        proof {
            let o = self.offset as int;
            let al = a as int;
            let sa = spec_align_up(o, al);
            assert(o <= sa && sa < o + al && sa % al == 0) by (nonlinear_arith)
                requires
                    al > 0,
                    sa == ((o + al - 1) / al) * al,
            ;
            assert(aligned as int == sa);
        }
        let pad = (aligned - self.offset) as usize;
        let zeros = zeroed(pad);
        match writer.write_all(zeros.as_slice()) {
            Ok(()) => {},
            Err(e) => {
                proof {
                    assert(a <= crate::format::MAX_ALIGNMENT);
                    assert(pad < a);
                }
                return Err(Error::Io(e));
            },
        }
        proof {
            lemma_place_at_end(old(writer).written(), zeros@);
        }
        self.offset = aligned;
        Ok(())
    }
}

/// The normalized paths and identifiers of entries.
pub open spec fn entry_ids(es: Seq<EntryView>) -> Seq<(Seq<char>, u64)> {
    es.map_values(|e: EntryView| (e.path, e.path_hash))
}

/// What adding a file at `path` after files with normalized paths and
/// identifiers `prev` is refused for, or the normalized path and identifier
/// its entry gets: the path must normalize, must not be there already, and
/// in production mode its identifier must be new.
pub open spec fn spec_add_check(prev: Seq<(Seq<char>, u64)>, mode: PackMode, path: Seq<char>) -> core::result::Result<
    (Seq<char>, u64),
    ErrorView,
> {
    match spec_normalize(path) {
        None => Err(ErrorView::InvalidPath),
        Some(n) => {
            let h = spec_xxh3_64(encode_utf8(n));
            if exists|i: int| 0 <= i < prev.len() && (#[trigger] prev[i]).1 == h {
                if exists|i: int| 0 <= i < prev.len() && (#[trigger] prev[i]).1 == h && prev[i].0 == n {
                    Err(ErrorView::DuplicatePath(n))
                } else if mode == PackMode::Production {
                    Err(ErrorView::HashCollision(h))
                } else {
                    Ok((n, h))
                }
            } else {
                Ok((n, h))
            }
        },
    }
}

/// Checking the paths of files packed in order: their normalized paths and
/// identifiers, or the first refusal.
pub open spec fn spec_check_files(paths: Seq<Seq<char>>, mode: PackMode) -> core::result::Result<
    Seq<(Seq<char>, u64)>,
    ErrorView,
>
    decreases paths.len(),
{
    if paths.len() == 0 {
        Ok(Seq::empty())
    } else {
        match spec_check_files(paths.drop_last(), mode) {
            Err(x) => Err(x),
            Ok(prev) => match spec_add_check(prev, mode, paths.last()) {
                Err(x) => Err(x),
                Ok(p) => Ok(prev.push(p)),
            },
        }
    }
}

proof fn lemma_concat_prefix(r1: Seq<Seq<u8>>, r2: Seq<Seq<u8>>, lo: int, hi: int, n: int)
    requires
        0 <= lo,
        hi <= n <= r1.len(),
        n <= r2.len(),
        r1.take(n) == r2.take(n),
    ensures
        concat_range(r1, lo, hi) == concat_range(r2, lo, hi),
    decreases hi - lo,
{
    if lo < hi {
        lemma_concat_prefix(r1, r2, lo, hi - 1, n);
        assert(r1.take(n)[hi - 1] == r2.take(n)[hi - 1]);
    }
}

proof fn lemma_sum_stored_prefix(c1: Seq<Chunk>, c2: Seq<Chunk>, lo: int, hi: int, n: int)
    requires
        0 <= lo,
        hi <= n <= c1.len(),
        n <= c2.len(),
        c1.take(n) == c2.take(n),
    ensures
        sum_stored(c1, lo, hi) == sum_stored(c2, lo, hi),
    decreases hi - lo,
{
    if lo < hi {
        lemma_sum_stored_prefix(c1, c2, lo, hi - 1, n);
        assert(c1.take(n)[hi - 1] == c1[hi - 1]);
        assert(c2.take(n)[hi - 1] == c2[hi - 1]);
        assert(c1.take(n)[hi - 1] == c2.take(n)[hi - 1]);
    }
}

/// An entry's facts survive appending chunks.
proof fn lemma_entry_extend(
    e: EntryView,
    data: Seq<u8>,
    start: int,
    cs: Seq<Chunk>,
    raws: Seq<Seq<u8>>,
    cs2: Seq<Chunk>,
    raws2: Seq<Seq<u8>>,
    o: PackOptions,
)
    requires
        entry_written(e, data, start, cs, raws, o),
        cs.len() == raws.len(),
        cs.len() <= cs2.len(),
        cs.len() <= raws2.len(),
        cs2.take(cs.len() as int) == cs,
        raws2.take(cs.len() as int) == raws,
    ensures
        entry_written(e, data, start, cs2, raws2, o),
{
    let first = e.first_chunk as int;
    let end = first + e.chunk_count;
    let n = cs.len() as int;
    assert(raws.take(n) =~= raws);
    assert(cs.take(n) =~= cs);
    lemma_concat_prefix(raws, raws2, first, end, n);
    lemma_sum_stored_prefix(cs, cs2, first, end, n);
    assert forall|g: int| first <= g < end - 1 implies (#[trigger] raws2[g]).len() == o.chunk_size by {
        assert(raws2.take(n)[g] == raws2[g]);
        assert(raws[g].len() == o.chunk_size);
    }
}

impl PackState {
    /// Stores the first `raw_len` bytes of the chunk buffer as the next
    /// chunk: compressed when that is smaller, sealed with a key, written
    /// at the next aligned offset. Returns the stored size.
    #[verifier::rlimit(30)]
    fn put_chunk<W: ArchiveWrite>(&mut self, writer: &mut W, Ghost(key): Ghost<Seq<u8>>, raw_len: usize) -> (r: Result<u64>)
        requires
            old(self).settled(old(writer).written(), key),
            old(writer).position() == old(writer).written().len(),
            0 < raw_len <= old(self).raw@.len(),
        ensures
            r matches Ok(slen) ==> {
                &&& final(self).settled(final(writer).written(), key)
                &&& final(writer).position() == final(writer).written().len()
                &&& final(self).chunks@ == old(self).chunks@.push(final(self).chunks@.last())
                &&& final(self).chunks@.last().original_size == raw_len
                &&& final(self).chunks@.last().stored_size == slen
                &&& final(self).raws@ == old(self).raws@.push(old(self).raw@.take(raw_len as int))
                &&& final(self).entries == old(self).entries
                &&& final(self).datas == old(self).datas
                &&& final(self).options == old(self).options
                &&& final(self).aead_key == old(self).aead_key
                &&& final(self).seen_hashes == old(self).seen_hashes
                &&& final(self).raw == old(self).raw
            },
            r matches Err(e) ==> e@ == ErrorView::Io || e@ is TooLarge || e@ is Crypto,
            r matches Err(e) && e@ == ErrorView::Io ==> write_may_fail(*final(writer)),
            r matches Err(e) && e@ is Crypto ==> old(self).aead_key is Some,
            final(writer).in_memory() == old(writer).in_memory(),
            old(writer).in_memory() && old(self).aead_key is None && old(self).offset + old(self).options.alignment
                + raw_len <= usize::MAX && old(self).chunks@.len() < u32::MAX ==> r is Ok,
            r is Ok ==> final(self).offset < old(self).offset + old(self).options.alignment + raw_len
                + AEAD_OVERHEAD,
            r matches Ok(slen) ==> slen <= raw_len + AEAD_OVERHEAD,
    {
        let ghost raw_bytes = self.raw@.take(raw_len as int);
        let compressed = lz4_compress(vstd::slice::slice_subrange(self.raw.as_slice(), 0, raw_len));
        let is_compressed = compressed.len() < raw_len;
        let ghost before_align = writer.written();
        match self.align(writer) {
            Ok(()) => {},
            Err(e) => return Err(e),
        }
        let ghost aligned_content = writer.written();
        proof {
            self.lemma_chunks_extend(before_align, Seq::new(
                (self.offset - before_align.len()) as nat,
                |i: int| 0u8,
            ));
            assert forall|g: int| 0 <= g < self.chunks@.len() implies HEADER_SIZE <= (
            #[trigger] self.chunks@[g]).offset <= before_align.len() by {
                assert(chunk_written(before_align, self.chunks@[g], self.raws@[g], self.key_view(), g, self.options));
            }
            assert forall|x: int| HEADER_SIZE <= x < before_align.len() implies #[trigger] before_align[x]
                == aligned_content[x] by {}
            lemma_tight_keep(before_align, aligned_content, self.chunks@, self.options.alignment, before_align.len() as int);
        }
        let chunk_offset = self.offset;
        let global = self.chunks.len() as u32;
        let raw_slice = vstd::slice::slice_subrange(self.raw.as_slice(), 0, raw_len);
        let sum = checksum(raw_slice);
        let plain: &[u8] = if is_compressed {
            compressed.as_slice()
        } else {
            raw_slice
        };
        let encrypted: Option<Vec<u8>> = match &self.aead_key {
            Some(k) => match encrypt(plain, k.as_slice(), chunk_aad(global).as_slice()) {
                Ok(v) => Some(v),
                Err(e) => return Err(e),
            },
            None => None,
        };
        let stored: &[u8] = match &encrypted {
            Some(v) => v.as_slice(),
            None => plain,
        };
        match writer.write_all(stored) {
            Ok(()) => {},
            Err(e) => {
                proof {
                    assert(self.options.chunk_size <= crate::format::MAX_CHUNK_SIZE);
                    assert(plain@.len() <= raw_len);
                    assert(stored@.len() <= raw_len + AEAD_OVERHEAD);
                }
                return Err(Error::Io(e));
            },
        }
        proof {
            lemma_place_at_end(aligned_content, stored@);
            self.lemma_chunks_extend(aligned_content, stored@);
        }
        let slen = stored.len() as u64;
        if self.offset > u64::MAX - slen {
            return Err(Error::TooLarge("archive offset"));
        }
        self.offset = self.offset + slen;
        let ghost prev_chunks = self.chunks@;
        let ghost prev_raws = self.raws@;
        let c = Chunk {
            offset: chunk_offset,
            stored_size: slen,
            original_size: raw_len as u64,
            checksum: sum,
            compressed: is_compressed,
        };
        self.chunks.push(c);
        proof {
            self.raws = Ghost(self.raws@.push(raw_bytes));
            let content = writer.written();
            let n = prev_chunks.len() as int;
            assert forall|g: int| 0 <= g < n implies HEADER_SIZE <= (#[trigger] prev_chunks[g]).offset
                <= aligned_content.len() by {
                assert(chunk_written(aligned_content, prev_chunks[g], prev_raws[g], self.key_view(), g, self.options));
            }
            assert forall|x: int| HEADER_SIZE <= x < aligned_content.len() implies #[trigger] aligned_content[x]
                == content[x] by {}
            lemma_tight_keep(aligned_content, content, prev_chunks, self.options.alignment, aligned_content.len() as int);
            assert(chunk_end(self.chunks@, n) == before_align.len()) by {
                if n > 0 {
                    assert(self.chunks@[n - 1] == prev_chunks[n - 1]);
                }
            }
            assert(tightly_placed(content, self.chunks@, self.options.alignment)) by {
            reveal(tightly_placed);
            reveal(zeros_between);
            assert forall|g: int| 0 <= g < self.chunks@.len() implies {
                &&& (#[trigger] self.chunks@[g]).offset == spec_align_up(chunk_end(self.chunks@, g), self.options.alignment as int)
                &&& zeros_between(content, chunk_end(self.chunks@, g), self.chunks@[g].offset as int)
            } by {
                if g < n {
                    assert(self.chunks@[g] == prev_chunks[g]);
                    if g > 0 {
                        assert(self.chunks@[g - 1] == prev_chunks[g - 1]);
                    }
                    assert(chunk_end(self.chunks@, g) == chunk_end(prev_chunks, g));
                } else {
                    assert forall|x: int| chunk_end(self.chunks@, g) <= x < self.chunks@[g].offset implies #[trigger] content[x]
                        == 0 by {
                        assert(aligned_content[x] == 0);
                    }
                }
            }
            }
            assert(self.offset == chunk_end(self.chunks@, self.chunks@.len() as int));
            assert(content.subrange(c.offset as int, c.offset + c.stored_size) =~= stored@);
            assert(chunk_written(content, c, raw_bytes, self.key_view(), global as int, self.options));
            assert forall|g: int| 0 <= g < self.chunks@.len() implies chunk_written(
                content,
                #[trigger] self.chunks@[g],
                self.raws@[g],
                self.key_view(),
                g,
                self.options,
            ) by {
                if g < prev_chunks.len() {
                    assert(self.chunks@[g] == prev_chunks[g]);
                    assert(self.raws@[g] == prev_raws[g]);
                }
            }
            assert forall|a: int, b: int| 0 <= a < b < self.chunks@.len() implies (
            #[trigger] self.chunks@[a]).offset + self.chunks@[a].stored_size <= (
            #[trigger] self.chunks@[b]).offset by {
                if b == prev_chunks.len() {
                    assert(self.chunks@[a] == prev_chunks[a]);
                    assert(chunk_written(
                        aligned_content,
                        prev_chunks[a],
                        prev_raws[a],
                        self.key_view(),
                        a,
                        self.options,
                    ));
                } else {
                    assert(self.chunks@[a] == prev_chunks[a]);
                    assert(self.chunks@[b] == prev_chunks[b]);
                }
            }
        }
        if self.chunks.len() > u32::MAX as usize {
            return Err(Error::TooLarge("chunk count"));
        }
        Ok(slen)
    }

    /// Reads `reader` to its end in chunks and stores each.
    fn write_chunks<W: ArchiveWrite, R: AssetRead>(&mut self, writer: &mut W, Ghost(key): Ghost<Seq<u8>>, reader: &mut R) -> (r:
        Result<(u64, u64)>)
        requires
            old(self).settled(old(writer).written(), key),
            old(writer).position() == old(writer).written().len(),
        ensures
            r matches Ok((original_total, stored_total)) ==> {
                let first = old(self).chunks@.len() as int;
                let end = final(self).chunks@.len() as int;
                &&& final(self).settled(final(writer).written(), key)
                &&& final(writer).position() == final(writer).written().len()
                &&& final(self).entries == old(self).entries
                &&& final(self).datas == old(self).datas
                &&& final(self).options == old(self).options
                &&& final(self).aead_key == old(self).aead_key
                &&& final(self).seen_hashes == old(self).seen_hashes
                &&& end >= first
                &&& final(self).chunks@.take(first) == old(self).chunks@
                &&& final(self).raws@.take(first) == old(self).raws@
                &&& concat_range(final(self).raws@, first, end) == old(reader).remaining()
                &&& original_total == old(reader).remaining().len()
                &&& final(reader).remaining().len() == 0
                &&& stored_total == sum_stored(final(self).chunks@, first, end)
                &&& forall|g: int| first <= g < end - 1 ==> (#[trigger] final(self).raws@[g]).len()
                    == final(self).options.chunk_size
            },
            r matches Err(e) ==> e@ == ErrorView::Io || e@ is TooLarge || e@ is Crypto,
            r matches Err(e) && e@ == ErrorView::Io ==> write_may_fail(*final(writer)) || !old(reader).in_memory(),
            r matches Err(e) && e@ is Crypto ==> old(self).aead_key is Some,
            final(writer).in_memory() == old(writer).in_memory(),
            old(writer).in_memory() && old(reader).in_memory() && old(self).aead_key is None && old(self).offset
                + old(reader).remaining().len() + chunks_for(old(reader).remaining().len() as int, old(self).options.chunk_size as int)
                * (old(self).options.alignment + 40) <= usize::MAX && old(self).chunks@.len() + chunks_for(old(reader).remaining().len() as int, old(self).options.chunk_size as int) <= u32::MAX ==> r is Ok,
            r is Ok ==> final(self).chunks@.len() == old(self).chunks@.len() + chunks_for(old(reader).remaining().len() as int, old(self).options.chunk_size as int) && final(self).offset <= old(self).offset + old(reader).remaining().len() + chunks_for(old(reader).remaining().len() as int, old(self).options.chunk_size as int) * (old(self).options.alignment + 40),
    {
        let ghost cs0 = self.chunks@;
        let ghost offset0 = self.offset;
        let ghost a = self.options.alignment as int;
        let ghost csz = self.options.chunk_size as int;
        let ghost big = old(reader).remaining().len() as int;
        let ghost fits = old(writer).in_memory() && old(reader).in_memory() && old(self).aead_key is None
            && old(self).offset + big + chunks_for(big, csz) * (a + 40) <= usize::MAX && old(self).chunks@.len()
            + chunks_for(big, csz) <= u32::MAX;
        proof {
            assert(csz > 0);
        }
        let ghost raws0 = self.raws@;
        let first_idx = self.chunks.len();
        let ghost start_rem = reader.remaining();
        let mut original_total: u64 = 0;
        let mut stored_total: u64 = 0;
        loop
            invariant_except_break
                self.settled(writer.written(), key),
                writer.position() == writer.written().len(),
                writer.in_memory() == old(writer).in_memory(),
                reader.in_memory() == old(reader).in_memory(),
                offset0 == old(self).offset,
                a == self.options.alignment,
                csz == self.options.chunk_size,
                csz > 0,
                big == start_rem.len(),
                fits == (old(writer).in_memory() && old(reader).in_memory() && old(self).aead_key is None
                    && offset0 + big + chunks_for(big, csz) * (a + 40) <= usize::MAX && cs0.len() + chunks_for(
                    big,
                    csz,
                ) <= u32::MAX),
                self.chunks@.len() - first_idx > 0 ==> (self.chunks@.len() - first_idx - 1) * csz < original_total
                    <= (self.chunks@.len() - first_idx) * csz,
                (self.chunks@.len() == first_idx || self.raws@.last().len() == csz) ==> original_total == (
                self.chunks@.len() - first_idx) * csz,
                self.offset <= offset0 + original_total + (self.chunks@.len() - first_idx) * (a + 40),
                stored_total <= original_total + (self.chunks@.len() - first_idx) * 40,
                self.entries == old(self).entries,
                self.datas == old(self).datas,
                self.options == old(self).options,
                self.aead_key == old(self).aead_key,
                self.seen_hashes == old(self).seen_hashes,
                first_idx == cs0.len(),
                cs0 == old(self).chunks@,
                raws0 == old(self).raws@,
                start_rem == old(reader).remaining(),
                self.chunks@.len() >= first_idx,
                self.chunks@.take(first_idx as int) == cs0,
                self.raws@.take(first_idx as int) == raws0,
                concat_range(self.raws@, first_idx as int, self.chunks@.len() as int) == start_rem.take(
                    original_total as int,
                ),
                original_total <= start_rem.len(),
                reader.remaining() == start_rem.skip(original_total as int),
                stored_total == sum_stored(self.chunks@, first_idx as int, self.chunks@.len() as int),
                forall|g: int|
                    first_idx <= g < self.chunks@.len() - 1 ==> (#[trigger] self.raws@[g]).len()
                        == self.options.chunk_size,
                self.chunks@.len() > first_idx && self.raws@.last().len() < self.options.chunk_size
                    ==> reader.remaining().len() == 0,
            ensures
                self.settled(writer.written(), key),
                writer.position() == writer.written().len(),
                writer.in_memory() == old(writer).in_memory(),
                self.chunks@.len() - first_idx > 0 ==> (self.chunks@.len() - first_idx - 1) * csz < original_total
                    <= (self.chunks@.len() - first_idx) * csz,
                self.chunks@.len() == first_idx ==> original_total == 0,
                self.offset <= offset0 + original_total + (self.chunks@.len() - first_idx) * (a + 40),
                self.entries == old(self).entries,
                self.datas == old(self).datas,
                self.options == old(self).options,
                self.aead_key == old(self).aead_key,
                self.seen_hashes == old(self).seen_hashes,
                self.chunks@.len() >= first_idx,
                self.chunks@.take(first_idx as int) == cs0,
                self.raws@.take(first_idx as int) == raws0,
                concat_range(self.raws@, first_idx as int, self.chunks@.len() as int) == start_rem,
                original_total == start_rem.len(),
                reader.remaining().len() == 0,
                stored_total == sum_stored(self.chunks@, first_idx as int, self.chunks@.len() as int),
                forall|g: int|
                    first_idx <= g < self.chunks@.len() - 1 ==> (#[trigger] self.raws@[g]).len()
                        == self.options.chunk_size,
            decreases u32::MAX + 1 - self.chunks@.len(),
        {
            let raw_len = match read_chunk(reader, self.raw.as_mut_slice()) {
                Ok(k) => k,
                Err(e) => return Err(e),
            };
            if raw_len == 0 {
                proof {
                    assert(start_rem.take(original_total as int) =~= start_rem);
                }
                break;
            }
            let ghost raw_bytes = self.raw@.take(raw_len as int);
            let ghost prev_chunks = self.chunks@;
            let ghost prev_raws = self.raws@;
            let ghost prev_total = original_total;
            let ghost prev_offset = self.offset;
            let ghost k = (self.chunks@.len() - first_idx) as int;
            let ghost c = chunks_for(big, csz);
            proof {
                let ot = original_total as int;
                let rl = raw_len as int;
                assert(ot + rl <= big);
                assert(ot == k * csz);
                assert(k * csz + csz == (k + 1) * csz) by (nonlinear_arith);
                if fits {
                    lemma_div_at_least(big + csz - 1, csz, k + 1);
                    assert(c >= k + 1);
                    assert((k + 1) * (a + 40) <= c * (a + 40)) by (nonlinear_arith)
                        requires
                            c >= k + 1,
                            a >= 0,
                    ;
                    assert(k * (a + 40) + a + 40 == (k + 1) * (a + 40)) by (nonlinear_arith);
                }
            }
            let slen = match self.put_chunk(writer, Ghost(key), raw_len) {
                Ok(v) => v,
                Err(e) => return Err(e),
            };
            proof {
                assert(k * (a + 40) + a + 40 == (k + 1) * (a + 40)) by (nonlinear_arith);
                assert(k * csz + csz == (k + 1) * csz) by (nonlinear_arith);
                if fits {
                    assert(c >= k + 1);
                    assert(c * 40 <= c * (a + 40)) by (nonlinear_arith)
                        requires
                            c >= 0,
                            a >= 0,
                    ;
                    assert((k + 1) * 40 <= c * 40) by (nonlinear_arith)
                        requires
                            c >= k + 1,
                    ;
                    assert((k + 1) * (a + 40) <= c * (a + 40)) by (nonlinear_arith)
                        requires
                            c >= k + 1,
                            a >= 0,
                    ;
                }
            }
            if original_total > u64::MAX - raw_len as u64 {
                return Err(Error::TooLarge("entry original size"));
            }
            if stored_total > u64::MAX - slen {
                return Err(Error::TooLarge("entry stored size"));
            }
            original_total = original_total + raw_len as u64;
            stored_total = stored_total + slen;
            proof {
                assert(self.chunks@.take(first_idx as int) =~= cs0) by {
                    assert(prev_chunks.take(first_idx as int) == cs0);
                }
                assert(self.raws@.take(first_idx as int) =~= raws0) by {
                    assert(prev_raws.take(first_idx as int) == raws0);
                }
                assert(concat_range(self.raws@, first_idx as int, prev_chunks.len() as int) == concat_range(
                    prev_raws,
                    first_idx as int,
                    prev_chunks.len() as int,
                )) by {
                    assert(self.raws@.take(prev_raws.len() as int) =~= prev_raws);
                    assert(prev_raws.take(prev_raws.len() as int) =~= prev_raws);
                    lemma_concat_prefix(
                        self.raws@,
                        prev_raws,
                        first_idx as int,
                        prev_chunks.len() as int,
                        prev_raws.len() as int,
                    );
                }
                assert(start_rem.take(original_total as int) =~= start_rem.take(prev_total as int)
                    + raw_bytes);
                assert(reader.remaining() =~= start_rem.skip(original_total as int));
                assert(sum_stored(self.chunks@, first_idx as int, prev_chunks.len() as int) == sum_stored(
                    prev_chunks,
                    first_idx as int,
                    prev_chunks.len() as int,
                )) by {
                    assert(self.chunks@.take(prev_chunks.len() as int) =~= prev_chunks);
                    assert(prev_chunks.take(prev_chunks.len() as int) =~= prev_chunks);
                    lemma_sum_stored_prefix(
                        self.chunks@,
                        prev_chunks,
                        first_idx as int,
                        prev_chunks.len() as int,
                        prev_chunks.len() as int,
                    );
                }
                assert forall|g: int| first_idx <= g < self.chunks@.len() - 1 implies (
                #[trigger] self.raws@[g]).len() == self.options.chunk_size by {
                    assert(self.raws@[g] == prev_raws[g]);
                    if g == prev_chunks.len() - 1 {
                        if prev_raws.last().len() < self.options.chunk_size {
                            assert(raw_bytes.len() > 0);
                        }
                    }
                }
            }
        }
        proof {
            let k = (self.chunks@.len() - first_idx) as int;
            if k > 0 {
                assert(k * csz == (k - 1) * csz + csz) by (nonlinear_arith);
                assert((k + 1) * csz == k * csz + csz) by (nonlinear_arith);
                lemma_div_between(big + csz - 1, csz, k);
            } else {
                assert(big == 0);
                assert(0 * csz == 0 && (0 + 1) * csz == csz) by (nonlinear_arith);
                lemma_div_between(big + csz - 1, csz, 0);
            }
        }
        Ok((original_total, stored_total))
    }
}

/// Appending an entry for the chunks just written keeps the entries'
/// facts, when the add check let it through.
proof fn lemma_append_entry(
    es0: Seq<EntryView>,
    datas0: Seq<Seq<u8>>,
    cs0: Seq<Chunk>,
    raws0: Seq<Seq<u8>>,
    cs1: Seq<Chunk>,
    raws1: Seq<Seq<u8>>,
    e: EntryView,
    data: Seq<u8>,
    o: PackOptions,
    seen0: Set<u64>,
    path: Seq<char>,
)
    requires
        cs0.len() == raws0.len(),
        cs0.len() <= cs1.len(),
        cs0.len() <= raws1.len(),
        cs1.take(cs0.len() as int) == cs0,
        raws1.take(cs0.len() as int) == raws0,
        entries_hold(es0, datas0, cs0, raws0, o, seen0),
        entry_start(es0, es0.len() as int) == cs0.len(),
        entry_written(e, data, cs0.len() as int, cs1, raws1, o),
        e.first_chunk + e.chunk_count == cs1.len(),
        es0.len() + 1 <= u32::MAX,
        spec_add_check(entry_ids(es0), o.mode, path) == Ok::<(Seq<char>, u64), ErrorView>((e.path, e.path_hash)),
    ensures
        entries_hold(es0.push(e), datas0.push(data), cs1, raws1, o, seen0.insert(e.path_hash)),
        entry_start(es0.push(e), es0.len() + 1int) == cs1.len(),
{
    reveal(entries_hold);
    let es = es0.push(e);
    assert forall|i: int| 0 <= i < es0.len() implies #[trigger] entry_ids(es0)[i] == (es0[i].path, es0[i].path_hash) by {}
    assert forall|i: int| 0 <= i < es.len() implies entry_written(
        #[trigger] es[i],
        datas0.push(data)[i],
        entry_start(es, i),
        cs1,
        raws1,
        o,
    ) by {
        if i < es0.len() {
            assert(es[i] == es0[i]);
            assert(entry_start(es, i) == entry_start(es0, i));
            assert(entry_written(es0[i], datas0[i], entry_start(es0, i), cs0, raws0, o));
            lemma_entry_extend(es0[i], datas0[i], entry_start(es0, i), cs0, raws0, cs1, raws1, o);
        }
    }
    assert forall|i: int, j: int| 0 <= i < j < es.len() implies if o.mode == PackMode::Production {
        (#[trigger] es[i]).path_hash != (#[trigger] es[j]).path_hash
    } else {
        es[i].path != es[j].path
    } by {
        if j < es0.len() {
            assert(es[i] == es0[i] && es[j] == es0[j]);
        } else {
            assert(es[i] == es0[i]);
            assert(es[j] == e);
            assert(entry_written(es0[i], datas0[i], entry_start(es0, i), cs0, raws0, o));
            assert(entry_ids(es0)[i] == (es0[i].path, es0[i].path_hash));
        }
    }
    assert forall|h: u64| seen0.insert(e.path_hash).contains(h) <==> exists|i: int| 0 <= i < es.len() && (#[trigger] es[i]).path_hash == h by {
        if seen0.contains(h) {
            let i = choose|i: int| 0 <= i < es0.len() && (#[trigger] es0[i]).path_hash == h;
            assert(es[i] == es0[i]);
        }
        if h == e.path_hash {
            assert(es[es0.len() as int] == e);
        }
        if exists|i: int| 0 <= i < es.len() && (#[trigger] es[i]).path_hash == h {
            let i = choose|i: int| 0 <= i < es.len() && (#[trigger] es[i]).path_hash == h;
            if i < es0.len() {
                assert(es[i] == es0[i]);
            }
        }
    }
}

impl PackState {
    /// Normalizes `path` and checks that it may be added: its normalized
    /// form and identifier.
    #[verifier::rlimit(50)]
    fn check_path(&self, path: &str) -> (r: Result<(String, u64)>)
        requires
            self.entries_ok(),
        ensures
            match spec_add_check(entry_ids(self.entry_views()), self.options.mode, path@) {
                Ok((n, h)) => r matches Ok((s, x)) && s@ == n && x == h,
                Err(x) => r matches Err(e) && e@ == x,
            },
            r is Ok ==> spec_normalize(r->Ok_0.0@) == Some(r->Ok_0.0@),
    {
        proof {
            lemma_entries_seen(self.entry_views(), self.datas@, self.chunks@, self.raws@, self.options, self.seen_hashes@);
        }
        let ghost es0 = self.entry_views();
        let ghost mode = self.options.mode;
        let normalized = match normalize_path(path) {
            Ok(n) => n,
            Err(e) => return Err(e),
        };
        proof {
            lemma_normalize_idempotent(path@);
        }
        let ghost n = normalized@;
        let h = checksum(normalized.as_str().as_bytes());
        proof {
            assert(entry_ids(es0).len() == es0.len());
            assert forall|i: int| 0 <= i < es0.len() implies #[trigger] entry_ids(es0)[i] == (es0[i].path, es0[i].path_hash) by {}
        }
        if self.seen_hashes.contains(&h) {
            let mut duplicate = false;
            let mut i: usize = 0;
            while i < self.entries.len()
                invariant
                    i <= self.entries@.len(),
                    es0 == self.entry_views(),
                    n == normalized@,
                    duplicate == exists|j: int| 0 <= j < i && (#[trigger] es0[j]).path_hash == h && es0[j].path == n,
                decreases self.entries@.len() - i,
            {
                proof {
                    assert(es0[i as int] == self.entries@[i as int]@);
                }
                if self.entries[i].path_hash == h && self.entries[i].path == normalized {
                    duplicate = true;
                }
                i = i + 1;
            }
            if duplicate {
                proof {
                    let j = choose|j: int| 0 <= j < es0.len() && (#[trigger] es0[j]).path_hash == h && es0[j].path == n;
                    assert(entry_ids(es0)[j].1 == h && entry_ids(es0)[j].0 == n);
                }
                return Err(Error::DuplicatePath(normalized.clone()));
            }
            if self.options.mode.strips_paths() {
                proof {
                    let j = choose|j: int| 0 <= j < es0.len() && (#[trigger] es0[j]).path_hash == h;
                    assert(entry_ids(es0)[j].1 == h);
                    assert forall|i: int| 0 <= i < es0.len() && (#[trigger] entry_ids(es0)[i]).1 == h implies entry_ids(es0)[i].0 != n by {
                        assert(es0[i].path_hash == h);
                    }
                }
                return Err(Error::HashCollision(h));
            }
        }
        proof {
            if exists|i: int| 0 <= i < es0.len() && (#[trigger] entry_ids(es0)[i]).1 == h {
                let i = choose|i: int| 0 <= i < es0.len() && (#[trigger] entry_ids(es0)[i]).1 == h;
                assert(es0[i].path_hash == h);
            }
            if exists|i: int| 0 <= i < es0.len() && (#[trigger] entry_ids(es0)[i]).1 == h && entry_ids(es0)[i].0 == n {
                let i = choose|i: int| 0 <= i < es0.len() && (#[trigger] entry_ids(es0)[i]).1 == h && entry_ids(es0)[i].0 == n;
                assert(es0[i].path_hash == h && es0[i].path == n);
            }
            assert(spec_add_check(entry_ids(es0), mode, path@) == Ok::<(Seq<char>, u64), ErrorView>((n, h)));
        }
        Ok((normalized, h))
    }
}

impl PackState {
    /// Packs the bytes of `reader` as a new entry at `path`.
    #[verifier::rlimit(100)]
    fn add<W: ArchiveWrite, R: AssetRead>(&mut self, writer: &mut W, Ghost(key): Ghost<Seq<u8>>, path: &str, reader: &mut R) -> (r:
        Result<()>)
        requires
            old(self).wf(old(writer).written(), key),
            old(writer).position() == old(writer).written().len(),
        ensures
            spec_add_check(entry_ids(old(self).entry_views()), old(self).options.mode, path@) matches Err(x) ==> (
            r matches Err(e) && e@ == x),
            r is Ok ==> {
                &&& spec_add_check(entry_ids(old(self).entry_views()), old(self).options.mode, path@) is Ok
                &&& final(self).wf(final(writer).written(), key)
                &&& final(writer).position() == final(writer).written().len()
                &&& final(self).entry_views() == old(self).entry_views().push(final(self).entry_views().last())
                &&& final(self).entry_views().last().path == spec_add_check(
                    entry_ids(old(self).entry_views()),
                    old(self).options.mode,
                    path@,
                )->Ok_0.0
                &&& final(self).datas@ == old(self).datas@.push(old(reader).remaining())
                &&& final(self).options == old(self).options
                &&& final(self).aead_key == old(self).aead_key
                &&& final(reader).remaining().len() == 0
            },
            r matches Err(e) ==> spec_add_check(entry_ids(old(self).entry_views()), old(self).options.mode, path@)
                == Err::<(Seq<char>, u64), ErrorView>(e@) || e@ == ErrorView::Io || e@ is TooLarge
                || e@ is Crypto,
            r matches Err(e) && e@ == ErrorView::Io ==> write_may_fail(*final(writer)) || !old(reader).in_memory(),
            r matches Err(e) && e@ is Crypto ==> old(self).options.protection == Protection::Aead,
            final(writer).in_memory() == old(writer).in_memory(),
            spec_add_check(entry_ids(old(self).entry_views()), old(self).options.mode, path@) is Ok && old(
                writer,
            ).in_memory() && old(reader).in_memory() && old(self).options.protection == Protection::Xor && old(
                self,
            ).offset + old(reader).remaining().len() + chunks_for(old(reader).remaining().len() as int, old(
                self,
            ).options.chunk_size as int) * (old(self).options.alignment + 40) <= usize::MAX && old(
                self,
            ).chunks@.len() + chunks_for(old(reader).remaining().len() as int, old(self).options.chunk_size as int)
                <= u32::MAX && old(self).entries@.len() < u32::MAX ==> r is Ok,
            r is Ok ==> final(self).offset <= old(self).offset + old(reader).remaining().len() + chunks_for(
                old(reader).remaining().len() as int,
                old(self).options.chunk_size as int,
            ) * (old(self).options.alignment + 40) && final(self).chunks@.len() == old(self).chunks@.len()
                + chunks_for(old(reader).remaining().len() as int, old(self).options.chunk_size as int)
                && final(self).entries@.len() == old(self).entries@.len() + 1,
    {
        let ghost es0 = self.entry_views();
        let ghost mode = self.options.mode;
        let (normalized, h) = match self.check_path(path) {
            Ok(found) => found,
            Err(e) => return Err(e),
        };
        let ghost n = normalized@;
        let ghost cs0 = self.chunks@;
        let ghost raws0 = self.raws@;
        let first_idx = self.chunks.len();
        let first_chunk = first_idx as u32;
        let (original_total, stored_total) = match self.write_chunks(writer, Ghost(key), reader) {
            Ok(t) => t,
            Err(e) => return Err(e),
        };
        let chunk_count = (self.chunks.len() - first_idx) as u32;
        let ghost cs1 = self.chunks@;
        let ghost raws1 = self.raws@;
        self.seen_hashes.insert(h);
        self.entries.push(
            Entry {
                path: normalized,
                path_hash: h,
                original_size: original_total,
                stored_size: stored_total,
                first_chunk,
                chunk_count,
            },
        );
        if self.entries.len() > u32::MAX as usize {
            return Err(Error::TooLarge("entry count"));
        }
        proof {
            self.datas = Ghost(self.datas@.push(old(reader).remaining()));
            let es = self.entry_views();
            assert(es =~= es0.push(es.last()));
            assert(self.datas@ == old(self).datas@.push(old(reader).remaining()));
            assert(old(self).entries_ok());
            assert(entry_written(es.last(), old(reader).remaining(), cs0.len() as int, cs1, raws1, self.options));
            lemma_append_entry(
                es0,
                old(self).datas@,
                cs0,
                raws0,
                cs1,
                raws1,
                es.last(),
                old(reader).remaining(),
                self.options,
                old(self).seen_hashes@,
                path@,
            );
        }
        Ok(())
    }
}

/// Overwriting the header keeps everything after it.
proof fn lemma_header_overwrite(content: Seq<u8>, hb: Seq<u8>)
    requires
        hb.len() == HEADER_SIZE,
        content.len() >= HEADER_SIZE,
    ensures
        spec_place(content, 0, hb).len() == content.len(),
        spec_place(content, 0, hb).take(HEADER_SIZE as int) == hb,
        forall|a: int, b: int|
            HEADER_SIZE <= a <= b <= content.len() ==> #[trigger] spec_place(content, 0, hb).subrange(a, b)
                == content.subrange(a, b),
        forall|a: int| HEADER_SIZE <= a <= content.len() ==> #[trigger] spec_place(content, 0, hb).skip(a) == content.skip(a),
        forall|x: int| HEADER_SIZE <= x < content.len() ==> #[trigger] spec_place(content, 0, hb)[x] == content[x],
{
    let c2 = spec_place(content, 0, hb);
    assert(c2 =~= hb + content.skip(HEADER_SIZE as int));
    assert forall|a: int, b: int| HEADER_SIZE <= a <= b <= content.len() implies #[trigger] c2.subrange(a, b)
        == content.subrange(a, b) by {
        assert(c2.subrange(a, b) =~= content.subrange(a, b));
    }
    assert forall|a: int| HEADER_SIZE <= a <= content.len() implies #[trigger] c2.skip(a) == content.skip(a) by {
        assert(c2.skip(a) =~= content.skip(a));
    }
}

impl PackState {
    /// The entries as the table stores them.
    fn stored_entry_list(&self) -> (r: Vec<Entry>)
        ensures
            r@.map_values(|e: Entry| e@) == stored_entries(self.entry_views(), self.options.mode),
    {
        let strip = self.options.mode.strips_paths();
        let ghost target = stored_entries(self.entry_views(), self.options.mode);
        let mut out: Vec<Entry> = Vec::new();
        let n = self.entries.len();
        let mut i: usize = 0;
        while i < n
            invariant
                n == self.entries@.len(),
                i <= n,
                strip == (self.options.mode == PackMode::Production),
                target == stored_entries(self.entry_views(), self.options.mode),
                out@.len() == i,
                forall|j: int| 0 <= j < i ==> (#[trigger] out@[j])@ == target[j],
            decreases n - i,
        {
            let e = &self.entries[i];
            let path = if strip {
                String::new()
            } else {
                e.path.clone()
            };
            out.push(
                Entry {
                    path,
                    path_hash: e.path_hash,
                    original_size: e.original_size,
                    stored_size: e.stored_size,
                    first_chunk: e.first_chunk,
                    chunk_count: e.chunk_count,
                },
            );
            proof {
                assert(self.entry_views()[i as int] == self.entries@[i as int]@);
                assert(out@[i as int]@ == target[i as int]);
            }
            i = i + 1;
        }
        assert(out@.map_values(|e: Entry| e@) =~= target);
        out
    }

    /// Writes the table of contents and the header.
    #[verifier::rlimit(60)]
    fn finish<W: ArchiveWrite>(self, writer: &mut W, key: &[u8]) -> (r: Result<PackSummary>)
        requires
            self.wf(old(writer).written(), key@),
            old(writer).position() == old(writer).written().len(),
        ensures
            r matches Ok(sm) ==> {
                &&& sm.archive_len == final(writer).written().len()
                &&& sm.archive_len >= HEADER_SIZE
                &&& sm.archive_len == spec_align_up(self.offset as int, self.options.alignment as int)
                    + spec_lz4_compress(spec_toc_bytes(stored_entries(self.entry_views(), self.options.mode), self.chunks@)).len()
                    + if self.options.protection == Protection::Aead { AEAD_OVERHEAD as int } else { 0int }
                &&& final(writer).position() == sm.archive_len
                &&& sm.entry_count == self.entry_views().len()
                &&& sm.chunk_count == self.chunks@.len()
                &&& exists|t: u64|
                    packing_of(
                        final(writer).written(),
                        key@,
                        self.options,
                        self.entry_views(),
                        self.datas@,
                        self.chunks@,
                        self.raws@,
                        t,
                    )
            },
            r matches Err(e) ==> e@ == ErrorView::Io || e@ is TooLarge || e@ is Crypto,
            r matches Err(e) && e@ == ErrorView::Io ==> write_may_fail(*old(writer)) && write_may_fail(
                *final(writer),
            ),
            r matches Err(e) && e@ is Crypto ==> self.options.protection == Protection::Aead,
            final(writer).in_memory() == old(writer).in_memory(),
            old(writer).in_memory() && self.options.protection == Protection::Xor && self.offset
                + self.options.alignment + MAX_TOC_STORED_SIZE <= usize::MAX && 4 + 36 * self.chunks@.len()
                + spec_entries_len(stored_entries(self.entry_views(), self.options.mode)) <= toc_raw_budget()
                ==> r is Ok,
    {
        proof {
            reveal(entries_hold);
        }
        let mut st = self;
        let ghost c0 = writer.written();
        match st.align(writer) {
            Ok(()) => {},
            Err(e) => return Err(e),
        }
        let ghost c1 = writer.written();
        proof {
            st.lemma_chunks_extend(c0, c1.skip(c0.len() as int));
            assert(c0 + c1.skip(c0.len() as int) =~= c1);
            assert(zeros_between(c1, c0.len() as int, st.offset as int)) by {
                reveal(zeros_between);
            }
        }
        let toc_offset = st.offset;
        let listed = st.stored_entry_list();
        let ghost es = st.entry_views();
        let ghost ses = stored_entries(es, st.options.mode);
        proof {
            assert forall|i: int| 0 <= i < ses.len() implies crate::toc::path_bytes(#[trigger] ses[i]).len()
                <= crate::path::MAX_PATH_LEN by {
                assert(entry_written(es[i], st.datas@[i], entry_start(es, i), st.chunks@, st.raws@, st.options));
                if st.options.mode == PackMode::Production {
                    assert(ses[i].path == Seq::<char>::empty());
                    assert(vstd::utf8::encode_utf8(Seq::<char>::empty()) =~= Seq::<u8>::empty());
                }
            }
        }
        proof {
            crate::toc::lemma_entries_bytes_len(ses);
            crate::toc::lemma_chunks_bytes_len(st.chunks@);
            assert(ses.len() == st.entries@.len());
            assert(spec_toc_bytes(ses, st.chunks@).len() == 4 + spec_entries_len(ses) + 36 * st.chunks@.len());
        }
        let toc_plain = match encode_toc(&listed, &st.chunks) {
            Ok(v) => v,
            Err(e) => return Err(e),
        };
        let toc_raw_size = toc_plain.len() as u64;
        if toc_raw_size > MAX_TOC_RAW_SIZE {
            return Err(Error::TooLarge("raw TOC"));
        }
        let toc_hash = checksum(toc_plain.as_slice());
        let compressed = lz4_compress(toc_plain.as_slice());
        let toc_stored: Vec<u8> = match &st.aead_key {
            Some(k) => match encrypt(compressed.as_slice(), k.as_slice(), toc_aad().as_slice()) {
                Ok(v) => v,
                Err(e) => return Err(e),
            },
            None => {
                let mut c = compressed;
                xor_in_place(c.as_mut_slice(), key);
                c
            },
        };
        let toc_size = toc_stored.len() as u64;
        if toc_size > MAX_TOC_STORED_SIZE {
            return Err(Error::TooLarge("stored TOC"));
        }
        match writer.write_all(toc_stored.as_slice()) {
            Ok(()) => {},
            Err(e) => {
                proof {
                    assert(st.offset - c0.len() < crate::format::MAX_ALIGNMENT);
                }
                return Err(Error::Io(e));
            },
        }
        let ghost c2 = writer.written();
        proof {
            lemma_place_at_end(c1, toc_stored@);
            st.lemma_chunks_extend(c1, toc_stored@);
        }
        if st.offset > u64::MAX - toc_size {
            return Err(Error::TooLarge("archive length"));
        }
        let archive_len = st.offset + toc_size;
        let flags: u16 = match (st.options.protection, st.options.mode) {
            (Protection::Xor, PackMode::Debug) => 15,
            (Protection::Xor, PackMode::Production) => 31,
            (Protection::Aead, PackMode::Debug) => 45,
            (Protection::Aead, PackMode::Production) => 61,
        };
        let entry_count = st.entries.len() as u32;
        let chunk_count = st.chunks.len() as u32;
        let header = Header {
            version: VERSION,
            flags,
            header_size: 60,
            alignment: st.options.alignment,
            chunk_size: st.options.chunk_size as u32,
            entry_count,
            chunk_count,
            toc_offset,
            toc_size,
            toc_raw_size,
            toc_hash,
        };
        match writer.seek_to(0) {
            Ok(()) => {},
            Err(e) => return Err(Error::Io(e)),
        }
        let hb = write_header(header);
        match writer.write_all(hb.as_slice()) {
            Ok(()) => {},
            Err(e) => return Err(Error::Io(e)),
        }
        let ghost c3 = writer.written();
        match writer.seek_to(archive_len) {
            Ok(()) => {},
            Err(e) => return Err(Error::Io(e)),
        }
        proof {
            lemma_header_overwrite(c2, hb@);
            let k = pack_key(st.options, key@);
            assert(st.key_view() == k);
            assert(c2.skip(toc_offset as int) =~= toc_stored@);
            assert forall|g: int| 0 <= g < st.chunks@.len() implies chunk_written(
                c3,
                #[trigger] st.chunks@[g],
                st.raws@[g],
                k,
                g,
                st.options,
            ) && st.chunks@[g].offset + st.chunks@[g].stored_size <= toc_offset by {
                let c = st.chunks@[g];
                assert(chunk_written(c1, c, st.raws@[g], k, g, st.options));
                assert(chunk_written(c2, c, st.raws@[g], k, g, st.options));
                assert(c3.subrange(c.offset as int, c.offset + c.stored_size) == c2.subrange(
                    c.offset as int,
                    c.offset + c.stored_size,
                ));
            }
            let n = st.chunks@.len() as int;
            assert forall|g: int| 0 <= g < n implies HEADER_SIZE <= (#[trigger] st.chunks@[g]).offset
                <= c0.len() by {
                assert(chunk_written(c0, st.chunks@[g], st.raws@[g], k, g, st.options));
            }
            assert forall|x: int| HEADER_SIZE <= x < c1.len() implies #[trigger] c1[x] == c3[x] by {
                assert(c2[x] == c1[x]);
            }
            lemma_tight_keep(c0, c1, st.chunks@, st.options.alignment, c0.len() as int);
            lemma_tight_keep(c1, c3, st.chunks@, st.options.alignment, c0.len() as int);
            lemma_zeros_keep(c1, c3, c0.len() as int, toc_offset as int, c1.len() as int);
            assert(packing_of(c3, key@, st.options, es, st.datas@, st.chunks@, st.raws@, toc_offset));
        }
        Ok(PackSummary { archive_len, entry_count, chunk_count })
    }
}

/// Packs an archive into an empty destination, one file at a time.
pub struct Packer<'a, W> {
    writer: &'a mut W,
    key: &'a [u8],
    state: PackState,
    failed: bool,
}

impl<'a, W: ArchiveWrite> Packer<'a, W> {
    /// The packer can go on: what it recorded agrees with what it wrote, or
    /// it has failed and refuses to go on.
    pub closed spec fn wf(&self) -> bool {
        self.failed || (self.state.wf(self.writer.written(), self.key@) && self.writer.position()
            == self.writer.written().len())
    }

    /// An earlier file failed, so no more can be added and the archive
    /// cannot be finished.
    pub closed spec fn failed(&self) -> bool {
        self.failed
    }

    /// The entries so far, with their normalized paths.
    pub closed spec fn entries(&self) -> Seq<EntryView> {
        self.state.entry_views()
    }

    /// The bytes of the files packed so far.
    pub closed spec fn contents(&self) -> Seq<Seq<u8>> {
        self.state.datas@
    }

    /// The options the packer uses.
    pub closed spec fn options(&self) -> PackOptions {
        self.state.options
    }

    /// The bytes written to the destination so far.
    pub closed spec fn written(&self) -> Seq<u8> {
        self.writer.written()
    }

    /// Whether the destination is in memory.
    pub closed spec fn in_memory(&self) -> bool {
        self.writer.in_memory()
    }

    /// The number of chunks stored so far.
    pub closed spec fn chunk_count(&self) -> int {
        self.state.chunks@.len() as int
    }

    /// The records of the chunks stored so far.
    pub closed spec fn chunks(&self) -> Seq<Chunk> {
        self.state.chunks@
    }

    /// Starts packing into `writer`, which must be empty: a zeroed header is
    /// written first.
    pub fn new(writer: &'a mut W, key: &'a [u8], options: PackOptions) -> (r: Result<Self>)
        ensures
            key@.len() == 0 ==> (r matches Err(e) && e@ == ErrorView::EmptyXorKey),
            key@.len() > 0 ==> (spec_validate_options(options) matches Err(x) ==> (r matches Err(e) && e
                == x)),
            r matches Ok(p) ==> {
                &&& p.wf()
                &&& !p.failed()
                &&& p.entries().len() == 0
                &&& p.contents().len() == 0
                &&& p.options() == options
                &&& old(writer).written().len() == 0
                &&& p.in_memory() == old(writer).in_memory()
                &&& p.written() == Seq::new(60, |i: int| 0u8)
            },
            r matches Err(e) && e@ != ErrorView::Io ==> final(writer).written() == old(writer).written(),
            r matches Err(e) ==> (e@ == ErrorView::Io && !old(writer).in_memory()) || (e@ == ErrorView::EmptyXorKey && key@.len() == 0)
                || (spec_validate_options(options) matches Err(x) && e == x) || (e@
                == ErrorView::NonEmptyDestination && old(writer).written().len() > 0),
            key@.len() > 0 && spec_validate_options(options) is Ok && old(writer).in_memory() ==> if old(
                writer,
            ).written().len() > 0 {
                r matches Err(e) && e@ == ErrorView::NonEmptyDestination
            } else {
                r is Ok
            },
    {
        match PackState::start(writer, key, options) {
            Ok(state) => Ok(Packer { writer, key, state, failed: false }),
            Err(e) => Err(e),
        }
    }

    /// Packs the bytes of `reader` as the next entry, at `path`, in chunks
    /// of the chunk size. After a failure the packer refuses to go on and
    /// leaves the reader as it is. With a destination and a reader in memory,
    /// an obfuscated pack whose path passes the checks succeeds while the
    /// file's bytes and their chunks' padding fit the destination and the
    /// counts fit 32 bits.
    pub fn add_reader<R: AssetRead>(&mut self, path: &str, reader: &mut R) -> (r: Result<()>)
        requires
            old(self).wf(),
        ensures
            final(self).wf(),
            old(self).failed() ==> (r matches Err(e) && e@ == ErrorView::IncompletePack) && final(self).failed()
                && *final(reader) == *old(reader) && final(self).written() == old(self).written(),
            !old(self).failed() ==> {
                let check = spec_add_check(entry_ids(old(self).entries()), old(self).options().mode, path@);
                &&& (check matches Err(x) ==> (r matches Err(e) && e@ == x))
                &&& (r is Err ==> final(self).failed())
                &&& (r matches Err(e) ==> check == Err::<(Seq<char>, u64), ErrorView>(e@) || e@ == ErrorView::Io
                    || e@ is TooLarge || e@ is Crypto)
                &&& (r is Ok ==> {
                    &&& !final(self).failed()
                    &&& check is Ok
                    &&& final(self).entries() == old(self).entries().push(final(self).entries().last())
                    &&& final(self).entries().last().path == check->Ok_0.0
                    &&& final(self).contents() == old(self).contents().push(old(reader).remaining())
                    &&& final(self).options() == old(self).options()
                    &&& final(reader).remaining().len() == 0
                })
            },
            final(self).in_memory() == old(self).in_memory(),
            r matches Err(e) && e@ == ErrorView::Io ==> !old(self).in_memory() || !old(reader).in_memory()
                || final(self).written().len() + 0x2000_0000 > usize::MAX,
            r matches Err(e) && e@ is Crypto ==> old(self).options().protection == Protection::Aead,
            !old(self).failed() && spec_add_check(entry_ids(old(self).entries()), old(self).options().mode, path@)
                is Ok && old(self).in_memory() && old(reader).in_memory() && old(self).options().protection
                == Protection::Xor && old(self).written().len() + old(reader).remaining().len() + chunks_for(
                old(reader).remaining().len() as int,
                old(self).options().chunk_size as int,
            ) * (old(self).options().alignment + 40) <= usize::MAX && old(self).chunk_count() + chunks_for(
                old(reader).remaining().len() as int,
                old(self).options().chunk_size as int,
            ) <= u32::MAX && old(self).entries().len() < u32::MAX ==> r is Ok,
            r is Ok ==> final(self).chunk_count() == old(self).chunk_count() + chunks_for(
                old(reader).remaining().len() as int,
                old(self).options().chunk_size as int,
            ),
    {
        if self.failed {
            return Err(Error::IncompletePack);
        }
        let res = self.state.add(self.writer, Ghost(self.key@), path, reader);
        if res.is_err() {
            self.failed = true;
        }
        res
    }

    /// Writes the table of contents and the header, and leaves the
    /// destination positioned at its end.
    pub fn finish(self) -> (r: Result<PackSummary>)
        requires
            self.wf(),
        ensures
            self.failed() ==> (r matches Err(e) && e@ == ErrorView::IncompletePack),
            r matches Err(e) ==> e@ == ErrorView::IncompletePack || e@ == ErrorView::Io || e@ is TooLarge
                || e@ is Crypto,
            r matches Ok(sm) ==> !self.failed() && sm.entry_count == self.entries().len() && sm.archive_len
                >= HEADER_SIZE && sm.chunk_count == chunk_total(self.contents(), self.options().chunk_size as nat)
                && sm.chunk_count == self.chunk_count() && sm.archive_len == spec_align_up(
                self.written().len() as int,
                self.options().alignment as int,
            ) + spec_lz4_compress(spec_toc_bytes(stored_entries(self.entries(), self.options().mode), self.chunks())).len()
                + if self.options().protection == Protection::Aead {
                AEAD_OVERHEAD as int
            } else {
                0int
            },
            r matches Err(e) && e@ == ErrorView::Io ==> !self.in_memory() || self.written().len() + 0x2000_0000
                > usize::MAX,
            r matches Err(e) && e@ is Crypto ==> self.options().protection == Protection::Aead,
            !self.failed() && self.in_memory() && self.options().protection == Protection::Xor
                && self.written().len() + self.options().alignment + MAX_TOC_STORED_SIZE <= usize::MAX && 4 + 36
                * self.chunk_count() + spec_entries_len(stored_entries(self.entries(), self.options().mode))
                <= toc_raw_budget() ==> r is Ok,
    {
        if self.failed {
            return Err(Error::IncompletePack);
        }
        let ghost es = self.state.entry_views();
        let ghost ds = self.state.datas@;
        let ghost cs = self.state.chunks@;
        let ghost raws = self.state.raws@;
        let ghost o = self.state.options;
        let ghost k = self.key@;
        let r = self.state.finish(self.writer, self.key);
        proof {
            if r is Ok {
                let c = self.writer.written();
                let t = choose|t: u64| packing_of(c, k, o, es, ds, cs, raws, t);
                crate::deterministic::lemma_entry_chunks_total(c, k, o, es, ds, cs, raws, t, es.len() as int);
                assert(ds.take(es.len() as int) =~= ds);
            }
        }
        r
    }
}

/// The most bytes that storing files with bytes `datas` in chunks of
/// `o.chunk_size` bytes can take: each file's bytes, and for each of its
/// chunks a full alignment of padding and the 40 bytes that sealing adds.
pub open spec fn pack_span(datas: Seq<Seq<u8>>, o: PackOptions) -> int
    decreases datas.len(),
{
    if datas.len() == 0 {
        0
    } else {
        pack_span(datas.drop_last(), o) + datas.last().len() + chunks_for(
            datas.last().len() as int,
            o.chunk_size as int,
        ) * (o.alignment + 40)
    }
}

/// The length of the entry records of the entries with normalized paths and
/// identifiers `ids`: 36 bytes each, and the path's UTF-8 bytes unless the
/// mode strips paths.
pub open spec fn toc_records_len(ids: Seq<(Seq<char>, u64)>, mode: PackMode) -> int
    decreases ids.len(),
{
    if ids.len() == 0 {
        0
    } else {
        toc_records_len(ids.drop_last(), mode) + 36 + if mode == PackMode::Production {
            0
        } else {
            encode_utf8(ids.last().0).len() as int
        }
    }
}

/// The largest decoded TOC whose compressed form is sure to fit the stored
/// TOC cap, LZ4 adding at most a tenth and 20 bytes.
pub open spec fn toc_raw_budget() -> int {
    244_000_000
}

/// The sizes under which packing `files` with options `o` into a stream in
/// memory is sure to stay within every cap, whatever the chunks compress to:
/// the header, the stored files (see [`pack_span`]), a last alignment and
/// the largest stored TOC fit a vector; the chunks and entries fit their
/// 32-bit counts; and the decoded TOC, with each file's real normalized path
/// and chunk count, stays within [`toc_raw_budget`].
pub open spec fn pack_fits(files: Seq<InputFile>, o: PackOptions) -> bool {
    let datas = file_datas(files);
    let ids = spec_check_files(file_paths(files), o.mode)->Ok_0;
    &&& 60 + pack_span(datas, o) + o.alignment + MAX_TOC_STORED_SIZE <= usize::MAX
    &&& chunk_total(datas, o.chunk_size as nat) <= u32::MAX
    &&& files.len() < u32::MAX
    &&& 4 + 36 * chunk_total(datas, o.chunk_size as nat) + toc_records_len(ids, o.mode) <= toc_raw_budget()
}

/// Spans and chunk totals grow with the prefix taken.
proof fn lemma_span_take(datas: Seq<Seq<u8>>, o: PackOptions, i: int)
    requires
        0 <= i < datas.len(),
        o.chunk_size > 0,
    ensures
        pack_span(datas.take(i + 1), o) == pack_span(datas.take(i), o) + datas[i].len() + chunks_for(
            datas[i].len() as int,
            o.chunk_size as int,
        ) * (o.alignment + 40),
        chunk_total(datas.take(i + 1), o.chunk_size as nat) == chunk_total(datas.take(i), o.chunk_size as nat)
            + chunks_for(datas[i].len() as int, o.chunk_size as int),
        pack_span(datas.take(i + 1), o) <= pack_span(datas, o),
        chunk_total(datas.take(i + 1), o.chunk_size as nat) <= chunk_total(datas, o.chunk_size as nat),
    decreases datas.len() - i,
{
    assert(datas.take(i + 1).drop_last() =~= datas.take(i));
    assert(datas.take(i + 1).last() == datas[i]);
    let l = datas[i].len() as int;
    let c = o.chunk_size as int;
    assert(chunks_for(l, c) >= 0) by {
        lemma_div_at_least(l + c - 1, c, 0);
    }
    assert(chunks_for(l, c) * (o.alignment + 40) >= 0) by (nonlinear_arith)
        requires
            chunks_for(l, c) >= 0,
    ;
    if i + 1 < datas.len() {
        lemma_span_take(datas, o, i + 1);
    } else {
        assert(datas.take(i + 1) =~= datas);
    }
}

/// The entry records of packed entries take `toc_records_len` of their
/// identifiers.
proof fn lemma_records_len(es: Seq<EntryView>, mode: PackMode)
    ensures
        spec_entries_len(stored_entries(es, mode)) == toc_records_len(entry_ids(es), mode),
    decreases es.len(),
{
    if es.len() > 0 {
        let init = es.drop_last();
        lemma_records_len(init, mode);
        assert(stored_entries(es, mode).drop_last() =~= stored_entries(init, mode));
        assert(entry_ids(es).drop_last() =~= entry_ids(init));
        if mode == PackMode::Production {
            assert(encode_utf8(Seq::<char>::empty()) =~= Seq::<u8>::empty());
        }
    }
}

/// The paths of `files`.
pub open spec fn file_paths(files: Seq<InputFile>) -> Seq<Seq<char>> {
    files.map_values(|f: InputFile| f.path@)
}

/// The bytes of `files`.
pub open spec fn file_datas(files: Seq<InputFile>) -> Seq<Seq<u8>> {
    files.map_values(|f: InputFile| f.data@)
}

/// `content` is an archive packed with `key` and options `o` from files
/// with `paths` and bytes `datas`, in order.
pub open spec fn is_packing(content: Seq<u8>, key: Seq<u8>, o: PackOptions, paths: Seq<Seq<char>>, datas: Seq<Seq<u8>>) -> bool {
    &&& spec_check_files(paths, o.mode) is Ok
    &&& exists|es: Seq<EntryView>, cs: Seq<Chunk>, raws: Seq<Seq<u8>>, t: u64|
        entry_ids(es) == spec_check_files(paths, o.mode)->Ok_0 && packing_of(
            content,
            key,
            o,
            es,
            datas,
            cs,
            raws,
            t,
        )
}

/// Packs `files`, in order, into the empty destination `writer`, with the
/// default options.
pub fn pack<W: ArchiveWrite>(writer: &mut W, files: &[InputFile], key: &[u8]) -> (r: Result<()>)
    ensures
        r matches Err(e) && (e@ == ErrorView::NonEmptyDestination || e@ == ErrorView::EmptyXorKey
            || e@ == ErrorView::InvalidChunkSize || e@ == ErrorView::InvalidAlignment) ==> final(writer).written()
            == old(writer).written(),
        key@.len() == 0 ==> (r matches Err(e) && e@ == ErrorView::EmptyXorKey),
        key@.len() > 0 && old(writer).in_memory() && old(writer).written().len() > 0 ==> (r matches Err(e)
            && e@ == ErrorView::NonEmptyDestination),
        r is Ok ==> old(writer).written().len() == 0 && is_packing(
            final(writer).written(),
            key@,
            crate::options::spec_default_options(),
            file_paths(files@),
            file_datas(files@),
        ),
        r matches Err(e) ==> e@ == ErrorView::Io || e@ is TooLarge || e@ is Crypto || (e@
            == ErrorView::EmptyXorKey && key@.len() == 0) || (e@ == ErrorView::NonEmptyDestination
            && old(writer).written().len() > 0) || spec_check_files(
            file_paths(files@),
            PackMode::Debug,
        ) == Err::<Seq<(Seq<char>, u64)>, ErrorView>(e@),
        r matches Err(e) ==> !(e@ is Crypto),
        r matches Err(e) && e@ == ErrorView::Io ==> write_may_fail(*final(writer)),
        key@.len() > 0 && old(writer).in_memory() && old(writer).written().len() == 0 && spec_check_files(
            file_paths(files@),
            PackMode::Debug,
        ) is Ok && pack_fits(files@, crate::options::spec_default_options()) ==> r is Ok,
{
    proof {
        assert(crate::format::is_power_of_two(16)) by {
            reveal_with_fuel(crate::format::is_power_of_two, 5);
        }
    }
    pack_with_options(writer, files, key, PackOptions::default())
}

/// Packs `files`, in order, into the empty destination `writer`: checks the
/// key, the options and that the destination is empty, stores each file in
/// chunks, then writes the table of contents and the header.
///
/// Into a destination in memory, an obfuscated pack of files that pass the
/// path checks and fit [`pack_fits`] always succeeds; I/O errors then come
/// only from destinations elsewhere or past the largest possible vector,
/// and sealing errors only from sealed packs.
pub fn pack_with_options<W: ArchiveWrite>(writer: &mut W, files: &[InputFile], key: &[u8], options: PackOptions) -> (r:
    Result<()>)
    ensures
        r matches Err(e) && (e@ == ErrorView::NonEmptyDestination || e@ == ErrorView::EmptyXorKey
            || e@ == ErrorView::InvalidChunkSize || e@ == ErrorView::InvalidAlignment) ==> final(writer).written()
            == old(writer).written(),
        key@.len() == 0 ==> (r matches Err(e) && e@ == ErrorView::EmptyXorKey),
        key@.len() > 0 ==> (spec_validate_options(options) matches Err(x) ==> (r matches Err(e) && e == x)),
        key@.len() > 0 && spec_validate_options(options) is Ok && old(writer).in_memory() && old(writer).written().len()
            > 0 ==> (r matches Err(e) && e@ == ErrorView::NonEmptyDestination),
        r is Ok ==> old(writer).written().len() == 0 && is_packing(
            final(writer).written(),
            key@,
            options,
            file_paths(files@),
            file_datas(files@),
        ),
        r matches Err(e) ==> e@ == ErrorView::Io || e@ is TooLarge || e@ is Crypto || (e@
            == ErrorView::EmptyXorKey && key@.len() == 0) || (spec_validate_options(options) matches Err(x)
            && e == x) || (e@ == ErrorView::NonEmptyDestination && old(writer).written().len() > 0)
            || spec_check_files(file_paths(files@), options.mode) == Err::<
            Seq<(Seq<char>, u64)>,
            ErrorView,
        >(e@),
        r matches Err(e) && e@ == ErrorView::Io ==> write_may_fail(*final(writer)),
        r matches Err(e) && e@ is Crypto ==> options.protection == Protection::Aead,
        key@.len() > 0 && spec_validate_options(options) is Ok && options.protection == Protection::Xor && old(
            writer,
        ).in_memory() && old(writer).written().len() == 0 && spec_check_files(file_paths(files@), options.mode)
            is Ok && pack_fits(files@, options) ==> r is Ok,
{
    match pack_files(writer, files, key, options) {
        Ok(_) => Ok(()),
        Err(e) => Err(e),
    }
}

/// Packs `files` as [`pack_with_options`] does and reports what was written.
pub(crate) fn pack_files<W: ArchiveWrite>(writer: &mut W, files: &[InputFile], key: &[u8], options: PackOptions) -> (r:
    Result<PackSummary>)
    ensures
        r matches Err(e) && (e@ == ErrorView::NonEmptyDestination || e@ == ErrorView::EmptyXorKey
            || e@ == ErrorView::InvalidChunkSize || e@ == ErrorView::InvalidAlignment) ==> final(writer).written()
            == old(writer).written(),
        key@.len() == 0 ==> (r matches Err(e) && e@ == ErrorView::EmptyXorKey),
        key@.len() > 0 ==> (spec_validate_options(options) matches Err(x) ==> (r matches Err(e) && e == x)),
        key@.len() > 0 && spec_validate_options(options) is Ok && old(writer).in_memory() && old(writer).written().len()
            > 0 ==> (r matches Err(e) && e@ == ErrorView::NonEmptyDestination),
        r matches Ok(sm) ==> sm.archive_len == final(writer).written().len() && sm.entry_count
            == files@.len() && sm.chunk_count == chunk_total(file_datas(files@), options.chunk_size as nat),
        r is Ok ==> old(writer).written().len() == 0 && is_packing(
            final(writer).written(),
            key@,
            options,
            file_paths(files@),
            file_datas(files@),
        ),
        r matches Err(e) ==> e@ == ErrorView::Io || e@ is TooLarge || e@ is Crypto || (e@
            == ErrorView::EmptyXorKey && key@.len() == 0) || (spec_validate_options(options) matches Err(x)
            && e == x) || (e@ == ErrorView::NonEmptyDestination && old(writer).written().len() > 0)
            || spec_check_files(file_paths(files@), options.mode) == Err::<
            Seq<(Seq<char>, u64)>,
            ErrorView,
        >(e@),
        r matches Err(e) && e@ == ErrorView::Io ==> write_may_fail(*final(writer)),
        r matches Err(e) && e@ is Crypto ==> options.protection == Protection::Aead,
        key@.len() > 0 && spec_validate_options(options) is Ok && options.protection == Protection::Xor && old(
            writer,
        ).in_memory() && old(writer).written().len() == 0 && spec_check_files(file_paths(files@), options.mode)
            is Ok && pack_fits(files@, options) ==> r is Ok,
{
    let ghost fits = key@.len() > 0 && spec_validate_options(options) is Ok && options.protection
        == Protection::Xor && old(writer).in_memory() && old(writer).written().len() == 0 && spec_check_files(
        file_paths(files@),
        options.mode,
    ) is Ok && pack_fits(files@, options);
    let ghost a = options.alignment as int;
    let mut st = match PackState::start(writer, key, options) {
        Ok(st) => st,
        Err(e) => return Err(e),
    };
    let ghost paths = file_paths(files@);
    let ghost datas = file_datas(files@);
    proof {
        assert(entry_ids(st.entry_views()) =~= Seq::<(Seq<char>, u64)>::empty());
        assert(paths.take(0) =~= Seq::<Seq<char>>::empty());
        assert(datas.take(0) =~= st.datas@);
        assert(pack_span(datas.take(0), options) == 0);
        assert(chunk_total(datas.take(0), options.chunk_size as nat) == 0);
    }
    let n = files.len();
    let mut i: usize = 0;
    while i < n
        invariant
            n == files@.len(),
            paths == file_paths(files@),
            datas == file_datas(files@),
            i <= n,
            st.wf(writer.written(), key@),
            writer.position() == writer.written().len(),
            writer.in_memory() == old(writer).in_memory(),
            st.options == options,
            spec_check_files(paths.take(i as int), options.mode) == Ok::<Seq<(Seq<char>, u64)>, ErrorView>(
                entry_ids(st.entry_views()),
            ),
            st.datas@ == datas.take(i as int),
            old(writer).written().len() == 0,
            a == options.alignment,
            st.entries@.len() == i,
            st.offset <= 60 + pack_span(datas.take(i as int), options),
            st.chunks@.len() == chunk_total(datas.take(i as int), options.chunk_size as nat),
            fits == (key@.len() > 0 && spec_validate_options(options) is Ok && options.protection
                == Protection::Xor && old(writer).in_memory() && old(writer).written().len() == 0
                && spec_check_files(paths, options.mode) is Ok && pack_fits(files@, options)),
        decreases n - i,
    {
        let ghost before = st.entry_views();
        let mut source: &[u8] = files[i].data.as_slice();
        proof {
            lemma_span_take(datas, options, i as int);
            assert(datas[i as int] == files@[i as int].data@);
            assert(source@ == files@[i as int].data@);
            if fits {
                if i + 1 < n {
                    lemma_span_take(datas, options, (n - 1) as int);
                }
                assert(datas.take(n as int) =~= datas);
                assert(i < n);
                if spec_add_check(entry_ids(before), options.mode, files@[i as int].path@) is Err {
                    assert(paths.take(i + 1).drop_last() =~= paths.take(i as int));
                    assert(paths.take(i + 1).last() == files@[i as int].path@);
                    assert(spec_check_files(paths.take(i + 1), options.mode) is Err);
                    lemma_check_files_err_grow(paths, options.mode, i + 1, n as int);
                    assert(paths.take(n as int) =~= paths);
                    assert(spec_check_files(paths, options.mode) is Err);
                }
            }
        }
        let res = st.add(writer, Ghost(key@), files[i].path.as_str(), &mut source);
        proof {
            assert(paths.take(i + 1).drop_last() =~= paths.take(i as int));
            assert(paths.take(i + 1).last() == files@[i as int].path@);
        }
        match res {
            Ok(()) => {},
            Err(e) => {
                proof {
                    if spec_add_check(entry_ids(before), options.mode, files@[i as int].path@) is Err {
                        assert(spec_check_files(paths.take(i + 1), options.mode) is Err);
                        lemma_check_files_err_grow(paths, options.mode, i + 1, n as int);
                        assert(paths.take(n as int) =~= paths);
                    }
                }
                return Err(e);
            },
        }
        proof {
            let es = st.entry_views();
            assert(entry_ids(es) =~= entry_ids(before).push((es.last().path, es.last().path_hash)));
            assert(spec_add_check(entry_ids(before), options.mode, files@[i as int].path@) == Ok::<(Seq<char>, u64), ErrorView>((es.last().path, es.last().path_hash))) by {
                reveal(entries_hold);
                assert(entry_written(es.last(), st.datas@.last(), entry_start(es, es.len() - 1), st.chunks@, st.raws@, st.options));
            }
            assert(datas.take(i + 1) =~= datas.take(i as int).push(files@[i as int].data@));
        }
        i = i + 1;
    }
    proof {
        assert(paths.take(n as int) =~= paths);
        assert(datas.take(n as int) =~= datas);
    }
    let ghost es = st.entry_views();
    let ghost cs = st.chunks@;
    let ghost raws = st.raws@;
    let ghost ds = st.datas@;
    proof {
        assert(datas.take(n as int) =~= datas);
        if fits {
            lemma_records_len(es, options.mode);
            assert(entry_ids(es) == spec_check_files(paths, options.mode)->Ok_0);
            assert(es.len() == st.entries@.len());
        }
    }
    let summary = match st.finish(writer, key) {
        Ok(sm) => sm,
        Err(e) => return Err(e),
    };
    proof {
        let t = choose|t: u64| packing_of(writer.written(), key@, options, es, ds, cs, raws, t);
        assert(entry_ids(es) == spec_check_files(paths, options.mode)->Ok_0);
        assert(packing_of(writer.written(), key@, options, es, datas, cs, raws, t));
        lemma_check_files_paths(paths, options.mode);
        assert(entry_ids(es).len() == es.len());
        crate::deterministic::lemma_entry_chunks_total(writer.written(), key@, options, es, datas, cs, raws, t, es.len() as int);
        assert(datas.take(es.len() as int) =~= datas);
    }
    Ok(summary)
}

/// Checking file paths gives each file's normalized path, in order.
pub(crate) proof fn lemma_check_files_paths(paths: Seq<Seq<char>>, mode: PackMode)
    requires
        spec_check_files(paths, mode) is Ok,
    ensures
        spec_check_files(paths, mode)->Ok_0.len() == paths.len(),
        forall|i: int|
            0 <= i < paths.len() ==> spec_normalize(#[trigger] paths[i]) == Some(
                spec_check_files(paths, mode)->Ok_0[i].0,
            ),
    decreases paths.len(),
{
    if paths.len() > 0 {
        let d = paths.drop_last();
        lemma_check_files_paths(d, mode);
        assert forall|i: int| 0 <= i < paths.len() implies spec_normalize(#[trigger] paths[i]) == Some(
            spec_check_files(paths, mode)->Ok_0[i].0,
        ) by {
            if i < d.len() {
                assert(paths[i] == d[i]);
            }
        }
    }
}

/// A refusal among the first `b` files is the refusal of any longer list.
proof fn lemma_check_files_err_grow(paths: Seq<Seq<char>>, mode: PackMode, b: int, c: int)
    requires
        0 <= b <= c <= paths.len(),
        spec_check_files(paths.take(b), mode) is Err,
    ensures
        spec_check_files(paths.take(c), mode) == spec_check_files(paths.take(b), mode),
    decreases c - b,
{
    if b < c {
        lemma_check_files_err_grow(paths, mode, b, c - 1);
        assert(paths.take(c).drop_last() =~= paths.take(c - 1));
    }
}

} // verus!
