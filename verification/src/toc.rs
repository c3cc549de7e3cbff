use vstd::bytes::*;
use vstd::prelude::*;
use vstd::utf8::{decode_utf8, encode_utf8, valid_utf8};

use crate::codec::{checksum, spec_xxh3_64};
use crate::error::{Error, Result};
use crate::format::{
    push_u16, push_u32, push_u64, read_u16_at, read_u32_at, read_u64_at, spec_toc_magic,
    CHUNK_FLAG_LZ4, MAX_TOC_RAW_SIZE,
};
use crate::path::{normalize_path, spec_normalize, MAX_PATH_LEN};

verus! {

/// One asset of an archive, as its table of contents records it.
#[derive(Debug, Clone)]
pub struct Entry {
    /// Normalized path; empty in archives whose paths are stripped.
    pub path: String,
    pub path_hash: u64,
    pub original_size: u64,
    pub stored_size: u64,
    pub first_chunk: u32,
    pub chunk_count: u32,
}

/// The value of an [`Entry`], its path as characters.
pub struct EntryView {
    pub path: Seq<char>,
    pub path_hash: u64,
    pub original_size: u64,
    pub stored_size: u64,
    pub first_chunk: u32,
    pub chunk_count: u32,
}

impl View for Entry {
    type V = EntryView;

    open spec fn view(&self) -> EntryView {
        EntryView {
            path: self.path@,
            path_hash: self.path_hash,
            original_size: self.original_size,
            stored_size: self.stored_size,
            first_chunk: self.first_chunk,
            chunk_count: self.chunk_count,
        }
    }
}

impl Entry {
    /// The entry's path, or `None` when the archive stores no paths.
    pub fn path(&self) -> (r: Option<&str>)
        ensures
            r is None <==> self.path@.len() == 0,
            r matches Some(s) ==> s@ == self.path@,
    {
        let s = self.path.as_str();
        if s.is_empty() {
            None
        } else {
            Some(s)
        }
    }
}

/// Where one stored chunk lies and how to decode and check it.
#[derive(Debug, Copy, Clone, PartialEq, Eq, Structural)]
pub struct Chunk {
    pub offset: u64,
    pub stored_size: u64,
    pub original_size: u64,
    pub checksum: u64,
    pub compressed: bool,
}

/// The UTF-8 bytes of an entry's path.
pub open spec fn path_bytes(e: EntryView) -> Seq<u8> {
    encode_utf8(e.path)
}

/// The record of one entry: its fixed 36 bytes, then its path bytes.
pub open spec fn spec_entry_record(e: EntryView) -> Seq<u8> {
    spec_u64_to_le_bytes(e.path_hash) + spec_u64_to_le_bytes(e.original_size)
        + spec_u64_to_le_bytes(e.stored_size) + spec_u32_to_le_bytes(e.first_chunk)
        + spec_u32_to_le_bytes(e.chunk_count) + spec_u16_to_le_bytes(path_bytes(e).len() as u16)
        + spec_u16_to_le_bytes(0) + path_bytes(e)
}

/// The 36-byte record of one chunk.
pub open spec fn spec_chunk_record(c: Chunk) -> Seq<u8> {
    spec_u64_to_le_bytes(c.offset) + spec_u64_to_le_bytes(c.stored_size) + spec_u64_to_le_bytes(
        c.original_size,
    ) + spec_u64_to_le_bytes(c.checksum) + spec_u16_to_le_bytes(
        if c.compressed {
            CHUNK_FLAG_LZ4
        } else {
            0
        },
    ) + spec_u16_to_le_bytes(0)
}

pub open spec fn spec_entries_bytes(es: Seq<EntryView>) -> Seq<u8>
    decreases es.len(),
{
    if es.len() == 0 {
        Seq::empty()
    } else {
        spec_entries_bytes(es.drop_last()) + spec_entry_record(es.last())
    }
}

pub open spec fn spec_chunks_bytes(cs: Seq<Chunk>) -> Seq<u8>
    decreases cs.len(),
{
    if cs.len() == 0 {
        Seq::empty()
    } else {
        spec_chunks_bytes(cs.drop_last()) + spec_chunk_record(cs.last())
    }
}

/// A decoded table of contents: "TOC2", the entry records, the chunk records.
pub open spec fn spec_toc_bytes(es: Seq<EntryView>, cs: Seq<Chunk>) -> Seq<u8> {
    spec_toc_magic() + spec_entries_bytes(es) + spec_chunks_bytes(cs)
}

/// Encoding a table of contents: paths must fit the 16-bit length field and
/// the whole must stay within the raw TOC cap.
pub open spec fn spec_encode_toc(es: Seq<EntryView>, cs: Seq<Chunk>) -> Result<Seq<u8>> {
    if exists|i: int| 0 <= i < es.len() && path_bytes(#[trigger] es[i]).len() > MAX_PATH_LEN {
        Err(Error::TooLarge("path"))
    } else if spec_toc_bytes(es, cs).len() > MAX_TOC_RAW_SIZE {
        Err(Error::TooLarge("raw TOC"))
    } else {
        Ok(spec_toc_bytes(es, cs))
    }
}

pub proof fn lemma_entry_record_len(e: EntryView)
    ensures
        spec_entry_record(e).len() == 36 + path_bytes(e).len(),
{
    lemma_auto_spec_u16_to_from_le_bytes();
    lemma_auto_spec_u32_to_from_le_bytes();
    lemma_auto_spec_u64_to_from_le_bytes();
}

pub proof fn lemma_chunk_record_len(c: Chunk)
    ensures
        spec_chunk_record(c).len() == 36,
{
    lemma_auto_spec_u16_to_from_le_bytes();
    lemma_auto_spec_u64_to_from_le_bytes();
}

pub proof fn lemma_chunks_bytes_len(cs: Seq<Chunk>)
    ensures
        spec_chunks_bytes(cs).len() == 36 * cs.len(),
    decreases cs.len(),
{
    if cs.len() > 0 {
        lemma_chunks_bytes_len(cs.drop_last());
        lemma_chunk_record_len(cs.last());
    }
}

/// The total length of the entry records.
pub open spec fn spec_entries_len(es: Seq<EntryView>) -> int
    decreases es.len(),
{
    if es.len() == 0 {
        0
    } else {
        spec_entries_len(es.drop_last()) + 36 + path_bytes(es.last()).len()
    }
}

pub proof fn lemma_entries_bytes_len(es: Seq<EntryView>)
    ensures
        spec_entries_bytes(es).len() == spec_entries_len(es),
    decreases es.len(),
{
    if es.len() > 0 {
        lemma_entries_bytes_len(es.drop_last());
        lemma_entry_record_len(es.last());
    }
}

proof fn lemma_entries_len_mono(es: Seq<EntryView>, i: int)
    requires
        0 <= i <= es.len(),
    ensures
        spec_entries_len(es.take(i)) <= spec_entries_len(es),
        spec_entries_len(es) >= 0,
    decreases es.len() - i,
{
    if i < es.len() {
        lemma_entries_len_mono(es, i + 1);
        assert(es.take(i + 1).drop_last() =~= es.take(i));
        assert(es.take(i + 1).last() == es[i]);
    } else {
        assert(es.take(i) =~= es);
    }
    lemma_entries_len_nonneg(es);
}

proof fn lemma_entries_len_nonneg(es: Seq<EntryView>)
    ensures
        spec_entries_len(es) >= 0,
    decreases es.len(),
{
    if es.len() > 0 {
        lemma_entries_len_nonneg(es.drop_last());
    }
}

fn push_entry_record(out: &mut Vec<u8>, e: &Entry)
    requires
        path_bytes(e@).len() <= MAX_PATH_LEN,
    ensures
        final(out)@ == old(out)@ + spec_entry_record(e@),
{
    let path = e.path.as_str().as_bytes();
    push_u64(out, e.path_hash);
    push_u64(out, e.original_size);
    push_u64(out, e.stored_size);
    push_u32(out, e.first_chunk);
    push_u32(out, e.chunk_count);
    push_u16(out, path.len() as u16);
    push_u16(out, 0);
    let ghost mid = out@;
    let mut j: usize = 0;
    while j < path.len()
        invariant
            j <= path@.len(),
            out@ == mid + path@.take(j as int),
        decreases path@.len() - j,
    {
        out.push(path[j]);
        j = j + 1;
        assert(out@ =~= mid + path@.take(j as int));
    }
    assert(path@.take(path@.len() as int) =~= path@);
    assert(final(out)@ =~= old(out)@ + spec_entry_record(e@));
}

fn push_chunk_record(out: &mut Vec<u8>, ch: Chunk)
    ensures
        final(out)@ == old(out)@ + spec_chunk_record(ch),
{
    push_u64(out, ch.offset);
    push_u64(out, ch.stored_size);
    push_u64(out, ch.original_size);
    push_u64(out, ch.checksum);
    let flags: u16 = if ch.compressed {
        CHUNK_FLAG_LZ4
    } else {
        0
    };
    push_u16(out, flags);
    push_u16(out, 0);
    assert(final(out)@ =~= old(out)@ + spec_chunk_record(ch));
}

/// Encodes the table of contents of `entries` and `chunks`.
pub fn encode_toc(entries: &Vec<Entry>, chunks: &Vec<Chunk>) -> (r: Result<Vec<u8>>)
    ensures
        match spec_encode_toc(entries@.map_values(|e: Entry| e@), chunks@) {
            Ok(b) => r matches Ok(v) && v@ == b,
            Err(e) => r matches Err(x) && x == e,
        },
{
    let ghost es = entries@.map_values(|e: Entry| e@);
    let ghost cs = chunks@;
    let n = entries.len();
    let mut i: usize = 0;
    while i < n
        invariant
            n == entries@.len(),
            es == entries@.map_values(|e: Entry| e@),
            i <= n,
            forall|j: int| 0 <= j < i ==> path_bytes(#[trigger] es[j]).len() <= MAX_PATH_LEN,
        decreases n - i,
    {
        let len = entries[i].path.as_str().as_bytes().len();
        if len > MAX_PATH_LEN {
            assert(path_bytes(es[i as int]).len() > MAX_PATH_LEN);
            return Err(Error::TooLarge("path"));
        }
        i = i + 1;
    }
    // Size of the encoding, stopping as soon as it exceeds the cap.
    let mut size: u64 = 4;
    let mut k: usize = 0;
    while k < n
        invariant
            n == entries@.len(),
            es == entries@.map_values(|e: Entry| e@),
            k <= n,
            size == 4 + spec_entries_len(es.take(k as int)),
            size <= MAX_TOC_RAW_SIZE + 36 + MAX_PATH_LEN,
            forall|j: int| 0 <= j < n ==> path_bytes(#[trigger] es[j]).len() <= MAX_PATH_LEN,
        decreases n - k,
    {
        if size > MAX_TOC_RAW_SIZE {
            proof {
                lemma_entries_len_mono(es, k as int);
                lemma_entries_bytes_len(es);
                lemma_chunks_bytes_len(cs);
            }
            return Err(Error::TooLarge("raw TOC"));
        }
        let len = entries[k].path.as_str().as_bytes().len();
        assert(len == path_bytes(es[k as int]).len());
        size = size + 36 + len as u64;
        k = k + 1;
        proof {
            assert(es.take(k as int).drop_last() =~= es.take(k - 1));
        }
    }
    assert(es.take(n as int) =~= es);
    proof {
        lemma_entries_bytes_len(es);
        lemma_chunks_bytes_len(cs);
    }
    let cn = chunks.len();
    if size > MAX_TOC_RAW_SIZE || cn as u64 > (MAX_TOC_RAW_SIZE - size) / 36 {
        assert(spec_toc_bytes(es, cs).len() > MAX_TOC_RAW_SIZE) by (nonlinear_arith)
            requires
                spec_toc_bytes(es, cs).len() == size + 36 * cn,
                size > MAX_TOC_RAW_SIZE || cn > (MAX_TOC_RAW_SIZE - size) / 36,
        ;
        return Err(Error::TooLarge("raw TOC"));
    }
    assert(spec_toc_bytes(es, cs).len() <= MAX_TOC_RAW_SIZE) by (nonlinear_arith)
        requires
            spec_toc_bytes(es, cs).len() == size + 36 * cn,
            size <= MAX_TOC_RAW_SIZE,
            cn <= (MAX_TOC_RAW_SIZE - size) / 36,
    ;
    let mut out: Vec<u8> = Vec::new();
    out.push(84u8);
    out.push(79u8);
    out.push(67u8);
    out.push(50u8);
    assert(out@ =~= spec_toc_magic());
    let mut i: usize = 0;
    while i < n
        invariant
            n == entries@.len(),
            es == entries@.map_values(|e: Entry| e@),
            i <= n,
            out@ == spec_toc_magic() + spec_entries_bytes(es.take(i as int)),
            forall|j: int| 0 <= j < n ==> path_bytes(#[trigger] es[j]).len() <= MAX_PATH_LEN,
        decreases n - i,
    {
        assert(entries@[i as int]@ == es[i as int]);
        push_entry_record(&mut out, &entries[i]);
        i = i + 1;
        proof {
            assert(es.take(i as int).drop_last() =~= es.take(i - 1));
            assert(es.take(i as int).last() == es[i - 1]);
            assert(out@ =~= spec_toc_magic() + spec_entries_bytes(es.take(i as int)));
        }
    }
    assert(es.take(n as int) =~= es);
    let ghost base = out@;
    let mut c: usize = 0;
    while c < cn
        invariant
            cn == chunks@.len(),
            cs == chunks@,
            c <= cn,
            out@ == base + spec_chunks_bytes(cs.take(c as int)),
        decreases cn - c,
    {
        push_chunk_record(&mut out, chunks[c]);
        c = c + 1;
        proof {
            assert(cs.take(c as int).drop_last() =~= cs.take(c - 1));
            assert(cs.take(c as int).last() == cs[c - 1]);
            assert(out@ =~= base + spec_chunks_bytes(cs.take(c as int)));
        }
    }
    assert(cs.take(cn as int) =~= cs);
    Ok(out)
}

} // verus!

verus! {

/// Calls `std::str::from_utf8`; the contract claims that it succeeds exactly
/// on valid UTF-8 and then gives the decoded characters.
#[verifier::external_body]
fn utf8_to_str(bytes: &[u8]) -> (r: Option<&str>)
    ensures
        r is Some <==> valid_utf8(bytes@),
        r matches Some(s) ==> s@ == decode_utf8(bytes@),
{
    std::str::from_utf8(bytes).ok()
}

/// The path that an entry record with path bytes `pb` yields: empty for
/// stripped archives, otherwise the normalized UTF-8 path, which must hash to
/// the recorded identifier.
pub open spec fn spec_record_path(pb: Seq<u8>, hash: u64, stripped: bool) -> Result<Seq<char>> {
    if stripped {
        if pb.len() == 0 {
            Ok(Seq::empty())
        } else {
            Err(Error::Corrupt("production TOC contains an entry path"))
        }
    } else if pb.len() == 0 {
        Err(Error::Corrupt("debug TOC contains an empty entry path"))
    } else if !valid_utf8(pb) {
        Err(Error::Corrupt("entry path is not UTF-8"))
    } else {
        match spec_normalize(decode_utf8(pb)) {
            None => Err(Error::InvalidPath),
            Some(n) => if spec_xxh3_64(encode_utf8(n)) != hash {
                Err(Error::Corrupt("entry path hash mismatch"))
            } else {
                Ok(n)
            },
        }
    }
}

/// Limits applied while decoding entry records.
pub struct TocLimits {
    pub paths_stripped: bool,
    pub max_path_bytes: usize,
    pub max_total_path_bytes: u64,
    pub max_single_asset_bytes: u64,
}

/// Parsing the entry record at `pos`, with `total` path bytes seen so far:
/// the entry, the position after it and the new path byte total.
pub open spec fn spec_parse_entry(data: Seq<u8>, pos: int, total: int, lim: TocLimits) -> Result<
    (EntryView, int, int),
> {
    if pos + 36 > data.len() {
        Err(Error::Corrupt("truncated TOC"))
    } else {
        let hash = spec_u64_from_le_bytes(data.subrange(pos, pos + 8));
        let orig = spec_u64_from_le_bytes(data.subrange(pos + 8, pos + 16));
        let stored = spec_u64_from_le_bytes(data.subrange(pos + 16, pos + 24));
        let first = spec_u32_from_le_bytes(data.subrange(pos + 24, pos + 28));
        let count = spec_u32_from_le_bytes(data.subrange(pos + 28, pos + 32));
        let plen = spec_u16_from_le_bytes(data.subrange(pos + 32, pos + 34)) as int;
        let reserved = spec_u16_from_le_bytes(data.subrange(pos + 34, pos + 36));
        if orig > lim.max_single_asset_bytes {
            Err(Error::AssetTooLarge)
        } else if reserved != 0 {
            Err(Error::Corrupt("non-zero entry reserved field"))
        } else if plen > lim.max_path_bytes {
            Err(Error::TooLarge("path length limit"))
        } else if total + plen > lim.max_total_path_bytes {
            Err(Error::MetadataLimitExceeded)
        } else if pos + 36 + plen > data.len() {
            Err(Error::Corrupt("truncated TOC"))
        } else {
            match spec_record_path(
                data.subrange(pos + 36, pos + 36 + plen),
                hash,
                lim.paths_stripped,
            ) {
                Err(e) => Err(e),
                Ok(path) => Ok(
                    (
                        EntryView {
                            path,
                            path_hash: hash,
                            original_size: orig,
                            stored_size: stored,
                            first_chunk: first,
                            chunk_count: count,
                        },
                        pos + 36 + plen,
                        total + plen,
                    ),
                ),
            }
        }
    }
}

/// Parsing the first `n` entry records, which start right after the magic.
pub open spec fn spec_parse_entries(data: Seq<u8>, n: nat, lim: TocLimits) -> Result<
    (Seq<EntryView>, int, int),
>
    decreases n,
{
    if n == 0 {
        Ok((Seq::empty(), 4, 0))
    } else {
        match spec_parse_entries(data, (n - 1) as nat, lim) {
            Err(e) => Err(e),
            Ok((es, p, t)) => match spec_parse_entry(data, p, t, lim) {
                Err(e) => Err(e),
                Ok((e, p2, t2)) => Ok((es.push(e), p2, t2)),
            },
        }
    }
}

/// Parsing the chunk record at `pos`.
pub open spec fn spec_parse_chunk(data: Seq<u8>, pos: int) -> Result<(Chunk, int)> {
    if pos + 36 > data.len() {
        Err(Error::Corrupt("truncated TOC"))
    } else {
        let flags = spec_u16_from_le_bytes(data.subrange(pos + 32, pos + 34));
        let reserved = spec_u16_from_le_bytes(data.subrange(pos + 34, pos + 36));
        if flags > CHUNK_FLAG_LZ4 {
            Err(Error::Corrupt("unknown chunk flags"))
        } else if reserved != 0 {
            Err(Error::Corrupt("non-zero chunk reserved field"))
        } else {
            Ok(
                (
                    Chunk {
                        offset: spec_u64_from_le_bytes(data.subrange(pos, pos + 8)),
                        stored_size: spec_u64_from_le_bytes(data.subrange(pos + 8, pos + 16)),
                        original_size: spec_u64_from_le_bytes(data.subrange(pos + 16, pos + 24)),
                        checksum: spec_u64_from_le_bytes(data.subrange(pos + 24, pos + 32)),
                        compressed: flags == CHUNK_FLAG_LZ4,
                    },
                    pos + 36,
                ),
            )
        }
    }
}

/// Parsing `n` chunk records starting at `start`.
pub open spec fn spec_parse_chunks(data: Seq<u8>, start: int, n: nat) -> Result<(Seq<Chunk>, int)>
    decreases n,
{
    if n == 0 {
        Ok((Seq::empty(), start))
    } else {
        match spec_parse_chunks(data, start, (n - 1) as nat) {
            Err(e) => Err(e),
            Ok((cs, p)) => match spec_parse_chunk(data, p) {
                Err(e) => Err(e),
                Ok((c, p2)) => Ok((cs.push(c), p2)),
            },
        }
    }
}

/// Decoding a table of contents announced to hold `entry_count` entries and
/// `chunk_count` chunks.
pub open spec fn spec_decode_toc(data: Seq<u8>, entry_count: u32, chunk_count: u32, lim: TocLimits) -> Result<
    (Seq<EntryView>, Seq<Chunk>),
> {
    if data.len() < 4 {
        Err(Error::Corrupt("truncated TOC"))
    } else if data.take(4) != spec_toc_magic() {
        Err(Error::BadTocMagic)
    } else if 36 * entry_count + 36 * chunk_count + 4 > data.len() {
        Err(Error::Corrupt("TOC counts exceed TOC size"))
    } else {
        match spec_parse_entries(data, entry_count as nat, lim) {
            Err(e) => Err(e),
            Ok((es, p, _)) => match spec_parse_chunks(data, p, chunk_count as nat) {
                Err(e) => Err(e),
                Ok((cs, p2)) => if p2 != data.len() {
                    Err(Error::Corrupt("trailing bytes in TOC"))
                } else {
                    Ok((es, cs))
                },
            },
        }
    }
}

proof fn lemma_parse_entries_count(data: Seq<u8>, n: nat, lim: TocLimits)
    requires
        spec_parse_entries(data, n, lim) is Ok,
    ensures
        spec_parse_entries(data, n, lim)->Ok_0.0.len() == n,
        !lim.paths_stripped ==> forall|i: int|
            0 <= i < n ==> (#[trigger] spec_parse_entries(data, n, lim)->Ok_0.0[i]).path_hash == spec_xxh3_64(
                encode_utf8(spec_parse_entries(data, n, lim)->Ok_0.0[i].path),
            ),
        forall|i: int|
            0 <= i < n ==> (#[trigger] spec_parse_entries(data, n, lim)->Ok_0.0[i]).original_size
                <= lim.max_single_asset_bytes,
    decreases n,
{
    if n > 0 {
        lemma_parse_entries_count(data, (n - 1) as nat, lim);
        let prev = spec_parse_entries(data, (n - 1) as nat, lim)->Ok_0;
        let es = spec_parse_entries(data, n, lim)->Ok_0.0;
        assert forall|i: int| 0 <= i < n - 1 implies es[i] == prev.0[i] by {}
    }
}

proof fn lemma_parse_chunks_count(data: Seq<u8>, start: int, n: nat)
    requires
        spec_parse_chunks(data, start, n) is Ok,
    ensures
        spec_parse_chunks(data, start, n)->Ok_0.0.len() == n,
    decreases n,
{
    if n > 0 {
        lemma_parse_chunks_count(data, start, (n - 1) as nat);
    }
}

/// No entry of a decoded table is larger than the single-asset limit.
pub proof fn lemma_decode_sizes(data: Seq<u8>, entry_count: u32, chunk_count: u32, lim: TocLimits)
    requires
        spec_decode_toc(data, entry_count, chunk_count, lim) is Ok,
    ensures
        forall|i: int|
            0 <= i < spec_decode_toc(data, entry_count, chunk_count, lim)->Ok_0.0.len() ==> (#[trigger] spec_decode_toc(
                data,
                entry_count,
                chunk_count,
                lim,
            )->Ok_0.0[i]).original_size <= lim.max_single_asset_bytes,
{
    lemma_parse_entries_count(data, entry_count as nat, lim);
}

/// A decoded table holds exactly the announced numbers of entries and
/// chunks, and in a table with paths every identifier is its path's hash.
pub proof fn lemma_decode_counts(data: Seq<u8>, entry_count: u32, chunk_count: u32, lim: TocLimits)
    requires
        spec_decode_toc(data, entry_count, chunk_count, lim) is Ok,
    ensures
        spec_decode_toc(data, entry_count, chunk_count, lim)->Ok_0.0.len() == entry_count,
        spec_decode_toc(data, entry_count, chunk_count, lim)->Ok_0.1.len() == chunk_count,
        !lim.paths_stripped ==> forall|i: int|
            0 <= i < entry_count ==> (#[trigger] spec_decode_toc(data, entry_count, chunk_count, lim)->Ok_0.0[i]).path_hash
                == spec_xxh3_64(encode_utf8(spec_decode_toc(data, entry_count, chunk_count, lim)->Ok_0.0[i].path)),
{
    lemma_parse_entries_count(data, entry_count as nat, lim);
    let p = spec_parse_entries(data, entry_count as nat, lim)->Ok_0.1;
    lemma_parse_chunks_count(data, p, chunk_count as nat);
}

/// The total number of path bytes of the entries.
pub open spec fn path_total(es: Seq<EntryView>) -> int
    decreases es.len(),
{
    if es.len() == 0 {
        0
    } else {
        path_total(es.drop_last()) + path_bytes(es.last()).len()
    }
}

/// What the decoder needs of an entry to read it back as it is: its size
/// and path within the limits, and a path that reads back (none when paths
/// are stripped, else a normalized path with its identifier).
pub open spec fn entry_decodable(e: EntryView, lim: TocLimits) -> bool {
    &&& e.original_size <= lim.max_single_asset_bytes
    &&& path_bytes(e).len() <= lim.max_path_bytes
    &&& path_bytes(e).len() <= MAX_PATH_LEN
    &&& if lim.paths_stripped {
        e.path.len() == 0
    } else {
        &&& e.path.len() > 0
        &&& spec_normalize(e.path) == Some(e.path)
        &&& e.path_hash == spec_xxh3_64(encode_utf8(e.path))
    }
}

proof fn lemma_parse_entry_record(data: Seq<u8>, pos: int, total: int, lim: TocLimits, e: EntryView)
    requires
        0 <= pos,
        pos + spec_entry_record(e).len() <= data.len(),
        data.subrange(pos, pos + spec_entry_record(e).len()) == spec_entry_record(e),
        entry_decodable(e, lim),
        total + path_bytes(e).len() <= lim.max_total_path_bytes,
    ensures
        spec_parse_entry(data, pos, total, lim) == Ok::<(EntryView, int, int), Error>(
            (e, pos + 36 + path_bytes(e).len(), total + path_bytes(e).len()),
        ),
{
    lemma_auto_spec_u16_to_from_le_bytes();
    lemma_auto_spec_u32_to_from_le_bytes();
    lemma_auto_spec_u64_to_from_le_bytes();
    lemma_entry_record_len(e);
    let rec = spec_entry_record(e);
    let pb = path_bytes(e);
    let plen = pb.len() as int;
    let a = spec_u64_to_le_bytes(e.path_hash);
    let b = spec_u64_to_le_bytes(e.original_size);
    let c = spec_u64_to_le_bytes(e.stored_size);
    assert(rec.subrange(0, 8) =~= a);
    assert(rec.subrange(8, 16) =~= b);
    assert(rec.subrange(16, 24) =~= c);
    assert(data.subrange(pos, pos + 8) =~= rec.subrange(0, 8));
    assert(data.subrange(pos + 8, pos + 16) =~= rec.subrange(8, 16));
    assert(data.subrange(pos + 16, pos + 24) =~= rec.subrange(16, 24));
    assert(rec.subrange(24, 28) =~= spec_u32_to_le_bytes(e.first_chunk));
    assert(rec.subrange(28, 32) =~= spec_u32_to_le_bytes(e.chunk_count));
    assert(rec.subrange(32, 34) =~= spec_u16_to_le_bytes(plen as u16));
    assert(rec.subrange(34, 36) =~= spec_u16_to_le_bytes(0));
    assert(rec.subrange(36, 36 + plen) =~= pb);
    assert(data.subrange(pos + 24, pos + 28) =~= rec.subrange(24, 28));
    assert(data.subrange(pos + 28, pos + 32) =~= rec.subrange(28, 32));
    assert(data.subrange(pos + 32, pos + 34) =~= rec.subrange(32, 34));
    assert(data.subrange(pos + 34, pos + 36) =~= rec.subrange(34, 36));
    assert(data.subrange(pos + 36, pos + 36 + plen) =~= rec.subrange(36, 36 + plen));
    assert((plen as u16) as int == plen);
    if !lim.paths_stripped {
        vstd::utf8::encode_utf8_valid_utf8(e.path);
        vstd::utf8::encode_utf8_decode_utf8(e.path);
        crate::path::lemma_utf8_len_at_least(e.path);
    } else {
        assert(pb =~= Seq::<u8>::empty());
        assert(e.path =~= Seq::<char>::empty());
    }
}

proof fn lemma_parse_entry_records(data: Seq<u8>, es: Seq<EntryView>, lim: TocLimits)
    requires
        4 + spec_entries_bytes(es).len() as int <= data.len(),
        data.subrange(4, 4 + spec_entries_bytes(es).len() as int) == spec_entries_bytes(es),
        forall|i: int| 0 <= i < es.len() ==> entry_decodable(#[trigger] es[i], lim),
        path_total(es) <= lim.max_total_path_bytes,
    ensures
        spec_parse_entries(data, es.len(), lim) == Ok::<(Seq<EntryView>, int, int), Error>(
            (es, 4 + spec_entries_bytes(es).len() as int, path_total(es)),
        ),
    decreases es.len(),
{
    if es.len() > 0 {
        let d = es.drop_last();
        let eb = spec_entries_bytes(d);
        let rec = spec_entry_record(es.last());
        assert(spec_entries_bytes(es) == eb + rec);
        assert(data.subrange(4, 4 + eb.len() as int) =~= eb) by {
            assert(data.subrange(4, 4 + eb.len() as int) =~= data.subrange(4, 4 + spec_entries_bytes(es).len() as int).subrange(0, eb.len() as int));
        }
        assert forall|i: int| 0 <= i < d.len() implies entry_decodable(#[trigger] d[i], lim) by {
            assert(d[i] == es[i]);
        }
        lemma_path_total_nonneg(d);
        lemma_path_total_nonneg(es);
        lemma_parse_entry_records(data, d, lim);
        assert(data.subrange(4 + eb.len() as int, 4 + eb.len() as int + rec.len() as int) =~= rec) by {
            assert(data.subrange(4 + eb.len() as int, 4 + eb.len() as int + rec.len() as int) =~= data.subrange(4, 4 + spec_entries_bytes(es).len() as int).subrange(eb.len() as int, eb.len() + rec.len() as int));
        }
        assert(entry_decodable(es[es.len() - 1], lim));
        lemma_parse_entry_record(data, 4 + eb.len() as int, path_total(d), lim, es.last());
        lemma_entry_record_len(es.last());
        assert(d.push(es.last()) =~= es);
    } else {
        assert(es =~= Seq::<EntryView>::empty());
    }
}

proof fn lemma_path_total_nonneg(es: Seq<EntryView>)
    ensures
        path_total(es) >= 0,
    decreases es.len(),
{
    if es.len() > 0 {
        lemma_path_total_nonneg(es.drop_last());
    }
}

proof fn lemma_parse_chunk_record(data: Seq<u8>, pos: int, c: Chunk)
    requires
        0 <= pos,
        pos + 36 <= data.len(),
        data.subrange(pos, pos + 36) == spec_chunk_record(c),
    ensures
        spec_parse_chunk(data, pos) == Ok::<(Chunk, int), Error>((c, pos + 36)),
{
    lemma_auto_spec_u16_to_from_le_bytes();
    lemma_auto_spec_u64_to_from_le_bytes();
    lemma_chunk_record_len(c);
    let flags: u16 = if c.compressed {
        CHUNK_FLAG_LZ4
    } else {
        0
    };
    let rec = spec_chunk_record(c);
    assert(rec.subrange(0, 8) =~= spec_u64_to_le_bytes(c.offset));
    assert(rec.subrange(8, 16) =~= spec_u64_to_le_bytes(c.stored_size));
    assert(rec.subrange(16, 24) =~= spec_u64_to_le_bytes(c.original_size));
    assert(data.subrange(pos, pos + 8) =~= rec.subrange(0, 8));
    assert(data.subrange(pos + 8, pos + 16) =~= rec.subrange(8, 16));
    assert(data.subrange(pos + 16, pos + 24) =~= rec.subrange(16, 24));
    assert(rec.subrange(24, 32) =~= spec_u64_to_le_bytes(c.checksum));
    assert(rec.subrange(32, 34) =~= spec_u16_to_le_bytes(flags));
    assert(rec.subrange(34, 36) =~= spec_u16_to_le_bytes(0));
    assert(data.subrange(pos + 24, pos + 32) =~= rec.subrange(24, 32));
    assert(data.subrange(pos + 32, pos + 34) =~= rec.subrange(32, 34));
    assert(data.subrange(pos + 34, pos + 36) =~= rec.subrange(34, 36));
}

proof fn lemma_parse_chunk_records(data: Seq<u8>, start: int, cs: Seq<Chunk>)
    requires
        0 <= start,
        start + 36 * cs.len() <= data.len(),
        data.subrange(start, start + 36 * cs.len()) == spec_chunks_bytes(cs),
    ensures
        spec_parse_chunks(data, start, cs.len()) == Ok::<(Seq<Chunk>, int), Error>((cs, start + 36 * cs.len())),
    decreases cs.len(),
{
    lemma_chunks_bytes_len(cs);
    if cs.len() > 0 {
        let d = cs.drop_last();
        lemma_chunks_bytes_len(d);
        let cb = spec_chunks_bytes(d);
        assert(spec_chunks_bytes(cs) == cb + spec_chunk_record(cs.last()));
        assert(data.subrange(start, start + 36 * d.len()) =~= cb) by {
            assert(data.subrange(start, start + 36 * d.len()) =~= data.subrange(start, start + 36 * cs.len()).subrange(0, 36 * d.len() as int));
        }
        lemma_parse_chunk_records(data, start, d);
        lemma_chunk_record_len(cs.last());
        assert(data.subrange(start + 36 * d.len(), start + 36 * d.len() + 36) =~= spec_chunk_record(cs.last())) by {
            assert(data.subrange(start + 36 * d.len(), start + 36 * d.len() + 36) =~= data.subrange(start, start + 36 * cs.len()).subrange(36 * d.len() as int, 36 * d.len() as int + 36));
        }
        lemma_parse_chunk_record(data, start + 36 * d.len(), cs.last());
        assert(d.push(cs.last()) =~= cs);
    } else {
        assert(cs =~= Seq::<Chunk>::empty());
    }
}

/// Decoding an encoded table gives back its entries and chunks, when every
/// entry is one the decoder accepts under `lim`.
pub proof fn lemma_toc_roundtrip(es: Seq<EntryView>, cs: Seq<Chunk>, lim: TocLimits)
    requires
        es.len() <= u32::MAX,
        cs.len() <= u32::MAX,
        forall|i: int| 0 <= i < es.len() ==> entry_decodable(#[trigger] es[i], lim),
        path_total(es) <= lim.max_total_path_bytes,
    ensures
        spec_decode_toc(spec_toc_bytes(es, cs), es.len() as u32, cs.len() as u32, lim) == Ok::<
            (Seq<EntryView>, Seq<Chunk>),
            Error,
        >((es, cs)),
{
    let data = spec_toc_bytes(es, cs);
    let eb = spec_entries_bytes(es);
    let cb = spec_chunks_bytes(cs);
    lemma_entries_bytes_len(es);
    lemma_chunks_bytes_len(cs);
    lemma_entries_len_at_least(es);
    assert(data.take(4) =~= spec_toc_magic());
    assert(data.subrange(4, 4 + eb.len() as int) =~= eb);
    lemma_parse_entry_records(data, es, lim);
    assert(data.subrange(4 + eb.len() as int, 4 + eb.len() as int + 36 * cs.len()) =~= cb);
    lemma_parse_chunk_records(data, 4 + eb.len() as int, cs);
}

proof fn lemma_entries_len_at_least(es: Seq<EntryView>)
    ensures
        spec_entries_len(es) >= 36 * es.len(),
    decreases es.len(),
{
    if es.len() > 0 {
        lemma_entries_len_at_least(es.drop_last());
    }
}

fn parse_entry(data: &[u8], pos: usize, total: u64, lim: &TocLimits) -> (r: Result<(Entry, usize, u64)>)
    requires
        pos <= data@.len(),
        total <= lim.max_total_path_bytes,
    ensures
        match spec_parse_entry(data@, pos as int, total as int, *lim) {
            Ok((e, p, t)) => r matches Ok((x, xp, xt)) && x@ == e && xp == p && xt == t,
            Err(e) => r matches Err(x) && x == e,
        },
{
    let n = data.len();
    if n - pos < 36 {
        return Err(Error::Corrupt("truncated TOC"));
    }
    let hash = read_u64_at(data, pos);
    let orig = read_u64_at(data, pos + 8);
    let stored = read_u64_at(data, pos + 16);
    let first = read_u32_at(data, pos + 24);
    let count = read_u32_at(data, pos + 28);
    let plen = read_u16_at(data, pos + 32) as usize;
    let reserved = read_u16_at(data, pos + 34);
    if orig > lim.max_single_asset_bytes {
        return Err(Error::AssetTooLarge);
    }
    if reserved != 0 {
        return Err(Error::Corrupt("non-zero entry reserved field"));
    }
    if plen > lim.max_path_bytes {
        return Err(Error::TooLarge("path length limit"));
    }
    if plen as u64 > lim.max_total_path_bytes - total {
        return Err(Error::MetadataLimitExceeded);
    }
    if n - pos - 36 < plen {
        return Err(Error::Corrupt("truncated TOC"));
    }
    let start = pos + 36;
    let pb = vstd::slice::slice_subrange(data, start, start + plen);
    let path: String = if lim.paths_stripped {
        if plen == 0 {
            String::new()
        } else {
            return Err(Error::Corrupt("production TOC contains an entry path"));
        }
    } else if plen == 0 {
        return Err(Error::Corrupt("debug TOC contains an empty entry path"));
    } else {
        let s = match utf8_to_str(pb) {
            Some(s) => s,
            None => return Err(Error::Corrupt("entry path is not UTF-8")),
        };
        let normalized = match normalize_path(s) {
            Ok(p) => p,
            Err(e) => return Err(e),
        };
        if checksum(normalized.as_str().as_bytes()) != hash {
            return Err(Error::Corrupt("entry path hash mismatch"));
        }
        normalized
    };
    let e = Entry {
        path,
        path_hash: hash,
        original_size: orig,
        stored_size: stored,
        first_chunk: first,
        chunk_count: count,
    };
    Ok((e, start + plen, total + plen as u64))
}

fn parse_chunk(data: &[u8], pos: usize) -> (r: Result<(Chunk, usize)>)
    requires
        pos <= data@.len(),
    ensures
        match spec_parse_chunk(data@, pos as int) {
            Ok((c, p)) => r matches Ok((x, xp)) && x == c && xp == p,
            Err(e) => r matches Err(x) && x == e,
        },
{
    let n = data.len();
    if n - pos < 36 {
        return Err(Error::Corrupt("truncated TOC"));
    }
    let flags = read_u16_at(data, pos + 32);
    let reserved = read_u16_at(data, pos + 34);
    if flags > CHUNK_FLAG_LZ4 {
        return Err(Error::Corrupt("unknown chunk flags"));
    }
    if reserved != 0 {
        return Err(Error::Corrupt("non-zero chunk reserved field"));
    }
    let c = Chunk {
        offset: read_u64_at(data, pos),
        stored_size: read_u64_at(data, pos + 8),
        original_size: read_u64_at(data, pos + 16),
        checksum: read_u64_at(data, pos + 24),
        compressed: flags == CHUNK_FLAG_LZ4,
    };
    Ok((c, pos + 36))
}

proof fn lemma_parse_entries_pos(data: Seq<u8>, n: nat, lim: TocLimits)
    ensures
        spec_parse_entries(data, n, lim) matches Ok((es, p, t)) ==> es.len() == n && 4 <= p
            <= data.len() + 4 && 0 <= t <= lim.max_total_path_bytes,
    decreases n,
{
    if n > 0 {
        lemma_parse_entries_pos(data, (n - 1) as nat, lim);
    }
}

/// Decodes a table of contents; see [`spec_decode_toc`] for the checks and
/// their order.
pub fn decode_toc(data: &[u8], entry_count: u32, chunk_count: u32, lim: &TocLimits) -> (r: Result<
    (Vec<Entry>, Vec<Chunk>),
>)
    ensures
        match spec_decode_toc(data@, entry_count, chunk_count, *lim) {
            Ok((es, cs)) => r matches Ok((xe, xc)) && xe@.map_values(|e: Entry| e@) == es && xc@
                == cs,
            Err(e) => r matches Err(x) && x == e,
        },
{
    let n = data.len();
    if n < 4 {
        return Err(Error::Corrupt("truncated TOC"));
    }
    if !(data[0] == 84u8 && data[1] == 79u8 && data[2] == 67u8 && data[3] == 50u8) {
        proof {
            if data@.take(4) == spec_toc_magic() {
                assert(data@.take(4)[0] == data@[0]);
                assert(data@.take(4)[1] == data@[1]);
                assert(data@.take(4)[2] == data@[2]);
                assert(data@.take(4)[3] == data@[3]);
            }
        }
        return Err(Error::BadTocMagic);
    }
    assert(data@.take(4) =~= spec_toc_magic());
    let min_bytes: u64 = 36 * (entry_count as u64) + 36 * (chunk_count as u64) + 4;
    if min_bytes > n as u64 {
        return Err(Error::Corrupt("TOC counts exceed TOC size"));
    }
    let mut entries: Vec<Entry> = Vec::new();
    let mut pos: usize = 4;
    let mut total: u64 = 0;
    let mut i: u32 = 0;
    assert(entries@.map_values(|e: Entry| e@) =~= Seq::<EntryView>::empty());
    while i < entry_count
        invariant
            n == data@.len(),
            n >= 4,
            data@.take(4) == spec_toc_magic(),
            36 * entry_count + 36 * chunk_count + 4 <= n,
                i <= entry_count,
            spec_parse_entries(data@, i as nat, *lim) == Ok::<(Seq<EntryView>, int, int), Error>(
                (entries@.map_values(|e: Entry| e@), pos as int, total as int),
            ),
            pos <= n,
            total <= lim.max_total_path_bytes,
        decreases entry_count - i,
    {
        let ghost prev = entries@.map_values(|e: Entry| e@);
        match parse_entry(data, pos, total, lim) {
            Ok((e, p, t)) => {
                entries.push(e);
                pos = p;
                total = t;
                i = i + 1;
                assert(entries@.map_values(|e: Entry| e@) =~= prev.push(e@));
            },
            Err(e) => {
                proof {
                    assert(spec_parse_entries(data@, (i + 1) as nat, *lim) is Err);
                    lemma_parse_entries_err(data@, (i + 1) as nat, entry_count as nat, *lim);
                }
                return Err(e);
            },
        }
    }
    let mut chunks: Vec<Chunk> = Vec::new();
    let ghost start = pos as int;
    let mut k: u32 = 0;
    while k < chunk_count
        invariant
            n == data@.len(),
            n >= 4,
            data@.take(4) == spec_toc_magic(),
            36 * entry_count + 36 * chunk_count + 4 <= n,
            k <= chunk_count,
            spec_parse_entries(data@, entry_count as nat, *lim) matches Ok((_, p, _)) && p == start,
            spec_parse_chunks(data@, start, k as nat) == Ok::<(Seq<Chunk>, int), Error>(
                (chunks@, pos as int),
            ),
            pos <= n,
        decreases chunk_count - k,
    {
        match parse_chunk(data, pos) {
            Ok((c, p)) => {
                chunks.push(c);
                pos = p;
                k = k + 1;
            },
            Err(e) => {
                proof {
                    lemma_parse_chunks_err(data@, start, (k + 1) as nat, chunk_count as nat);
                }
                return Err(e);
            },
        }
    }
    if pos != n {
        return Err(Error::Corrupt("trailing bytes in TOC"));
    }
    Ok((entries, chunks))
}

proof fn lemma_parse_entries_err(data: Seq<u8>, i: nat, n: nat, lim: TocLimits)
    requires
        i <= n,
        spec_parse_entries(data, i, lim) is Err,
    ensures
        spec_parse_entries(data, n, lim) == spec_parse_entries(data, i, lim),
    decreases n - i,
{
    if i < n {
        lemma_parse_entries_err(data, i, (n - 1) as nat, lim);
    }
}

proof fn lemma_parse_chunks_err(data: Seq<u8>, start: int, i: nat, n: nat)
    requires
        i <= n,
        spec_parse_chunks(data, start, i) is Err,
    ensures
        spec_parse_chunks(data, start, n) == spec_parse_chunks(data, start, i),
    decreases n - i,
{
    if i < n {
        lemma_parse_chunks_err(data, start, i, (n - 1) as nat);
    }
}

} // verus!
