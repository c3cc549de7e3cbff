use vstd::prelude::*;
use vstd::utf8::encode_utf8;

use crate::codec::{spec_lz4_compress, spec_xxh3_64};
use crate::error::ErrorView;
use crate::format::{spec_flags_aead, spec_flags_paths_stripped, spec_validate_header, HEADER_SIZE};
use crate::layout::{
    spec_check_chunk, spec_check_chunks, spec_check_entries, spec_check_entry, spec_claim,
    spec_validate_layout, sum_original, sum_stored,
};
use crate::limits::{spec_clamped, spec_validate_limits, ArchiveLimits};
use crate::index::{bucket_end, spec_index};
use crate::model::{
    spec_verify, spec_verify_entries, verify_label,
    entry_hashes, entry_paths, first_match, lemma_lookup_found, path_matches, spec_chunk,
    spec_chunks_between, spec_entry_data, spec_read, ArchiveModel,
};
use crate::options::{PackMode, PackOptions, Protection};
use crate::pack::{
    entry_ids, lemma_check_files_paths, spec_check_files,
    chunk_written, chunks_ordered, concat_range, entries_distinct, entry_start, entry_written,
    pack_key, packed_header, packing_of, stored_entries, stored_form,
};
use crate::path::spec_normalize;
use crate::reader::{spec_open, spec_stage_decode, spec_stage_header, spec_stage_toc, spec_stage_toc_range, toc_limits};
use crate::toc::{path_bytes, path_total, spec_toc_bytes, Chunk, EntryView};

verus! {

/// The decoded chunks hold as many bytes as their records say.
proof fn lemma_concat_len(cs: Seq<Chunk>, raws: Seq<Seq<u8>>, lo: int, hi: int)
    requires
        0 <= lo <= hi <= cs.len(),
        cs.len() == raws.len(),
        forall|g: int| lo <= g < hi ==> (#[trigger] cs[g]).original_size == raws[g].len(),
    ensures
        concat_range(raws, lo, hi).len() == sum_original(cs, lo, hi),
    decreases hi - lo,
{
    if lo < hi {
        lemma_concat_len(cs, raws, lo, hi - 1);
    }
}

/// Chunks that each decode to at least one byte decode to at least as many
/// bytes as there are chunks.
proof fn lemma_sum_at_least(cs: Seq<Chunk>, lo: int, hi: int)
    requires
        0 <= lo <= hi <= cs.len(),
        forall|g: int| lo <= g < hi ==> (#[trigger] cs[g]).original_size >= 1,
    ensures
        sum_original(cs, lo, hi) >= hi - lo,
    decreases hi - lo,
{
    if lo < hi {
        lemma_sum_at_least(cs, lo, hi - 1);
    }
}

/// Every packed chunk passes the layout checks, in order.
proof fn lemma_packed_chunks_checked(
    content: Seq<u8>,
    key: Seq<u8>,
    o: PackOptions,
    cs: Seq<Chunk>,
    raws: Seq<Seq<u8>>,
    t: u64,
    max_total: u64,
    n: nat,
)
    requires
        n <= cs.len(),
        cs.len() == raws.len(),
        forall|g: int|
            0 <= g < cs.len() ==> chunk_written(content, #[trigger] cs[g], raws[g], pack_key(o, key), g, o)
                && cs[g].offset + cs[g].stored_size <= t,
        chunks_ordered(cs),
        sum_original(cs, 0, cs.len() as int) <= max_total,
        o.chunk_size <= u32::MAX,
        o.alignment > 0,
    ensures
        spec_check_chunks(cs, n, t, o.chunk_size as u32, o.alignment, o.protection == Protection::Aead, max_total)
            == Ok::<(int, int), crate::error::Error>(
            (
                if n == 0 {
                    HEADER_SIZE as int
                } else {
                    cs[n - 1].offset + cs[n - 1].stored_size
                },
                sum_original(cs, 0, n as int),
            ),
        ),
    decreases n,
{
    if n > 0 {
        lemma_packed_chunks_checked(content, key, o, cs, raws, t, max_total, (n - 1) as nat);
        let g = n - 1;
        let c = cs[g];
        let aead = o.protection == Protection::Aead;
        assert(chunk_written(content, c, raws[g], pack_key(o, key), g, o));
        let stored = content.subrange(c.offset as int, c.offset + c.stored_size);
        assert(stored.len() == c.stored_size);
        assert(stored_form(stored, raws[g], c.compressed, pack_key(o, key), g as u32));
        if n > 1 {
            assert(cs[n - 2].offset + cs[n - 2].stored_size <= cs[n - 1].offset);
        }
        crate::layout::lemma_sum_original_split(cs, 0, n as int, cs.len() as int);
        assert(spec_check_chunk(
            c,
            if n - 1 == 0 {
                HEADER_SIZE as int
            } else {
                cs[n - 2].offset + cs[n - 2].stored_size
            },
            t,
            o.chunk_size as u32,
            o.alignment,
            aead,
        ) is Ok);
    }
}

/// The chunks before `k` are marked as owned.
spec fn marks(n: nat, k: int) -> Seq<bool> {
    Seq::new(n, |g: int| g < k)
}

/// Running sums of sizes grow with the range.
proof fn lemma_sums_grow(cs: Seq<Chunk>, lo: int, k: int, hi: int)
    requires
        lo <= k <= hi,
    ensures
        sum_original(cs, lo, k) <= sum_original(cs, lo, hi),
        sum_stored(cs, lo, k) <= sum_stored(cs, lo, hi),
    decreases hi - k,
{
    if k < hi {
        lemma_sums_grow(cs, lo, k, hi - 1);
    }
}

proof fn lemma_claim_ok(cs: Seq<Chunk>, first: int, count: int, chunk_size: u32, j: nat)
    requires
        0 <= first,
        j <= count,
        first + count <= cs.len(),
        sum_original(cs, first, first + count) <= u64::MAX,
        sum_stored(cs, first, first + count) <= u64::MAX,
        forall|g: int| first <= g < first + count - 1 ==> (#[trigger] cs[g]).original_size == chunk_size,
    ensures
        spec_claim(cs, marks(cs.len(), first), first, count, chunk_size, j) == Ok::<Seq<bool>, crate::error::Error>(
            marks(cs.len(), first + j),
        ),
    decreases j,
{
    if j > 0 {
        lemma_claim_ok(cs, first, count, chunk_size, (j - 1) as nat);
        let g = first + j - 1;
        lemma_sums_grow(cs, first, g + 1, first + count);
        assert(marks(cs.len(), first + j - 1).update(g, true) =~= marks(cs.len(), first + j));
    }
}

/// Every packed entry passes the layout checks, in order, owning its run
/// of chunks.
proof fn lemma_packed_entries_checked(
    es: Seq<EntryView>,
    datas: Seq<Seq<u8>>,
    cs: Seq<Chunk>,
    raws: Seq<Seq<u8>>,
    o: PackOptions,
    n: nat,
)
    requires
        n <= es.len(),
        es.len() == datas.len(),
        cs.len() == raws.len(),
        o.chunk_size <= u32::MAX,
        forall|g: int| 0 <= g < cs.len() ==> (#[trigger] cs[g]).original_size == raws[g].len() && raws[g].len() > 0,
        forall|i: int|
            0 <= i < es.len() ==> entry_written(#[trigger] es[i], datas[i], entry_start(es, i), cs, raws, o),
    ensures
        spec_check_entries(stored_entries(es, o.mode), cs, o.chunk_size as u32, n) == Ok::<
            Seq<bool>,
            crate::error::Error,
        >(marks(cs.len(), entry_start(es, n as int))),
    decreases n,
{
    let ses = stored_entries(es, o.mode);
    if n == 0 {
        assert(Seq::new(cs.len(), |i: int| false) =~= marks(cs.len(), 0));
    } else {
        lemma_packed_entries_checked(es, datas, cs, raws, o, (n - 1) as nat);
        let i = n - 1;
        let ew = es[i];
        let e = ses[i];
        assert(entry_written(ew, datas[i], entry_start(es, i), cs, raws, o));
        assert(e.first_chunk == ew.first_chunk && e.chunk_count == ew.chunk_count && e.original_size
            == ew.original_size && e.stored_size == ew.stored_size);
        let first = e.first_chunk as int;
        let count = e.chunk_count as int;
        lemma_concat_len(cs, raws, first, first + count);
        lemma_sum_at_least(cs, first, first + count);
        assert(sum_original(cs, first, first + count) == e.original_size);
        assert(sum_stored(cs, first, first + count) == e.stored_size);
        assert forall|g: int| first <= g < first + count - 1 implies (#[trigger] cs[g]).original_size
            == o.chunk_size as u32 by {
            assert(raws[g].len() == o.chunk_size);
        }
        lemma_claim_ok(cs, first, count, o.chunk_size as u32, count as nat);
        if e.original_size == 0 {
            assert(count == 0);
        }
        assert(spec_check_entry(e, cs, marks(cs.len(), first), o.chunk_size as u32) == Ok::<
            Seq<bool>,
            crate::error::Error,
        >(marks(cs.len(), first + count)));
    }
}

/// The stored chunks lie in order, before the table, and pass the checks
/// that opening makes of a table.
proof fn lemma_packed_layout(
    content: Seq<u8>,
    key: Seq<u8>,
    o: PackOptions,
    es: Seq<EntryView>,
    datas: Seq<Seq<u8>>,
    cs: Seq<Chunk>,
    raws: Seq<Seq<u8>>,
    t: u64,
    max_total: u64,
)
    requires
        packing_of(content, key, o, es, datas, cs, raws, t),
        sum_original(cs, 0, cs.len() as int) <= max_total,
    ensures
        spec_validate_layout(
            stored_entries(es, o.mode),
            cs,
            t,
            o.chunk_size as u32,
            o.alignment,
            o.protection == Protection::Aead,
            max_total,
        ) == Ok::<(), crate::error::Error>(()),
{
    lemma_packed_chunks_checked(content, key, o, cs, raws, t, max_total, cs.len());
    assert forall|g: int| 0 <= g < cs.len() implies (#[trigger] cs[g]).original_size == raws[g].len()
        && raws[g].len() > 0 by {
        assert(chunk_written(content, cs[g], raws[g], pack_key(o, key), g, o));
    }
    lemma_packed_entries_checked(es, datas, cs, raws, o, es.len());
    let ses = stored_entries(es, o.mode);
    assert(ses.len() == es.len());
    let u = marks(cs.len(), cs.len() as int);
    assert(!u.contains(false));
}

/// A packed chunk decodes to its bytes.
proof fn lemma_packed_chunk_read(
    content: Seq<u8>,
    key: Seq<u8>,
    o: PackOptions,
    cs: Seq<Chunk>,
    raws: Seq<Seq<u8>>,
    m: ArchiveModel,
    g: int,
    label: Seq<char>,
    local: u32,
)
    requires
        0 <= g < cs.len(),
        cs.len() == raws.len(),
        chunk_written(content, cs[g], raws[g], pack_key(o, key), g, o),
        m.chunks == cs,
        m.aead_key == pack_key(o, key),
        m.max_chunks_per_operation >= 1,
    ensures
        spec_chunk(content, m, g, label, local) == Ok::<Seq<u8>, ErrorView>(raws[g]),
{
    let c = cs[g];
    let stored = content.subrange(c.offset as int, c.offset + c.stored_size);
    assert(stored_form(stored, raws[g], c.compressed, pack_key(o, key), g as u32));
}

/// The first `k` chunks of a packed entry decode to their bytes.
proof fn lemma_packed_between(
    content: Seq<u8>,
    key: Seq<u8>,
    o: PackOptions,
    cs: Seq<Chunk>,
    raws: Seq<Seq<u8>>,
    m: ArchiveModel,
    e: EntryView,
    label: Seq<char>,
    k: int,
)
    requires
        0 <= k,
        e.first_chunk + k <= cs.len(),
        cs.len() == raws.len(),
        forall|g: int| 0 <= g < cs.len() ==> chunk_written(content, #[trigger] cs[g], raws[g], pack_key(o, key), g, o),
        m.chunks == cs,
        m.aead_key == pack_key(o, key),
        m.max_chunks_per_operation >= 1,
    ensures
        spec_chunks_between(content, m, e, label, 0, k) == Ok::<Seq<u8>, ErrorView>(
            concat_range(raws, e.first_chunk as int, e.first_chunk + k),
        ),
    decreases k,
{
    if k > 0 {
        lemma_packed_between(content, key, o, cs, raws, m, e, label, k - 1);
        let g = e.first_chunk + k - 1;
        lemma_packed_chunk_read(content, key, o, cs, raws, m, g, label, (k - 1) as u32);
    }
}

/// The limits admit an archive packed with options `o` into `content`, with
/// entries `es`, chunks `cs` and its table at `t`: the header's sizes and
/// counts pass the limit checks, every asset and path is within its limit
/// and can be read in one operation, the paths and decoded bytes in all
/// are within their limits, and, when paths are kept, no identifier is
/// shared by more than 64 entries (a bucket of the sorted identifier index
/// holds at most 64 slots).
pub open spec fn packing_within(l: ArchiveLimits, content: Seq<u8>, o: PackOptions, es: Seq<EntryView>, cs: Seq<Chunk>, t: u64) -> bool {
    let ses = stored_entries(es, o.mode);
    let p = spec_toc_bytes(ses, cs);
    let h = packed_header(o, es.len(), cs.len(), t, (content.len() - t) as u64, p);
    &&& spec_validate_limits(h, l) is Ok
    &&& forall|i: int|
        0 <= i < es.len() ==> {
            &&& (#[trigger] es[i]).original_size <= l.max_single_asset_bytes
            &&& es[i].original_size <= usize::MAX
            &&& es[i].chunk_count <= l.max_chunks_per_operation
            &&& path_bytes(ses[i]).len() <= l.max_path_bytes
        }
    &&& path_total(ses) <= l.max_total_path_bytes
    &&& sum_original(cs, 0, cs.len() as int) <= l.max_total_decompressed_bytes
    &&& (o.mode == PackMode::Debug ==> forall|k: int|
        0 <= k < es.len() ==> #[trigger] bucket_end(spec_index(entry_hashes(ses)), k) - k <= 64)
}

/// The model an archive packed with `o` opens to under limits `l`.
pub open spec fn packed_model(key: Seq<u8>, o: PackOptions, es: Seq<EntryView>, cs: Seq<Chunk>, l: ArchiveLimits) -> ArchiveModel {
    ArchiveModel {
        entries: stored_entries(es, o.mode),
        chunks: cs,
        chunk_size: o.chunk_size as u32,
        alignment: o.alignment,
        paths_stripped: o.mode == PackMode::Production,
        aead_key: pack_key(o, key),
        max_chunks_per_operation: l.max_chunks_per_operation,
    }
}

/// What is packed opens: an archive packed with `key` opens with the same
/// key, under any limits that admit it, to the entries and chunks that were
/// packed (without paths in production mode).
pub proof fn lemma_pack_opens(
    content: Seq<u8>,
    key: Seq<u8>,
    o: PackOptions,
    es: Seq<EntryView>,
    datas: Seq<Seq<u8>>,
    cs: Seq<Chunk>,
    raws: Seq<Seq<u8>>,
    t: u64,
    limits: ArchiveLimits,
)
    requires
        packing_of(content, key, o, es, datas, cs, raws, t),
        packing_within(spec_clamped(limits), content, o, es, cs, t),
    ensures
        spec_open(content, key, limits) == Ok::<ArchiveModel, ErrorView>(
            packed_model(key, o, es, cs, spec_clamped(limits)),
        ),
{
    let l = spec_clamped(limits);
    let ses = stored_entries(es, o.mode);
    let p = spec_toc_bytes(ses, cs);
    let stored = content.skip(t as int);
    let h = packed_header(o, es.len(), cs.len(), t, stored.len() as u64, p);
    crate::format::lemma_supported_flag_bits();
    assert(spec_flags_paths_stripped(h.flags) == (o.mode == PackMode::Production));
    assert(spec_flags_aead(h.flags) == (o.protection == Protection::Aead));
    crate::format::lemma_header_roundtrip(h);
    assert(content.subrange(0, 60) =~= content.take(HEADER_SIZE as int));
    assert(spec_validate_header(h) is Ok) by {
        reveal_with_fuel(crate::format::is_power_of_two, 1);
    }
    assert(spec_stage_header(content, l) == Ok::<crate::format::Header, ErrorView>(h));
    assert(spec_stage_toc_range(h, content.len() as int) is Ok);
    assert(content.subrange(t as int, t + stored.len()) =~= stored);
    if o.protection == Protection::Xor {
        crate::codec::lemma_xor_involution(spec_lz4_compress(p), key);
    }
    assert(spec_stage_toc(content, key, h) == Ok::<Seq<u8>, ErrorView>(p));
    let lim = toc_limits(h, l);
    assert forall|i: int| 0 <= i < ses.len() implies crate::toc::entry_decodable(#[trigger] ses[i], lim) by {
        assert(entry_written(es[i], datas[i], entry_start(es, i), cs, raws, o));
        if o.mode == PackMode::Production {
            assert(ses[i].path =~= Seq::<char>::empty());
        } else {
            assert(ses[i] == es[i]);
            assert(spec_normalize(es[i].path) == Some(es[i].path));
        }
    }
    crate::toc::lemma_toc_roundtrip(ses, cs, lim);
    lemma_packed_layout(content, key, o, es, datas, cs, raws, t, l.max_total_decompressed_bytes);
    let hashes = entry_hashes(ses);
    crate::index::lemma_index_exists(hashes);
    if o.mode == PackMode::Production {
        assert forall|i: int, j: int| 0 <= i < j < hashes.len() implies hashes[i] != hashes[j] by {
            assert(es[i].path_hash != es[j].path_hash);
        }
        crate::index::lemma_scan_distinct(entry_paths(ses), hashes, spec_index(hashes), true, 0);
    } else {
        let ps = entry_paths(ses);
        assert forall|i: int, j: int| 0 <= i < j < ps.len() implies #[trigger] ps[i] != #[trigger] ps[j] by {
            assert(es[i].path != es[j].path);
        }
        crate::index::lemma_scan_paths_distinct(ps, hashes, spec_index(hashes), 0);
    }
    assert(spec_stage_decode(p, h, l) == Ok::<(Seq<EntryView>, Seq<Chunk>), ErrorView>((ses, cs)));
}

/// What is packed reads back: an archive packed from files opens with the
/// same key under any limits that admit it, and reading the path of any
/// packed file yields that file's bytes.
pub proof fn lemma_pack_roundtrip(
    content: Seq<u8>,
    key: Seq<u8>,
    o: PackOptions,
    paths: Seq<Seq<char>>,
    es: Seq<EntryView>,
    datas: Seq<Seq<u8>>,
    cs: Seq<Chunk>,
    raws: Seq<Seq<u8>>,
    t: u64,
    limits: ArchiveLimits,
    i: int,
)
    requires
        packing_of(content, key, o, es, datas, cs, raws, t),
        spec_check_files(paths, o.mode) == Ok::<Seq<(Seq<char>, u64)>, ErrorView>(entry_ids(es)),
        packing_within(spec_clamped(limits), content, o, es, cs, t),
        0 <= i < paths.len(),
    ensures
        spec_open(content, key, limits) is Ok,
        spec_read(content, spec_open(content, key, limits)->Ok_0, paths[i]) == Ok::<Seq<u8>, ErrorView>(
            datas[i],
        ),
{
    let l = spec_clamped(limits);
    lemma_pack_opens(content, key, o, es, datas, cs, raws, t, limits);
    let m = packed_model(key, o, es, cs, l);
    lemma_check_files_paths(paths, o.mode);
    assert(entry_ids(es).len() == es.len());
    let n = es[i].path;
    assert(entry_ids(es)[i] == (es[i].path, es[i].path_hash));
    assert(spec_normalize(paths[i]) == Some(n));
    assert(entry_written(es[i], datas[i], entry_start(es, i), cs, raws, o));
    let h = spec_xxh3_64(encode_utf8(n));
    let ses = stored_entries(es, o.mode);
    assert(path_matches(m, i, h, n));
    assert forall|j: int| 0 <= j < i implies !#[trigger] path_matches(m, j, h, n) by {
        if o.mode == PackMode::Production {
            assert(es[j].path_hash != es[i].path_hash);
        } else {
            assert(es[j].path != es[i].path);
        }
    }
    assert(first_match(m, i, n));
    lemma_lookup_found(m, paths[i], n, i);
    let e = ses[i];
    let count = e.chunk_count as int;
    if count > 0 {
        lemma_packed_between(content, key, o, cs, raws, m, e, n, count);
    }
    assert(spec_entry_data(content, m, i, n) == Ok::<Seq<u8>, ErrorView>(datas[i]));
}

/// Verifying the first `n` entries of a packed archive succeeds.
proof fn lemma_packed_verify_entries(
    content: Seq<u8>,
    key: Seq<u8>,
    o: PackOptions,
    es: Seq<EntryView>,
    datas: Seq<Seq<u8>>,
    cs: Seq<Chunk>,
    raws: Seq<Seq<u8>>,
    t: u64,
    m: ArchiveModel,
    n: int,
)
    requires
        packing_of(content, key, o, es, datas, cs, raws, t),
        m.entries == stored_entries(es, o.mode),
        m.chunks == cs,
        m.aead_key == pack_key(o, key),
        m.max_chunks_per_operation >= 1,
        0 <= n <= es.len(),
    ensures
        spec_verify_entries(content, m, n) == Ok::<(), ErrorView>(()),
    decreases n,
{
    if n > 0 {
        lemma_packed_verify_entries(content, key, o, es, datas, cs, raws, t, m, n - 1);
        let i = n - 1;
        assert(entry_written(es[i], datas[i], entry_start(es, i), cs, raws, o));
        let e = m.entries[i];
        assert(e.first_chunk == es[i].first_chunk && e.chunk_count == es[i].chunk_count);
        lemma_packed_between(content, key, o, cs, raws, m, e, verify_label(m, i), e.chunk_count as int);
    }
}

/// What is packed verifies: an archive packed with `key` opens with the same
/// key under any limits that admit it and let one operation decode all of
/// its chunks, and then every chunk decodes and matches its checksum.
pub proof fn lemma_pack_verifies(
    content: Seq<u8>,
    key: Seq<u8>,
    o: PackOptions,
    es: Seq<EntryView>,
    datas: Seq<Seq<u8>>,
    cs: Seq<Chunk>,
    raws: Seq<Seq<u8>>,
    t: u64,
    limits: ArchiveLimits,
)
    requires
        packing_of(content, key, o, es, datas, cs, raws, t),
        packing_within(spec_clamped(limits), content, o, es, cs, t),
        cs.len() <= spec_clamped(limits).max_chunks_per_operation,
    ensures
        spec_open(content, key, limits) is Ok,
        spec_verify(content, spec_open(content, key, limits)->Ok_0) == Ok::<(), ErrorView>(()),
{
    let l = spec_clamped(limits);
    lemma_pack_opens(content, key, o, es, datas, cs, raws, t, limits);
    let m = packed_model(key, o, es, cs, l);
    if l.max_chunks_per_operation >= 1 {
        lemma_packed_verify_entries(content, key, o, es, datas, cs, raws, t, m, es.len() as int);
    } else {
        assert(cs.len() == 0);
        assert forall|i: int| 0 <= i < es.len() implies (#[trigger] m.entries[i]).chunk_count == 0 by {
            assert(entry_written(es[i], datas[i], entry_start(es, i), cs, raws, o));
        }
        lemma_verify_no_chunks(content, m, es.len() as int);
    }
}

/// Verifying entries that own no chunks succeeds.
proof fn lemma_verify_no_chunks(content: Seq<u8>, m: ArchiveModel, n: int)
    requires
        0 <= n <= m.entries.len(),
        forall|i: int| 0 <= i < m.entries.len() ==> (#[trigger] m.entries[i]).chunk_count == 0,
    ensures
        spec_verify_entries(content, m, n) == Ok::<(), ErrorView>(()),
    decreases n,
{
    if n > 0 {
        lemma_verify_no_chunks(content, m, n - 1);
        assert(m.entries[n - 1].chunk_count == 0);
    }
}

/// `content` was packed with `key` and options `o` from files with `paths`
/// and bytes `datas`, and what it holds is within `limits` once they are
/// clamped (see [`packing_within`]).
pub open spec fn packed_within(
    content: Seq<u8>,
    key: Seq<u8>,
    o: PackOptions,
    paths: Seq<Seq<char>>,
    datas: Seq<Seq<u8>>,
    limits: ArchiveLimits,
) -> bool {
    &&& spec_check_files(paths, o.mode) is Ok
    &&& exists|es: Seq<EntryView>, cs: Seq<Chunk>, raws: Seq<Seq<u8>>, t: u64|
        entry_ids(es) == spec_check_files(paths, o.mode)->Ok_0 && packing_of(content, key, o, es, datas, cs, raws, t)
            && packing_within(spec_clamped(limits), content, o, es, cs, t)
}

/// Packed files read back: an archive packed from files opens with the same
/// key under limits that admit it, and reading the path of each file yields
/// that file's bytes.
pub proof fn lemma_packed_files_read_back(
    content: Seq<u8>,
    key: Seq<u8>,
    o: PackOptions,
    paths: Seq<Seq<char>>,
    datas: Seq<Seq<u8>>,
    limits: ArchiveLimits,
)
    requires
        packed_within(content, key, o, paths, datas, limits),
    ensures
        spec_open(content, key, limits) is Ok,
        paths.len() == datas.len(),
        forall|i: int|
            0 <= i < paths.len() ==> spec_read(content, spec_open(content, key, limits)->Ok_0, #[trigger] paths[i])
                == Ok::<Seq<u8>, ErrorView>(datas[i]),
{
    let ids = spec_check_files(paths, o.mode)->Ok_0;
    let (es, cs, raws, t) = choose|es: Seq<EntryView>, cs: Seq<Chunk>, raws: Seq<Seq<u8>>, t: u64|
        entry_ids(es) == ids && packing_of(content, key, o, es, datas, cs, raws, t) && packing_within(
            spec_clamped(limits),
            content,
            o,
            es,
            cs,
            t,
        );
    lemma_pack_opens(content, key, o, es, datas, cs, raws, t, limits);
    lemma_check_files_paths(paths, o.mode);
    assert(entry_ids(es).len() == es.len());
    assert forall|i: int| 0 <= i < paths.len() implies spec_read(
        content,
        spec_open(content, key, limits)->Ok_0,
        #[trigger] paths[i],
    ) == Ok::<Seq<u8>, ErrorView>(datas[i]) by {
        lemma_pack_roundtrip(content, key, o, paths, es, datas, cs, raws, t, limits, i);
    }
}

/// Packed files open as their entries: an archive packed from files opens,
/// under limits that admit it, to one entry per file, in order, whose size
/// is the file's length, whose identifier is the one checking the files
/// gave it, and whose path is the file's normalized path, or none when the
/// mode strips paths, as the archive then says.
pub proof fn lemma_packed_entries(
    content: Seq<u8>,
    key: Seq<u8>,
    o: PackOptions,
    paths: Seq<Seq<char>>,
    datas: Seq<Seq<u8>>,
    limits: ArchiveLimits,
)
    requires
        packed_within(content, key, o, paths, datas, limits),
    ensures
        spec_open(content, key, limits) is Ok,
        ({
            let m = spec_open(content, key, limits)->Ok_0;
            let ids = spec_check_files(paths, o.mode)->Ok_0;
            &&& m.entries.len() == paths.len()
            &&& m.paths_stripped == (o.mode == PackMode::Production)
            &&& m.chunk_size == o.chunk_size
            &&& m.alignment == o.alignment
            &&& forall|i: int|
                0 <= i < paths.len() ==> {
                    &&& (#[trigger] m.entries[i]).original_size == datas[i].len()
                    &&& m.entries[i].path_hash == ids[i].1
                    &&& m.entries[i].path == if o.mode == PackMode::Production {
                        Seq::<char>::empty()
                    } else {
                        ids[i].0
                    }
                    &&& spec_normalize(paths[i]) == Some(ids[i].0)
                }
        }),
{
    let ids = spec_check_files(paths, o.mode)->Ok_0;
    let (es, cs, raws, t) = choose|es: Seq<EntryView>, cs: Seq<Chunk>, raws: Seq<Seq<u8>>, t: u64|
        entry_ids(es) == ids && packing_of(content, key, o, es, datas, cs, raws, t) && packing_within(
            spec_clamped(limits),
            content,
            o,
            es,
            cs,
            t,
        );
    lemma_pack_opens(content, key, o, es, datas, cs, raws, t, limits);
    lemma_check_files_paths(paths, o.mode);
    assert(entry_ids(es).len() == es.len());
    let m = spec_open(content, key, limits)->Ok_0;
    assert forall|i: int| 0 <= i < paths.len() implies {
        &&& (#[trigger] m.entries[i]).original_size == datas[i].len()
        &&& m.entries[i].path_hash == ids[i].1
        &&& m.entries[i].path == if o.mode == PackMode::Production {
            Seq::<char>::empty()
        } else {
            ids[i].0
        }
    } by {
        assert(entry_written(es[i], datas[i], entry_start(es, i), cs, raws, o));
        assert(entry_ids(es)[i] == (es[i].path, es[i].path_hash));
    }
}

} // verus!
