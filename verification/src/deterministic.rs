//! Packing without a random nonce is deterministic: the archive is a
//! function of the key, the options and the files.
use vstd::prelude::*;

use crate::codec::{spec_lz4_compress, spec_xor};
use crate::format::HEADER_SIZE;
use crate::options::{PackOptions, Protection};
use crate::pack::{
    chunk_end, chunk_written, concat_range, entry_ids, entry_start, entry_written, is_packing,
    pack_key, packing_of, spec_check_files, stored_entries, tightly_placed, zeros_between,
};
use crate::toc::{spec_toc_bytes, Chunk, EntryView};

verus! {

/// Chunks `f..f + n` of `r` are non-empty, at most `size` bytes, and all
/// but the last exactly `size` bytes.
pub open spec fn chunked(r: Seq<Seq<u8>>, f: int, n: int, size: int) -> bool {
    &&& 0 <= f
    &&& 0 <= n
    &&& f + n <= r.len()
    &&& forall|g: int| f <= g < f + n ==> 0 < (#[trigger] r[g]).len() <= size
    &&& forall|g: int| f <= g < f + n - 1 ==> (#[trigger] r[g]).len() == size
}

/// `k` full chunks hold `k * size` bytes.
proof fn lemma_full_len(r: Seq<Seq<u8>>, f: int, k: int, size: int)
    requires
        0 <= f,
        0 <= k,
        f + k <= r.len(),
        forall|g: int| f <= g < f + k ==> (#[trigger] r[g]).len() == size,
    ensures
        concat_range(r, f, f + k).len() == k * size,
    decreases k,
{
    if k > 0 {
        lemma_full_len(r, f, k - 1, size);
        assert(r[f + k - 1].len() == size);
        assert(k * size == (k - 1) * size + size) by (nonlinear_arith);
    } else {
        assert(k * size == 0) by (nonlinear_arith)
            requires
                k == 0,
        ;
    }
}

/// Splitting bytes into chunks of a fixed size is unique: two chunkings of
/// the same bytes have as many chunks, and the same chunks in order.
pub proof fn lemma_chunking_unique(
    r1: Seq<Seq<u8>>,
    f1: int,
    n1: int,
    r2: Seq<Seq<u8>>,
    f2: int,
    n2: int,
    size: int,
)
    requires
        size > 0,
        chunked(r1, f1, n1, size),
        chunked(r2, f2, n2, size),
        concat_range(r1, f1, f1 + n1) == concat_range(r2, f2, f2 + n2),
    ensures
        n1 == n2,
        forall|k: int| 0 <= k < n1 ==> #[trigger] r1[f1 + k] == r2[f2 + k],
    decreases n1,
{
    let d = concat_range(r1, f1, f1 + n1);
    if n1 == 0 || n2 == 0 {
        if n1 > 0 {
            assert(d.len() >= r1[f1 + n1 - 1].len());
        }
        if n2 > 0 {
            assert(concat_range(r2, f2, f2 + n2).len() >= r2[f2 + n2 - 1].len());
        }
    } else {
        let l1 = r1[f1 + n1 - 1].len() as int;
        let l2 = r2[f2 + n2 - 1].len() as int;
        let p1 = concat_range(r1, f1, f1 + n1 - 1);
        let p2 = concat_range(r2, f2, f2 + n2 - 1);
        lemma_full_len(r1, f1, n1 - 1, size);
        lemma_full_len(r2, f2, n2 - 1, size);
        assert(d == p1 + r1[f1 + n1 - 1]);
        assert(d == p2 + r2[f2 + n2 - 1]);
        assert(n1 == n2 && l1 == l2) by (nonlinear_arith)
            requires
                (n1 - 1) * size + l1 == (n2 - 1) * size + l2,
                0 < l1 <= size,
                0 < l2 <= size,
                n1 > 0,
                n2 > 0,
        ;
        assert(p1 =~= d.take(d.len() - l1));
        assert(p2 =~= d.take(d.len() - l2));
        assert(r1[f1 + n1 - 1] =~= d.skip(d.len() - l1));
        assert(r2[f2 + n2 - 1] =~= d.skip(d.len() - l2));
        lemma_chunking_unique(r1, f1, n1 - 1, r2, f2, n2 - 1, size);
        assert forall|k: int| 0 <= k < n1 implies #[trigger] r1[f1 + k] == r2[f2 + k] by {
            if k < n1 - 1 {
                assert(r1[f1 + k] == r2[f2 + k]);
            }
        }
    }
}

/// Entries that packed the same files own runs of the same lengths, at the
/// same places, of the same decoded chunks: up to entry `i`, by induction.
proof fn lemma_runs_agree(
    es1: Seq<EntryView>,
    cs1: Seq<Chunk>,
    raws1: Seq<Seq<u8>>,
    es2: Seq<EntryView>,
    cs2: Seq<Chunk>,
    raws2: Seq<Seq<u8>>,
    datas: Seq<Seq<u8>>,
    o: PackOptions,
    i: int,
)
    requires
        o.chunk_size > 0,
        es1.len() == datas.len(),
        es2.len() == datas.len(),
        cs1.len() == raws1.len(),
        cs2.len() == raws2.len(),
        forall|j: int|
            0 <= j < es1.len() ==> entry_written(#[trigger] es1[j], datas[j], entry_start(es1, j), cs1, raws1, o),
        forall|j: int|
            0 <= j < es2.len() ==> entry_written(#[trigger] es2[j], datas[j], entry_start(es2, j), cs2, raws2, o),
        forall|g: int| 0 <= g < raws1.len() ==> 0 < (#[trigger] raws1[g]).len() <= o.chunk_size,
        forall|g: int| 0 <= g < raws2.len() ==> 0 < (#[trigger] raws2[g]).len() <= o.chunk_size,
        0 <= i <= datas.len(),
    ensures
        entry_start(es1, i) == entry_start(es2, i),
        entry_start(es1, i) <= raws1.len(),
        entry_start(es2, i) <= raws2.len(),
        forall|g: int| 0 <= g < entry_start(es1, i) ==> #[trigger] raws1[g] == raws2[g],
        forall|j: int|
            0 <= j < i ==> (#[trigger] es1[j]).first_chunk == es2[j].first_chunk && es1[j].chunk_count
                == es2[j].chunk_count,
    decreases i,
{
    if i > 0 {
        let j = i - 1;
        lemma_runs_agree(es1, cs1, raws1, es2, cs2, raws2, datas, o, j);
        assert(entry_written(es1[j], datas[j], entry_start(es1, j), cs1, raws1, o));
        assert(entry_written(es2[j], datas[j], entry_start(es2, j), cs2, raws2, o));
        let first = es1[j].first_chunk as int;
        let n1 = es1[j].chunk_count as int;
        let n2 = es2[j].chunk_count as int;
        let size = o.chunk_size as int;
        assert(chunked(raws1, first, n1, size));
        assert(chunked(raws2, first, n2, size));
        lemma_chunking_unique(raws1, first, n1, raws2, first, n2, size);
        assert forall|g: int| 0 <= g < entry_start(es1, i) implies #[trigger] raws1[g] == raws2[g] by {
            if g >= first {
                assert(raws1[first + (g - first)] == raws2[first + (g - first)]);
            }
        }
    }
}

/// Chunks that hold the same decoded bytes, stored without a key and placed
/// tightly, are the same records: up to chunk `g`, by induction.
proof fn lemma_chunks_agree(
    c1: Seq<u8>,
    cs1: Seq<Chunk>,
    c2: Seq<u8>,
    cs2: Seq<Chunk>,
    raws: Seq<Seq<u8>>,
    o: PackOptions,
    g: int,
)
    requires
        cs1.len() == raws.len(),
        cs2.len() == raws.len(),
        forall|k: int| 0 <= k < cs1.len() ==> chunk_written(c1, #[trigger] cs1[k], raws[k], None, k, o),
        forall|k: int| 0 <= k < cs2.len() ==> chunk_written(c2, #[trigger] cs2[k], raws[k], None, k, o),
        tightly_placed(c1, cs1, o.alignment),
        tightly_placed(c2, cs2, o.alignment),
        0 <= g <= raws.len(),
    ensures
        forall|k: int| 0 <= k < g ==> #[trigger] cs1[k] == cs2[k],
    decreases g,
{
    if g > 0 {
        let k = g - 1;
        lemma_chunks_agree(c1, cs1, c2, cs2, raws, o, k);
        reveal(tightly_placed);
        assert(chunk_written(c1, cs1[k], raws[k], None, k, o));
        assert(chunk_written(c2, cs2[k], raws[k], None, k, o));
        assert(chunk_end(cs1, k) == chunk_end(cs2, k)) by {
            if k > 0 {
                assert(cs1[k - 1] == cs2[k - 1]);
            }
        }
        let a = cs1[k];
        let b = cs2[k];
        assert(c1.subrange(a.offset as int, a.offset + a.stored_size).len() == a.stored_size);
        assert(c2.subrange(b.offset as int, b.offset + b.stored_size).len() == b.stored_size);
        assert(a == b);
    }
}

/// Two archives with the same chunk records and decoded chunks, stored
/// without a key and placed tightly, agree on every byte from the end of the
/// header to the end of chunk `g - 1`.
proof fn lemma_bytes_agree(c1: Seq<u8>, c2: Seq<u8>, cs: Seq<Chunk>, raws: Seq<Seq<u8>>, o: PackOptions, g: int)
    requires
        cs.len() == raws.len(),
        forall|k: int| 0 <= k < cs.len() ==> chunk_written(c1, #[trigger] cs[k], raws[k], None, k, o),
        forall|k: int| 0 <= k < cs.len() ==> chunk_written(c2, #[trigger] cs[k], raws[k], None, k, o),
        tightly_placed(c1, cs, o.alignment),
        tightly_placed(c2, cs, o.alignment),
        0 <= g <= cs.len(),
    ensures
        forall|x: int| HEADER_SIZE <= x < chunk_end(cs, g) ==> #[trigger] c1[x] == c2[x],
    decreases g,
{
    if g > 0 {
        let k = g - 1;
        lemma_bytes_agree(c1, c2, cs, raws, o, k);
        reveal(tightly_placed);
        reveal(zeros_between);
        let c = cs[k];
        assert(chunk_written(c1, c, raws[k], None, k, o));
        assert(chunk_written(c2, c, raws[k], None, k, o));
        let s1 = c1.subrange(c.offset as int, c.offset + c.stored_size);
        let s2 = c2.subrange(c.offset as int, c.offset + c.stored_size);
        assert(s1 == s2);
        assert(zeros_between(c1, chunk_end(cs, k), c.offset as int));
        assert(zeros_between(c2, chunk_end(cs, k), c.offset as int));
        assert forall|x: int| HEADER_SIZE <= x < chunk_end(cs, g) implies #[trigger] c1[x] == c2[x] by {
            if x >= c.offset {
                assert(c1[x] == s1[x - c.offset]);
                assert(c2[x] == s2[x - c.offset]);
            } else if x >= chunk_end(cs, k) {
                assert(c1[x] == 0);
                assert(c2[x] == 0);
            }
        }
    }
}

/// Packing without a random nonce is deterministic: two archives packed
/// with XOR protection from the same key, options, file paths and file
/// bytes are byte for byte the same.
pub proof fn lemma_pack_deterministic(
    c1: Seq<u8>,
    c2: Seq<u8>,
    key: Seq<u8>,
    o: PackOptions,
    paths: Seq<Seq<char>>,
    datas: Seq<Seq<u8>>,
)
    requires
        o.protection == Protection::Xor,
        is_packing(c1, key, o, paths, datas),
        is_packing(c2, key, o, paths, datas),
    ensures
        c1 == c2,
{
    let ids = spec_check_files(paths, o.mode)->Ok_0;
    let (es1, cs1, raws1, t1) = choose|es: Seq<EntryView>, cs: Seq<Chunk>, raws: Seq<Seq<u8>>, t: u64|
        entry_ids(es) == ids && packing_of(c1, key, o, es, datas, cs, raws, t);
    let (es2, cs2, raws2, t2) = choose|es: Seq<EntryView>, cs: Seq<Chunk>, raws: Seq<Seq<u8>>, t: u64|
        entry_ids(es) == ids && packing_of(c2, key, o, es, datas, cs, raws, t);
    assert(pack_key(o, key) is None);
    assert(o.chunk_size > 0);
    assert forall|g: int| 0 <= g < raws1.len() implies 0 < (#[trigger] raws1[g]).len() <= o.chunk_size by {
        assert(chunk_written(c1, cs1[g], raws1[g], None, g, o));
    }
    assert forall|g: int| 0 <= g < raws2.len() implies 0 < (#[trigger] raws2[g]).len() <= o.chunk_size by {
        assert(chunk_written(c2, cs2[g], raws2[g], None, g, o));
    }
    let n = datas.len() as int;
    lemma_runs_agree(es1, cs1, raws1, es2, cs2, raws2, datas, o, n);
    assert(raws1 =~= raws2);
    let raws = raws1;
    lemma_chunks_agree(c1, cs1, c2, cs2, raws, o, raws.len() as int);
    assert(cs1 =~= cs2);
    let cs = cs1;
    assert forall|j: int| 0 <= j < n implies #[trigger] es1[j] == es2[j] by {
        assert(entry_ids(es1)[j] == entry_ids(es2)[j]);
        assert(entry_written(es1[j], datas[j], entry_start(es1, j), cs, raws, o));
        assert(entry_written(es2[j], datas[j], entry_start(es2, j), cs, raws, o));
    }
    assert(es1 =~= es2);
    let es = es1;
    assert(t1 == t2);
    let t = t1;
    let toc_plain = spec_toc_bytes(stored_entries(es, o.mode), cs);
    assert(c1.skip(t as int) == spec_xor(spec_lz4_compress(toc_plain), key));
    assert(c2.skip(t as int) == spec_xor(spec_lz4_compress(toc_plain), key));
    assert(c1.len() == c2.len()) by {
        assert(c1.skip(t as int).len() == c1.len() - t);
        assert(c2.skip(t as int).len() == c2.len() - t);
    }
    assert(c1.take(HEADER_SIZE as int) == c2.take(HEADER_SIZE as int));
    lemma_bytes_agree(c1, c2, cs, raws, o, cs.len() as int);
    let e = chunk_end(cs, cs.len() as int);
    reveal(zeros_between);
    assert(zeros_between(c1, e, t as int));
    assert(zeros_between(c2, e, t as int));
    assert forall|x: int| 0 <= x < c1.len() implies #[trigger] c1[x] == c2[x] by {
        if x < HEADER_SIZE {
            assert(c1.take(HEADER_SIZE as int)[x] == c2.take(HEADER_SIZE as int)[x]);
        } else if x < e {
        } else if x < t {
            assert(c1[x] == 0);
            assert(c2[x] == 0);
        } else {
            assert(c1.skip(t as int)[x - t] == c2.skip(t as int)[x - t]);
        }
    }
    assert(c1 =~= c2);
}

/// The number of chunks files with bytes `datas` are stored in, with
/// chunks of `size` bytes: each file takes its length divided by `size`,
/// rounded up.
pub open spec fn chunk_total(datas: Seq<Seq<u8>>, size: nat) -> nat
    decreases datas.len(),
{
    if datas.len() == 0 {
        0
    } else {
        chunk_total(datas.drop_last(), size) + (datas.last().len() + size - 1) as nat / size
    }
}

/// Bytes split into chunks of `size` bytes take their length divided by
/// `size`, rounded up, chunks.
proof fn lemma_chunking_count(r: Seq<Seq<u8>>, f: int, n: int, size: int)
    requires
        size > 0,
        chunked(r, f, n, size),
    ensures
        n == (concat_range(r, f, f + n).len() + size - 1) / size,
{
    let len = concat_range(r, f, f + n).len() as int;
    if n == 0 {
        assert((len + size - 1) / size == 0) by (nonlinear_arith)
            requires
                len == 0,
                size > 0,
        ;
    } else {
        lemma_full_len(r, f, n - 1, size);
        let l = r[f + n - 1].len() as int;
        assert(len == (n - 1) * size + l);
        assert((len + size - 1) / size == n) by (nonlinear_arith)
            requires
                len == (n - 1) * size + l,
                0 < l <= size,
                n > 0,
        ;
    }
}

/// The entries of a packing own `chunk_total` of their files' chunks, up
/// to entry `i`.
pub proof fn lemma_entry_chunks_total(
    content: Seq<u8>,
    key: Seq<u8>,
    o: PackOptions,
    es: Seq<EntryView>,
    datas: Seq<Seq<u8>>,
    cs: Seq<Chunk>,
    raws: Seq<Seq<u8>>,
    t: u64,
    i: int,
)
    requires
        packing_of(content, key, o, es, datas, cs, raws, t),
        0 <= i <= es.len(),
    ensures
        entry_start(es, i) == chunk_total(datas.take(i), o.chunk_size as nat),
    decreases i,
{
    if i > 0 {
        lemma_entry_chunks_total(content, key, o, es, datas, cs, raws, t, i - 1);
        let j = i - 1;
        assert(entry_written(es[j], datas[j], entry_start(es, j), cs, raws, o));
        let first = es[j].first_chunk as int;
        let n = es[j].chunk_count as int;
        assert forall|g: int| first <= g < first + n implies 0 < (#[trigger] raws[g]).len() <= o.chunk_size by {
            assert(chunk_written(content, cs[g], raws[g], pack_key(o, key), g, o));
        }
        assert(chunked(raws, first, n, o.chunk_size as int));
        lemma_chunking_count(raws, first, n, o.chunk_size as int);
        assert(datas.take(i).drop_last() =~= datas.take(j));
        assert(datas.take(i).last() == datas[j]);
    }
}

} // verus!
