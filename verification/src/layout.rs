use vstd::prelude::*;

use crate::crypto::AEAD_OVERHEAD;
use crate::error::{Error, Result};
use crate::format::HEADER_SIZE;
use crate::toc::{Chunk, Entry, EntryView};

verus! {

/// The size of a chunk's stored payload before sealing: the stored size,
/// less the nonce and tag when the archive is sealed.
pub open spec fn spec_plain_size(c: Chunk, aead: bool) -> int {
    if aead {
        c.stored_size - AEAD_OVERHEAD
    } else {
        c.stored_size as int
    }
}

/// The checks one chunk record passes, given where the previous chunk ended.
pub open spec fn spec_check_chunk(
    c: Chunk,
    prev_end: int,
    toc_offset: u64,
    chunk_size: u32,
    alignment: u32,
    aead: bool,
) -> Result<()> {
    let plain = spec_plain_size(c, aead);
    if c.original_size == 0 || c.original_size > chunk_size {
        Err(Error::Corrupt("invalid chunk original size"))
    } else if plain <= 0 || plain > c.original_size {
        Err(Error::Corrupt("invalid stored chunk size"))
    } else if c.compressed && plain >= c.original_size {
        Err(Error::Corrupt("non-beneficial compressed chunk"))
    } else if !c.compressed && plain != c.original_size {
        Err(Error::Corrupt("raw chunk size mismatch"))
    } else if c.offset < HEADER_SIZE || alignment == 0 || c.offset % (alignment as u64) != 0 {
        Err(Error::Corrupt("invalid chunk alignment"))
    } else if c.offset < prev_end {
        Err(Error::Corrupt("overlapping or out-of-order chunks"))
    } else if c.offset + c.stored_size > u64::MAX {
        Err(Error::Corrupt("chunk range overflow"))
    } else if c.offset + c.stored_size > toc_offset {
        Err(Error::Corrupt("chunk outside payload region"))
    } else {
        Ok(())
    }
}

/// The first `n` chunk checks: on success, where the last checked chunk ends
/// and the total decoded size so far.
pub open spec fn spec_check_chunks(
    cs: Seq<Chunk>,
    n: nat,
    toc_offset: u64,
    chunk_size: u32,
    alignment: u32,
    aead: bool,
    max_total: u64,
) -> Result<(int, int)>
    decreases n,
{
    if n == 0 {
        Ok((HEADER_SIZE as int, 0))
    } else {
        match spec_check_chunks(cs, (n - 1) as nat, toc_offset, chunk_size, alignment, aead, max_total) {
            Err(e) => Err(e),
            Ok((prev_end, total)) => {
                let c = cs[n - 1];
                match spec_check_chunk(c, prev_end, toc_offset, chunk_size, alignment, aead) {
                    Err(e) => Err(e),
                    Ok(()) => if total + c.original_size > u64::MAX {
                        Err(Error::TooLarge("total decompressed size"))
                    } else if total + c.original_size > max_total {
                        Err(Error::ArchiveTooLarge)
                    } else {
                        Ok((c.offset + c.stored_size, total + c.original_size))
                    },
                }
            },
        }
    }
}

/// Marking the first `j` of an entry's `count` chunks (from `first`) as owned,
/// checking on the way that none is owned already, that the running sums of
/// their sizes fit in 64 bits, and that all but the last are full.
pub open spec fn spec_claim(
    cs: Seq<Chunk>,
    used: Seq<bool>,
    first: int,
    count: int,
    chunk_size: u32,
    j: nat,
) -> Result<Seq<bool>>
    decreases j,
{
    if j == 0 {
        Ok(used)
    } else {
        match spec_claim(cs, used, first, count, chunk_size, (j - 1) as nat) {
            Err(e) => Err(e),
            Ok(u) => {
                let g = first + j - 1;
                if u[g] {
                    Err(Error::Corrupt("chunk is referenced by multiple entries"))
                } else if sum_original(cs, first, g + 1) > u64::MAX {
                    Err(Error::Corrupt("entry raw size overflow"))
                } else if sum_stored(cs, first, g + 1) > u64::MAX {
                    Err(Error::Corrupt("entry stored size overflow"))
                } else if j != count && cs[g].original_size != chunk_size {
                    Err(Error::Corrupt("non-final chunk has unexpected size"))
                } else {
                    Ok(u.update(g, true))
                }
            },
        }
    }
}

/// Sum of the decoded sizes of chunks `lo..hi`.
pub open spec fn sum_original(cs: Seq<Chunk>, lo: int, hi: int) -> int
    decreases hi - lo,
{
    if hi <= lo {
        0
    } else {
        sum_original(cs, lo, hi - 1) + cs[hi - 1].original_size
    }
}

/// Sum of the stored sizes of chunks `lo..hi`.
pub open spec fn sum_stored(cs: Seq<Chunk>, lo: int, hi: int) -> int
    decreases hi - lo,
{
    if hi <= lo {
        0
    } else {
        sum_stored(cs, lo, hi - 1) + cs[hi - 1].stored_size
    }
}

/// The checks one entry passes: its chunks lie inside the table, belong to no
/// other entry, all but the last are full, and they add up to its sizes.
pub open spec fn spec_check_entry(e: EntryView, cs: Seq<Chunk>, used: Seq<bool>, chunk_size: u32) -> Result<
    Seq<bool>,
> {
    let first = e.first_chunk as int;
    let count = e.chunk_count as int;
    if first + count > cs.len() {
        Err(Error::Corrupt("entry chunk range outside TOC"))
    } else if e.original_size == 0 && (count != 0 || e.stored_size != 0) {
        Err(Error::Corrupt("empty entry has chunks"))
    } else if e.original_size != 0 && count == 0 {
        Err(Error::Corrupt("non-empty entry has no chunks"))
    } else {
        match spec_claim(cs, used, first, count, chunk_size, count as nat) {
            Err(e) => Err(e),
            Ok(u) => if sum_original(cs, first, first + count) != e.original_size {
                Err(Error::Corrupt("entry original size mismatch"))
            } else if sum_stored(cs, first, first + count) != e.stored_size {
                Err(Error::Corrupt("entry stored size mismatch"))
            } else {
                Ok(u)
            },
        }
    }
}

/// The first `n` entry checks, starting with no chunk owned.
pub open spec fn spec_check_entries(es: Seq<EntryView>, cs: Seq<Chunk>, chunk_size: u32, n: nat) -> Result<
    Seq<bool>,
>
    decreases n,
{
    if n == 0 {
        Ok(Seq::new(cs.len(), |i: int| false))
    } else {
        match spec_check_entries(es, cs, chunk_size, (n - 1) as nat) {
            Err(e) => Err(e),
            Ok(u) => spec_check_entry(es[n - 1], cs, u, chunk_size),
        }
    }
}

/// The layout rules of a decoded table of contents: every chunk is well
/// formed, aligned, in order and before the TOC, the decoded total stays
/// within `max_total`, and the entries own every chunk exactly once.
pub open spec fn spec_validate_layout(
    es: Seq<EntryView>,
    cs: Seq<Chunk>,
    toc_offset: u64,
    chunk_size: u32,
    alignment: u32,
    aead: bool,
    max_total: u64,
) -> Result<()> {
    match spec_check_chunks(cs, cs.len(), toc_offset, chunk_size, alignment, aead, max_total) {
        Err(e) => Err(e),
        Ok(_) => match spec_check_entries(es, cs, chunk_size, es.len()) {
            Err(e) => Err(e),
            Ok(u) => if u.contains(false) {
                Err(Error::Corrupt("orphan chunk in TOC"))
            } else {
                Ok(())
            },
        },
    }
}

/// Checked chunks end where the last one ends and decode to their summed
/// sizes, within `max_total`.
pub proof fn lemma_check_chunks_total(
    cs: Seq<Chunk>,
    n: nat,
    toc_offset: u64,
    chunk_size: u32,
    alignment: u32,
    aead: bool,
    max_total: u64,
)
    requires
        n <= cs.len(),
        spec_check_chunks(cs, n, toc_offset, chunk_size, alignment, aead, max_total) is Ok,
    ensures
        spec_check_chunks(cs, n, toc_offset, chunk_size, alignment, aead, max_total)->Ok_0.1 == sum_original(
            cs,
            0,
            n as int,
        ),
        sum_original(cs, 0, n as int) <= max_total,
    decreases n,
{
    if n > 0 {
        lemma_check_chunks_total(cs, (n - 1) as nat, toc_offset, chunk_size, alignment, aead, max_total);
    }
}

/// Sums of decoded sizes add up over adjacent ranges.
pub proof fn lemma_sum_original_split(cs: Seq<Chunk>, lo: int, mid: int, hi: int)
    requires
        lo <= mid <= hi,
    ensures
        sum_original(cs, lo, hi) == sum_original(cs, lo, mid) + sum_original(cs, mid, hi),
        sum_original(cs, mid, hi) >= 0,
    decreases hi - mid,
{
    if mid < hi {
        lemma_sum_original_split(cs, lo, mid, hi - 1);
    }
}

/// Before the last chunk of an entry, every chunk is full, so the first `k`
/// chunks hold `k` full chunks of bytes.
pub proof fn lemma_full_prefix(e: EntryView, cs: Seq<Chunk>, chunk_size: u32, k: int)
    requires
        entry_fits(e, cs, chunk_size),
        0 <= k < e.chunk_count,
    ensures
        sum_original(cs, e.first_chunk as int, e.first_chunk + k) == k * chunk_size,
    decreases k,
{
    if k > 0 {
        lemma_full_prefix(e, cs, chunk_size, k - 1);
        let first = e.first_chunk as int;
        assert(cs[first + k - 1].original_size == chunk_size);
        assert(sum_original(cs, first, first + k) == sum_original(cs, first, first + k - 1) + cs[first
            + k - 1].original_size);
        assert(k * chunk_size == (k - 1) * chunk_size + chunk_size) by (nonlinear_arith);
    } else {
        assert(k * chunk_size == 0) by (nonlinear_arith)
            requires
                k == 0,
        ;
    }
}

/// An entry's chunks cover its bytes: at most `count` full chunks of them.
pub proof fn lemma_entry_span(e: EntryView, cs: Seq<Chunk>, chunk_size: u32)
    requires
        entry_fits(e, cs, chunk_size),
        forall|g: int| 0 <= g < cs.len() ==> chunk_fits(#[trigger] cs[g], chunk_size),
        e.chunk_count > 0,
    ensures
        e.original_size > (e.chunk_count - 1) * chunk_size,
        e.original_size <= e.chunk_count * chunk_size,
{
    let first = e.first_chunk as int;
    let count = e.chunk_count as int;
    lemma_full_prefix(e, cs, chunk_size, count - 1);
    assert(chunk_fits(cs[first + count - 1], chunk_size));
    assert(count * chunk_size == (count - 1) * chunk_size + chunk_size) by (nonlinear_arith);
}

/// The chunks that hold bytes `offset..end` of an entry: from chunk
/// `offset / chunk_size` up to and including chunk `(end - 1) / chunk_size`,
/// all inside the entry; the chunks before them hold full chunks of bytes,
/// and up to the last of them the entry reaches at least `end`.
pub proof fn lemma_range_chunks(e: EntryView, cs: Seq<Chunk>, chunk_size: u32, offset: int, end: int)
    requires
        entry_fits(e, cs, chunk_size),
        forall|g: int| 0 <= g < cs.len() ==> chunk_fits(#[trigger] cs[g], chunk_size),
        chunk_size > 0,
        0 <= offset < end <= e.original_size,
    ensures
        offset / (chunk_size as int) < (end - 1) / (chunk_size as int) + 1 <= e.chunk_count,
        sum_original(cs, e.first_chunk as int, e.first_chunk + offset / (chunk_size as int)) == (offset
            / (chunk_size as int)) * chunk_size,
        (offset / (chunk_size as int)) * chunk_size <= offset < (offset / (chunk_size as int)) * chunk_size
            + chunk_size,
        sum_original(cs, e.first_chunk as int, e.first_chunk + (end - 1) / (chunk_size as int) + 1) >= end,
{
    let d = chunk_size as int;
    let first = e.first_chunk as int;
    let count = e.chunk_count as int;
    let lo = offset / d;
    let q = (end - 1) / d;
    if count == 0 {
        assert(sum_original(cs, first, first + count) == 0);
    }
    lemma_entry_span(e, cs, chunk_size);
    assert(lo * d <= offset < lo * d + d) by (nonlinear_arith)
        requires
            d > 0,
            lo == offset / d,
            offset >= 0,
    ;
    assert(q * d <= end - 1 < q * d + d) by (nonlinear_arith)
        requires
            d > 0,
            q == (end - 1) / d,
            end - 1 >= 0,
    ;
    assert(lo <= q) by (nonlinear_arith)
        requires
            d > 0,
            lo == offset / d,
            q == (end - 1) / d,
            0 <= offset <= end - 1,
    ;
    assert(q < count) by (nonlinear_arith)
        requires
            d > 0,
            q * d <= end - 1,
            end - 1 < count * d,
    ;
    lemma_full_prefix(e, cs, chunk_size, lo);
    if q + 1 < count {
        lemma_full_prefix(e, cs, chunk_size, q + 1);
        assert((q + 1) * d == q * d + d) by (nonlinear_arith);
    }
}

/// What a checked chunk record guarantees to readers: it decodes to between
/// one byte and a full chunk, and its stored payload is at most the nonce and
/// tag larger than that.
pub open spec fn chunk_fits(c: Chunk, chunk_size: u32) -> bool {
    &&& 0 < c.original_size <= chunk_size
    &&& c.stored_size <= c.original_size + AEAD_OVERHEAD
}

/// What a checked entry guarantees to readers: its chunks lie inside the
/// table, add up to its size, and all but the last are full.
pub open spec fn entry_fits(e: EntryView, cs: Seq<Chunk>, chunk_size: u32) -> bool {
    &&& e.first_chunk + e.chunk_count <= cs.len()
    &&& sum_original(cs, e.first_chunk as int, e.first_chunk + e.chunk_count) == e.original_size
    &&& forall|g: int|
        e.first_chunk <= g < e.first_chunk + e.chunk_count - 1 ==> (#[trigger] cs[g]).original_size
            == chunk_size
}

proof fn lemma_check_chunks_fit(
    cs: Seq<Chunk>,
    n: nat,
    toc_offset: u64,
    chunk_size: u32,
    alignment: u32,
    aead: bool,
    max_total: u64,
)
    requires
        n <= cs.len(),
        spec_check_chunks(cs, n, toc_offset, chunk_size, alignment, aead, max_total) is Ok,
    ensures
        forall|g: int| 0 <= g < n ==> chunk_fits(#[trigger] cs[g], chunk_size),
    decreases n,
{
    if n > 0 {
        lemma_check_chunks_fit(cs, (n - 1) as nat, toc_offset, chunk_size, alignment, aead, max_total);
    }
}

proof fn lemma_claim_full(cs: Seq<Chunk>, used: Seq<bool>, first: int, count: int, chunk_size: u32, j: nat)
    requires
        j <= count,
        spec_claim(cs, used, first, count, chunk_size, j) is Ok,
    ensures
        forall|g: int| first <= g < first + j && g != first + count - 1 ==> (#[trigger] cs[g]).original_size
            == chunk_size,
    decreases j,
{
    if j > 0 {
        lemma_claim_full(cs, used, first, count, chunk_size, (j - 1) as nat);
    }
}

proof fn lemma_check_entries_fit(es: Seq<EntryView>, cs: Seq<Chunk>, chunk_size: u32, n: nat)
    requires
        n <= es.len(),
        spec_check_entries(es, cs, chunk_size, n) is Ok,
    ensures
        forall|i: int| 0 <= i < n ==> entry_fits(#[trigger] es[i], cs, chunk_size),
    decreases n,
{
    if n > 0 {
        lemma_check_entries_fit(es, cs, chunk_size, (n - 1) as nat);
        let u = spec_check_entries(es, cs, chunk_size, (n - 1) as nat)->Ok_0;
        let e = es[n - 1];
        lemma_claim_full(cs, u, e.first_chunk as int, e.chunk_count as int, chunk_size, e.chunk_count as nat);
    }
}

/// A table that passes the layout checks has chunks and entries that fit.
pub proof fn lemma_layout_fits(
    es: Seq<EntryView>,
    cs: Seq<Chunk>,
    toc_offset: u64,
    chunk_size: u32,
    alignment: u32,
    aead: bool,
    max_total: u64,
)
    requires
        spec_validate_layout(es, cs, toc_offset, chunk_size, alignment, aead, max_total) is Ok,
    ensures
        forall|g: int| 0 <= g < cs.len() ==> chunk_fits(#[trigger] cs[g], chunk_size),
        forall|i: int| 0 <= i < es.len() ==> entry_fits(#[trigger] es[i], cs, chunk_size),
{
    lemma_check_chunks_fit(cs, cs.len(), toc_offset, chunk_size, alignment, aead, max_total);
    lemma_check_entries_fit(es, cs, chunk_size, es.len());
}

fn check_chunk(
    c: Chunk,
    prev_end: u64,
    toc_offset: u64,
    chunk_size: u32,
    alignment: u32,
    aead: bool,
) -> (r: Result<()>)
    ensures
        r == spec_check_chunk(c, prev_end as int, toc_offset, chunk_size, alignment, aead),
{
    if c.original_size == 0 || c.original_size > chunk_size as u64 {
        return Err(Error::Corrupt("invalid chunk original size"));
    }
    let plain_ok = if aead {
        c.stored_size > AEAD_OVERHEAD && c.stored_size - AEAD_OVERHEAD <= c.original_size
    } else {
        c.stored_size > 0 && c.stored_size <= c.original_size
    };
    if !plain_ok {
        return Err(Error::Corrupt("invalid stored chunk size"));
    }
    let plain = if aead {
        c.stored_size - AEAD_OVERHEAD
    } else {
        c.stored_size
    };
    if c.compressed && plain >= c.original_size {
        return Err(Error::Corrupt("non-beneficial compressed chunk"));
    }
    if !c.compressed && plain != c.original_size {
        return Err(Error::Corrupt("raw chunk size mismatch"));
    }
    if c.offset < HEADER_SIZE || alignment == 0 || c.offset % (alignment as u64) != 0 {
        return Err(Error::Corrupt("invalid chunk alignment"));
    }
    if c.offset < prev_end {
        return Err(Error::Corrupt("overlapping or out-of-order chunks"));
    }
    if c.offset > u64::MAX - c.stored_size {
        return Err(Error::Corrupt("chunk range overflow"));
    }
    if c.offset + c.stored_size > toc_offset {
        return Err(Error::Corrupt("chunk outside payload region"));
    }
    Ok(())
}

proof fn lemma_check_chunks_err(
    cs: Seq<Chunk>,
    i: nat,
    n: nat,
    toc_offset: u64,
    chunk_size: u32,
    alignment: u32,
    aead: bool,
    max_total: u64,
)
    requires
        i <= n,
        spec_check_chunks(cs, i, toc_offset, chunk_size, alignment, aead, max_total) is Err,
    ensures
        spec_check_chunks(cs, n, toc_offset, chunk_size, alignment, aead, max_total)
            == spec_check_chunks(cs, i, toc_offset, chunk_size, alignment, aead, max_total),
    decreases n - i,
{
    if i < n {
        lemma_check_chunks_err(cs, i, (n - 1) as nat, toc_offset, chunk_size, alignment, aead, max_total);
    }
}

proof fn lemma_check_entries_err(es: Seq<EntryView>, cs: Seq<Chunk>, chunk_size: u32, i: nat, n: nat)
    requires
        i <= n,
        spec_check_entries(es, cs, chunk_size, i) is Err,
    ensures
        spec_check_entries(es, cs, chunk_size, n) == spec_check_entries(es, cs, chunk_size, i),
    decreases n - i,
{
    if i < n {
        lemma_check_entries_err(es, cs, chunk_size, i, (n - 1) as nat);
    }
}

proof fn lemma_claim_err(
    cs: Seq<Chunk>,
    used: Seq<bool>,
    first: int,
    count: int,
    chunk_size: u32,
    i: nat,
    n: nat,
)
    requires
        i <= n,
        spec_claim(cs, used, first, count, chunk_size, i) is Err,
    ensures
        spec_claim(cs, used, first, count, chunk_size, n) == spec_claim(
            cs,
            used,
            first,
            count,
            chunk_size,
            i,
        ),
    decreases n - i,
{
    if i < n {
        lemma_claim_err(cs, used, first, count, chunk_size, i, (n - 1) as nat);
    }
}

proof fn lemma_claim_len(
    cs: Seq<Chunk>,
    used: Seq<bool>,
    first: int,
    count: int,
    chunk_size: u32,
    j: nat,
)
    requires
        0 <= first,
        first + j <= used.len(),
    ensures
        spec_claim(cs, used, first, count, chunk_size, j) matches Ok(u) ==> u.len() == used.len(),
    decreases j,
{
    if j > 0 {
        lemma_claim_len(cs, used, first, count, chunk_size, (j - 1) as nat);
    }
}

proof fn lemma_check_entries_len(es: Seq<EntryView>, cs: Seq<Chunk>, chunk_size: u32, n: nat)
    ensures
        spec_check_entries(es, cs, chunk_size, n) matches Ok(u) ==> u.len() == cs.len(),
    decreases n,
{
    if n > 0 {
        lemma_check_entries_len(es, cs, chunk_size, (n - 1) as nat);
        if let Ok(u) = spec_check_entries(es, cs, chunk_size, (n - 1) as nat) {
            let e = es[n - 1];
            if e.first_chunk + e.chunk_count <= cs.len() && u.len() == cs.len() {
            lemma_claim_len(cs, u, e.first_chunk as int, e.chunk_count as int, chunk_size, e.chunk_count as nat);
            }
        }
    }
}

/// Checks one entry against the chunk table and marks its chunks as owned.
fn check_entry(e: &Entry, chunks: &Vec<Chunk>, used: &mut Vec<bool>, chunk_size: u32)
    -> (r: Result<()>)
    requires
        old(used)@.len() == chunks@.len(),
    ensures
        match spec_check_entry(e@, chunks@, old(used)@, chunk_size) {
            Ok(u) => r is Ok && final(used)@ == u,
            Err(x) => r == Err::<(), Error>(x),
        },
{
    let ghost cs = chunks@;
    let ghost u0 = used@;
    let first = e.first_chunk as u64;
    let count = e.chunk_count as u64;
    let n = chunks.len();
    if first + count > n as u64 {
        return Err(Error::Corrupt("entry chunk range outside TOC"));
    }
    if e.original_size == 0 && (count != 0 || e.stored_size != 0) {
        return Err(Error::Corrupt("empty entry has chunks"));
    }
    if e.original_size != 0 && count == 0 {
        return Err(Error::Corrupt("non-empty entry has no chunks"));
    }
    let first = first as usize;
    let count = count as usize;
    let mut raw: u64 = 0;
    let mut stored: u64 = 0;
    let mut j: usize = 0;
    while j < count
        invariant
            cs == chunks@,
            n == cs.len(),
            first + count <= n,
            j <= count,
            count <= u32::MAX,
            count == e.chunk_count,
            first == e.first_chunk,
            !(e.original_size == 0 && (count != 0 || e.stored_size != 0)),
            !(e.original_size != 0 && count == 0),
            used@.len() == n,
            u0.len() == n,
            u0 == old(used)@,
            spec_claim(cs, u0, first as int, count as int, chunk_size, j as nat) == Ok::<
                Seq<bool>,
                Error,
            >(used@),
            raw == sum_original(cs, first as int, first + j),
            stored == sum_stored(cs, first as int, first + j),
        decreases count - j,
    {
        let g = first + j;
        if used[g] {
            proof {
                lemma_claim_err(cs, u0, first as int, count as int, chunk_size, (j + 1) as nat, count as nat);
            }
            return Err(Error::Corrupt("chunk is referenced by multiple entries"));
        }
        let c = chunks[g];
        if c.original_size > u64::MAX - raw {
            proof {
                lemma_claim_err(cs, u0, first as int, count as int, chunk_size, (j + 1) as nat, count as nat);
            }
            return Err(Error::Corrupt("entry raw size overflow"));
        }
        if c.stored_size > u64::MAX - stored {
            proof {
                lemma_claim_err(cs, u0, first as int, count as int, chunk_size, (j + 1) as nat, count as nat);
            }
            return Err(Error::Corrupt("entry stored size overflow"));
        }
        if j + 1 != count && c.original_size != chunk_size as u64 {
            proof {
                lemma_claim_err(cs, u0, first as int, count as int, chunk_size, (j + 1) as nat, count as nat);
            }
            return Err(Error::Corrupt("non-final chunk has unexpected size"));
        }
        proof {
            lemma_claim_len(cs, u0, first as int, count as int, chunk_size, (j + 1) as nat);
        }
        used.set(g, true);
        raw = raw + c.original_size;
        stored = stored + c.stored_size;
        j = j + 1;
    }
    if raw != e.original_size {
        return Err(Error::Corrupt("entry original size mismatch"));
    }
    if stored != e.stored_size {
        return Err(Error::Corrupt("entry stored size mismatch"));
    }
    Ok(())
}

/// Checks the layout of a decoded table of contents; see
/// [`spec_validate_layout`] for the rules and their order.
pub fn validate_layout(
    entries: &Vec<Entry>,
    chunks: &Vec<Chunk>,
    toc_offset: u64,
    chunk_size: u32,
    alignment: u32,
    aead: bool,
    max_total_decompressed_bytes: u64,
) -> (r: Result<()>)
    ensures
        r == spec_validate_layout(
            entries@.map_values(|e: Entry| e@),
            chunks@,
            toc_offset,
            chunk_size,
            alignment,
            aead,
            max_total_decompressed_bytes,
        ),
{
    let ghost es = entries@.map_values(|e: Entry| e@);
    let ghost cs = chunks@;
    let n = chunks.len();
    let mut prev_end: u64 = HEADER_SIZE;
    let mut total: u64 = 0;
    let mut i: usize = 0;
    while i < n
        invariant
            cs == chunks@,
            n == cs.len(),
            i <= n,
            spec_check_chunks(
                cs,
                i as nat,
                toc_offset,
                chunk_size,
                alignment,
                aead,
                max_total_decompressed_bytes,
            ) == Ok::<(int, int), Error>((prev_end as int, total as int)),
            total <= max_total_decompressed_bytes,
        decreases n - i,
    {
        let c = chunks[i];
        match check_chunk(c, prev_end, toc_offset, chunk_size, alignment, aead) {
            Ok(()) => {},
            Err(e) => {
                proof {
                    lemma_check_chunks_err(
                        cs,
                        (i + 1) as nat,
                        n as nat,
                        toc_offset,
                        chunk_size,
                        alignment,
                        aead,
                        max_total_decompressed_bytes,
                    );
                }
                return Err(e);
            },
        }
        if c.original_size > u64::MAX - total {
            proof {
                lemma_check_chunks_err(
                    cs,
                    (i + 1) as nat,
                    n as nat,
                    toc_offset,
                    chunk_size,
                    alignment,
                    aead,
                    max_total_decompressed_bytes,
                );
            }
            return Err(Error::TooLarge("total decompressed size"));
        }
        if total + c.original_size > max_total_decompressed_bytes {
            proof {
                lemma_check_chunks_err(
                    cs,
                    (i + 1) as nat,
                    n as nat,
                    toc_offset,
                    chunk_size,
                    alignment,
                    aead,
                    max_total_decompressed_bytes,
                );
            }
            return Err(Error::ArchiveTooLarge);
        }
        total = total + c.original_size;
        prev_end = c.offset + c.stored_size;
        i = i + 1;
    }
    let mut used: Vec<bool> = Vec::new();
    let mut k: usize = 0;
    while k < n
        invariant
            k <= n,
            used@ == Seq::new(k as nat, |i: int| false),
        decreases n - k,
    {
        used.push(false);
        k = k + 1;
        assert(used@ =~= Seq::new(k as nat, |i: int| false));
    }
    let en = entries.len();
    let mut i: usize = 0;
    while i < en
        invariant
            cs == chunks@,
            n == cs.len(),
            en == entries@.len(),
            es == entries@.map_values(|e: Entry| e@),
            i <= en,
            spec_check_chunks(
                cs,
                n as nat,
                toc_offset,
                chunk_size,
                alignment,
                aead,
                max_total_decompressed_bytes,
            ) is Ok,
            spec_check_entries(es, cs, chunk_size, i as nat) == Ok::<Seq<bool>, Error>(used@),
            used@.len() == n,
        decreases en - i,
    {
        assert(entries@[i as int]@ == es[i as int]);
        match check_entry(&entries[i], chunks, &mut used, chunk_size) {
            Ok(()) => {},
            Err(e) => {
                proof {
                    lemma_check_entries_err(es, cs, chunk_size, (i + 1) as nat, en as nat);
                }
                return Err(e);
            },
        }
        i = i + 1;
        proof {
            lemma_check_entries_len(es, cs, chunk_size, i as nat);
        }
    }
    let mut g: usize = 0;
    while g < n
        invariant
            cs == chunks@,
            es == entries@.map_values(|e: Entry| e@),
            en == entries@.len(),
            spec_check_chunks(
                cs,
                n as nat,
                toc_offset,
                chunk_size,
                alignment,
                aead,
                max_total_decompressed_bytes,
            ) is Ok,
            spec_check_entries(es, cs, chunk_size, en as nat) == Ok::<Seq<bool>, Error>(used@),
            es.len() == en,
            n == cs.len(),
            g <= n,
            used@.len() == n,
            forall|k: int| 0 <= k < g ==> used@[k],
        decreases n - g,
    {
        if !used[g] {
            assert(used@.contains(false)) by {
                assert(used@[g as int] == false);
            }
            return Err(Error::Corrupt("orphan chunk in TOC"));
        }
        g = g + 1;
    }
    assert(!used@.contains(false));
    Ok(())
}

} // verus!
