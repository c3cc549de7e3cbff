use vstd::prelude::*;

use crate::error::{result_view, Error, ErrorView, Result};
use crate::toc::Entry;

verus! {

broadcast use vstd::seq_lib::group_to_multiset_ensures;

/// Lexicographic order on index slots: by identifier, then by entry number.
pub open spec fn lex_lt(a: (u64, usize), b: (u64, usize)) -> bool {
    a.0 < b.0 || (a.0 == b.0 && a.1 < b.1)
}

pub open spec fn is_sorted_strict(s: Seq<(u64, usize)>) -> bool {
    forall|i: int, j: int| 0 <= i < j < s.len() ==> lex_lt(#[trigger] s[i], #[trigger] s[j])
}

/// One slot per entry: its identifier and its number.
pub open spec fn index_pairs(hashes: Seq<u64>) -> Seq<(u64, usize)> {
    Seq::new(hashes.len(), |i: int| (hashes[i], i as usize))
}

/// `s` lists the slots of the entries with identifiers `hashes`, in order.
pub open spec fn is_index_of(hashes: Seq<u64>, s: Seq<(u64, usize)>) -> bool {
    &&& s.len() == hashes.len()
    &&& is_sorted_strict(s)
    &&& s.to_multiset() == index_pairs(hashes).to_multiset()
}

/// The sorted index of entries with identifiers `hashes`.
pub open spec fn spec_index(hashes: Seq<u64>) -> Seq<(u64, usize)> {
    choose|s: Seq<(u64, usize)>| is_index_of(hashes, s)
}

/// Calls `slice::sort_unstable`; the contract claims that the result holds
/// the same slots and that they are in non-decreasing lexicographic order
/// (std orders tuples lexicographically).
#[verifier::external_body]
fn sort_slots(v: &mut Vec<(u64, usize)>)
    ensures
        final(v)@.to_multiset() == old(v)@.to_multiset(),
        forall|i: int, j: int|
            0 <= i < j < final(v)@.len() ==> !lex_lt(#[trigger] final(v)@[j], #[trigger] final(v)@[i]),
{
    v.sort_unstable();
}

proof fn lemma_index_pairs_distinct(hashes: Seq<u64>)
    requires
        hashes.len() <= usize::MAX,
    ensures
        index_pairs(hashes).no_duplicates(),
{
}

/// Some slot of `s` belongs to entry `i`.
pub open spec fn has_slot(s: Seq<(u64, usize)>, i: int) -> bool {
    exists|k: int| 0 <= k < s.len() && (#[trigger] s[k]).1 == i
}

/// Facts about any index: its slots are exactly the entries' slots.
pub proof fn lemma_index_slots(hashes: Seq<u64>, s: Seq<(u64, usize)>)
    requires
        is_index_of(hashes, s),
        hashes.len() <= usize::MAX,
    ensures
        forall|k: int|
            0 <= k < s.len() ==> (#[trigger] s[k]).1 < hashes.len() && s[k].0 == hashes[s[k].1 as int],
        forall|i: int| 0 <= i < hashes.len() ==> #[trigger] has_slot(s, i),
{
    let p = index_pairs(hashes);
    assert forall|k: int| 0 <= k < s.len() implies (#[trigger] s[k]).1 < hashes.len() && s[k].0
        == hashes[s[k].1 as int] by {
        assert(s.contains(s[k]));
        vstd::seq_lib::to_multiset_contains(s, s[k]);
        vstd::seq_lib::to_multiset_contains(p, s[k]);
        let j = choose|j: int| 0 <= j < p.len() && p[j] == s[k];
    }
    assert forall|i: int| 0 <= i < hashes.len() implies #[trigger] has_slot(s, i) by {
        assert(p[i] == (hashes[i], i as usize));
        assert(p.contains(p[i]));
        vstd::seq_lib::to_multiset_contains(p, p[i]);
        vstd::seq_lib::to_multiset_contains(s, p[i]);
        let k = choose|k: int| 0 <= k < s.len() && s[k] == p[i];
        assert(s[k].1 == i);
        assert(has_slot(s, i));
    }
}

/// In a strictly sorted index the identifiers never decrease.
pub proof fn lemma_sorted_keys(s: Seq<(u64, usize)>)
    requires
        is_sorted_strict(s),
    ensures
        forall|a: int, b: int| 0 <= a <= b < s.len() ==> (#[trigger] s[a]).0 <= (#[trigger] s[b]).0,
{
    assert forall|a: int, b: int| 0 <= a <= b < s.len() implies (#[trigger] s[a]).0 <= (
    #[trigger] s[b]).0 by {
        if a < b {
            assert(lex_lt(s[a], s[b]));
        }
    }
}

proof fn lemma_lex_total(a: (u64, usize), b: (u64, usize))
    ensures
        a == b || lex_lt(a, b) || lex_lt(b, a),
{
}

/// Two indexes of the same entries are equal: a strictly sorted sequence is
/// determined by its elements.
pub proof fn lemma_index_unique(hashes: Seq<u64>, s: Seq<(u64, usize)>, t: Seq<(u64, usize)>)
    requires
        is_index_of(hashes, s),
        is_index_of(hashes, t),
    ensures
        s == t,
{
    assert forall|k: int| 0 <= k < s.len() implies s[k] == t[k] by {
        lemma_index_unique_at(hashes, s, t, k);
    }
    assert(s =~= t);
}

proof fn lemma_index_unique_at(hashes: Seq<u64>, s: Seq<(u64, usize)>, t: Seq<(u64, usize)>, k: int)
    requires
        is_index_of(hashes, s),
        is_index_of(hashes, t),
        0 <= k < s.len(),
    ensures
        s[k] == t[k],
    decreases k,
{
    assert forall|j: int| 0 <= j < k implies s[j] == t[j] by {
        lemma_index_unique_at(hashes, s, t, j);
    }
    // s[k] occurs in t at some position m >= k, so t[k] <= s[k]; and
    // symmetrically s[k] <= t[k].
    assert(s.contains(s[k]));
    vstd::seq_lib::to_multiset_contains(s, s[k]);
    vstd::seq_lib::to_multiset_contains(t, s[k]);
    let m = choose|m: int| 0 <= m < t.len() && t[m] == s[k];
    if m < k {
        assert(t[m] == s[m]);
        assert(lex_lt(s[m], s[k]));
    }
    assert(t.contains(t[k]));
    vstd::seq_lib::to_multiset_contains(t, t[k]);
    vstd::seq_lib::to_multiset_contains(s, t[k]);
    let p = choose|p: int| 0 <= p < s.len() && s[p] == t[k];
    if p < k {
        assert(s[p] == t[p]);
        assert(lex_lt(t[p], t[k]));
    }
    lemma_lex_total(s[k], t[k]);
    if lex_lt(s[k], t[k]) {
        if m > k {
            assert(lex_lt(t[k], t[m]));
        }
    } else if lex_lt(t[k], s[k]) {
        if p > k {
            assert(lex_lt(s[k], s[p]));
        }
    }
}

/// Slots in lexicographic order, equal ones allowed.
spec fn lex_le(a: (u64, usize), b: (u64, usize)) -> bool {
    a == b || lex_lt(a, b)
}

/// Every list of identifiers has its sorted index.
pub proof fn lemma_index_exists(hashes: Seq<u64>)
    requires
        hashes.len() <= usize::MAX,
    ensures
        is_index_of(hashes, spec_index(hashes)),
{
    let leq = |a: (u64, usize), b: (u64, usize)| lex_le(a, b);
    assert(vstd::relations::total_ordering(leq)) by {
        assert forall|a: (u64, usize), b: (u64, usize)| #[trigger] leq(a, b) || leq(b, a) by {
            lemma_lex_total(a, b);
        }
        assert forall|a: (u64, usize), b: (u64, usize), c: (u64, usize)|
            #[trigger] leq(a, b) && #[trigger] leq(b, c) implies leq(a, c) by {}
        assert forall|a: (u64, usize), b: (u64, usize)|
            #[trigger] leq(a, b) && #[trigger] leq(b, a) implies a == b by {}
    }
    let p = index_pairs(hashes);
    let s = p.sort_by(leq);
    p.lemma_sort_by_ensures(leq);
    vstd::seq_lib::to_multiset_len(s);
    vstd::seq_lib::to_multiset_len(p);
    lemma_index_pairs_distinct(hashes);
    p.lemma_multiset_has_no_duplicates();
    assert forall|x: (u64, usize)| s.to_multiset().contains(x) implies s.to_multiset().count(x) == 1 by {}
    s.lemma_multiset_has_no_duplicates_conv();
    assert forall|a: int, b: int| 0 <= a < b < s.len() implies lex_lt(#[trigger] s[a], #[trigger] s[b]) by {
        assert(leq(s[a], s[b]));
    }
    assert(is_index_of(hashes, s));
}

/// The bucket checks pass when no two entries share an identifier.
pub proof fn lemma_scan_distinct(
    paths: Seq<Seq<char>>,
    hashes: Seq<u64>,
    idx: Seq<(u64, usize)>,
    stripped: bool,
    start: int,
)
    requires
        is_index_of(hashes, idx),
        hashes.len() <= usize::MAX,
        0 <= start,
        forall|i: int, j: int| 0 <= i < j < hashes.len() ==> hashes[i] != hashes[j],
    ensures
        spec_scan_index(paths, idx, stripped, start) == Ok::<(), ErrorView>(()),
    decreases idx.len() - start,
{
    if start < idx.len() {
        lemma_index_slots(hashes, idx);
        lemma_bucket_end(idx, start);
        if start + 1 < idx.len() {
            assert(lex_lt(idx[start], idx[start + 1]));
            if idx[start + 1].0 == idx[start].0 {
                let a = idx[start].1 as int;
                let b = idx[start + 1].1 as int;
                if a < b {
                    assert(hashes[a] != hashes[b]);
                } else {
                    assert(hashes[b] != hashes[a]);
                }
            }
        }
        assert(bucket_end(idx, start) == start + 1);
        assert(first_dup(paths, idx, start, start + 1) is None) by {
            assert(first_dup(paths, idx, start, start) is None);
        }
        lemma_scan_distinct(paths, hashes, idx, stripped, start + 1);
    }
}

/// Slots `lo..k` whose entries have pairwise different paths hold no
/// duplicate path.
proof fn lemma_first_dup_none(paths: Seq<Seq<char>>, idx: Seq<(u64, usize)>, lo: int, k: int)
    requires
        lo <= k,
        forall|a: int, b: int|
            lo <= a < b < k ==> #[trigger] paths[idx[a].1 as int] != #[trigger] paths[idx[b].1 as int],
    ensures
        first_dup(paths, idx, lo, k) is None,
    decreases k - lo,
{
    if k > lo {
        lemma_first_dup_none(paths, idx, lo, k - 1);
        assert forall|j: int| lo <= j < k - 1 implies #[trigger] paths[idx[j].1 as int] != paths[idx[k
            - 1].1 as int] by {}
    }
}

/// The bucket checks pass on an archive with paths when no two entries share
/// a path and no identifier bucket from slot `start` on holds more than 64
/// entries.
pub proof fn lemma_scan_paths_distinct(
    paths: Seq<Seq<char>>,
    hashes: Seq<u64>,
    idx: Seq<(u64, usize)>,
    start: int,
)
    requires
        is_index_of(hashes, idx),
        hashes.len() <= usize::MAX,
        paths.len() == hashes.len(),
        0 <= start,
        forall|i: int, j: int| 0 <= i < j < paths.len() ==> #[trigger] paths[i] != #[trigger] paths[j],
        forall|k: int| start <= k < idx.len() ==> #[trigger] bucket_end(idx, k) - k <= 64,
    ensures
        spec_scan_index(paths, idx, false, start) == Ok::<(), ErrorView>(()),
    decreases idx.len() - start,
{
    if start < idx.len() {
        lemma_index_slots(hashes, idx);
        lemma_bucket_end(idx, start);
        let end = bucket_end(idx, start);
        assert(end - start <= 64);
        assert forall|a: int, b: int| start <= a < b < end implies #[trigger] paths[idx[a].1 as int]
            != #[trigger] paths[idx[b].1 as int] by {
            assert(lex_lt(idx[a], idx[b]));
            assert(idx[a].0 == idx[start].0);
            assert(idx[b].0 == idx[start].0);
            let x = idx[a].1 as int;
            let y = idx[b].1 as int;
            assert(0 <= x < y < paths.len());
        }
        lemma_first_dup_none(paths, idx, start, end);
        lemma_scan_paths_distinct(paths, hashes, idx, end);
    }
}

/// Builds the sorted index of `entries`' identifiers.
pub fn build_index(entries: &Vec<Entry>) -> (r: Vec<(u64, usize)>)
    ensures
        is_index_of(entries@.map_values(|e: Entry| e.path_hash), r@),
        r@ == spec_index(entries@.map_values(|e: Entry| e.path_hash)),
{
    let ghost hashes = entries@.map_values(|e: Entry| e.path_hash);
    let n = entries.len();
    let mut v: Vec<(u64, usize)> = Vec::new();
    let mut i: usize = 0;
    while i < n
        invariant
            n == entries@.len(),
            hashes == entries@.map_values(|e: Entry| e.path_hash),
            i <= n,
            v@ == index_pairs(hashes).take(i as int),
        decreases n - i,
    {
        v.push((entries[i].path_hash, i));
        i = i + 1;
        assert(v@ =~= index_pairs(hashes).take(i as int));
    }
    assert(v@ =~= index_pairs(hashes));
    sort_slots(&mut v);
    proof {
        let p = index_pairs(hashes);
        vstd::seq_lib::to_multiset_len(v@);
        vstd::seq_lib::to_multiset_len(p);
        lemma_index_pairs_distinct(hashes);
        p.lemma_multiset_has_no_duplicates();
        assert forall|x: (u64, usize)| v@.to_multiset().contains(x) implies v@.to_multiset().count(x)
            == 1 by {
        }
        v@.lemma_multiset_has_no_duplicates_conv();
        assert forall|a: int, b: int| 0 <= a < b < v@.len() implies lex_lt(
            #[trigger] v@[a],
            #[trigger] v@[b],
        ) by {
            lemma_lex_total(v@[a], v@[b]);
        }
        assert(is_index_of(hashes, v@));
        lemma_index_unique(hashes, v@, spec_index(hashes));
    }
    v
}

/// Where the identifier bucket that starts at `k` ends.
pub open spec fn bucket_end(idx: Seq<(u64, usize)>, k: int) -> int
    decreases idx.len() - k,
{
    if k + 1 >= idx.len() || idx[k + 1].0 != idx[k].0 {
        k + 1
    } else {
        bucket_end(idx, k + 1)
    }
}

/// Scanning slots `lo..k` of a bucket: the path of the first slot whose path
/// an earlier slot of the bucket already has.
pub open spec fn first_dup(paths: Seq<Seq<char>>, idx: Seq<(u64, usize)>, lo: int, k: int) -> Option<
    Seq<char>,
>
    decreases k - lo,
{
    if k <= lo {
        None
    } else {
        match first_dup(paths, idx, lo, k - 1) {
            Some(p) => Some(p),
            None => if exists|j: int|
                lo <= j < k - 1 && #[trigger] paths[idx[j].1 as int] == paths[idx[k - 1].1 as int] {
                Some(paths[idx[k - 1].1 as int])
            } else {
                None
            },
        }
    }
}

/// The bucket checks, from slot `start` on: no bucket holds more than 64
/// entries, stripped archives have no shared identifier, and no bucket
/// holds one path twice.
pub open spec fn spec_scan_index(
    paths: Seq<Seq<char>>,
    idx: Seq<(u64, usize)>,
    stripped: bool,
    start: int,
) -> core::result::Result<(), ErrorView>
    decreases idx.len() - start,
{
    if start >= idx.len() || start < 0 {
        Ok(())
    } else {
        let end = bucket_end(idx, start);
        if end - start > 64 {
            Err(ErrorView::TooLarge("identifier collision bucket"))
        } else if stripped && end - start != 1 {
            Err(ErrorView::HashCollision(idx[start].0))
        } else {
            match first_dup(paths, idx, start, end) {
                Some(p) => Err(ErrorView::DuplicatePath(p)),
                None => {
                    proof {
                        lemma_bucket_end(idx, start);
                    }
                    spec_scan_index(paths, idx, stripped, end)
                },
            }
        }
    }
}

pub proof fn lemma_bucket_end(idx: Seq<(u64, usize)>, k: int)
    requires
        0 <= k < idx.len(),
    ensures
        k < bucket_end(idx, k) <= idx.len(),
        forall|j: int| k <= j < bucket_end(idx, k) ==> (#[trigger] idx[j]).0 == idx[k].0,
        bucket_end(idx, k) < idx.len() ==> idx[bucket_end(idx, k)].0 != idx[k].0,
    decreases idx.len() - k,
{
    if !(k + 1 >= idx.len() || idx[k + 1].0 != idx[k].0) {
        lemma_bucket_end(idx, k + 1);
    }
}

fn find_bucket_end(idx: &Vec<(u64, usize)>, start: usize) -> (r: usize)
    requires
        start < idx@.len(),
    ensures
        r == bucket_end(idx@, start as int),
{
    let n = idx.len();
    let mut end = start + 1;
    while end < n && idx[end].0 == idx[start].0
        invariant
            n == idx@.len(),
            start < end <= n,
            bucket_end(idx@, start as int) == bucket_end(idx@, end - 1),
            forall|j: int| start <= j < end ==> (#[trigger] idx@[j]).0 == idx@[start as int].0,
        decreases n - end,
    {
        end = end + 1;
    }
    end
}

proof fn lemma_first_dup_none_prefix(paths: Seq<Seq<char>>, idx: Seq<(u64, usize)>, lo: int, k: int, m: int)
    requires
        lo <= m <= k,
        first_dup(paths, idx, lo, k) is None,
    ensures
        first_dup(paths, idx, lo, m) is None,
    decreases k - m,
{
    if m < k {
        lemma_first_dup_none_prefix(paths, idx, lo, k - 1, m);
    }
}

proof fn lemma_first_dup_some(paths: Seq<Seq<char>>, idx: Seq<(u64, usize)>, lo: int, m: int, k: int)
    requires
        lo <= m <= k,
        first_dup(paths, idx, lo, m) is Some,
    ensures
        first_dup(paths, idx, lo, k) == first_dup(paths, idx, lo, m),
    decreases k - m,
{
    if m < k {
        lemma_first_dup_some(paths, idx, lo, m, k - 1);
    }
}

/// Checks the identifier buckets of a sorted index; see [`spec_scan_index`].
pub fn validate_index(entries: &Vec<Entry>, idx: &Vec<(u64, usize)>, stripped: bool) -> (r: Result<()>)
    requires
        forall|k: int| 0 <= k < idx@.len() ==> (#[trigger] idx@[k]).1 < entries@.len(),
    ensures
        result_view(r) == spec_scan_index(
            entries@.map_values(|e: Entry| e.path@),
            idx@,
            stripped,
            0,
        ),
{
    let ghost paths = entries@.map_values(|e: Entry| e.path@);
    let n = idx.len();
    let mut start: usize = 0;
    while start < n
        invariant
            n == idx@.len(),
            paths == entries@.map_values(|e: Entry| e.path@),
            forall|k: int| 0 <= k < idx@.len() ==> (#[trigger] idx@[k]).1 < entries@.len(),
            start <= n,
            spec_scan_index(paths, idx@, stripped, 0) == spec_scan_index(
                paths,
                idx@,
                stripped,
                start as int,
            ),
        decreases n - start,
    {
        let end = find_bucket_end(idx, start);
        proof {
            lemma_bucket_end(idx@, start as int);
        }
        if end - start > 64 {
            return Err(Error::TooLarge("identifier collision bucket"));
        }
        if stripped && end - start != 1 {
            return Err(Error::HashCollision(idx[start].0));
        }
        let mut m: usize = start;
        while m < end
            invariant
                n == idx@.len(),
                paths == entries@.map_values(|e: Entry| e.path@),
                forall|k: int| 0 <= k < idx@.len() ==> (#[trigger] idx@[k]).1 < entries@.len(),
                start <= m <= end <= n,
                first_dup(paths, idx@, start as int, m as int) is None,
                start < n,
                end == bucket_end(idx@, start as int),
                end - start <= 64,
                !(stripped && end - start != 1),
                spec_scan_index(paths, idx@, stripped, 0) == spec_scan_index(
                    paths,
                    idx@,
                    stripped,
                    start as int,
                ),

            decreases end - m,
        {
            let mut j: usize = start;
            while j < m
                invariant
                    n == idx@.len(),
                    paths == entries@.map_values(|e: Entry| e.path@),
                    forall|k: int| 0 <= k < idx@.len() ==> (#[trigger] idx@[k]).1 < entries@.len(),
                    start <= j <= m < end <= n,
                    first_dup(paths, idx@, start as int, m as int) is None,
                    start < n,
                    end == bucket_end(idx@, start as int),
                    end - start <= 64,
                    !(stripped && end - start != 1),
                    spec_scan_index(paths, idx@, stripped, 0) == spec_scan_index(
                        paths,
                        idx@,
                        stripped,
                        start as int,
                    ),

                    forall|q: int|
                        start <= q < j ==> paths[idx@[q].1 as int] != paths[idx@[m as int].1 as int],
                decreases m - j,
            {
                let a = idx[j].1;
                let b = idx[m].1;
                if entries[a].path == entries[b].path {
                    proof {
                        assert(paths[a as int] == entries@[a as int].path@);
                        assert(paths[idx@[j as int].1 as int] == paths[idx@[m as int].1 as int]);
                        assert(first_dup(paths, idx@, start as int, m + 1) == Some(
                            paths[idx@[m as int].1 as int],
                        ));
                        lemma_first_dup_some(paths, idx@, start as int, m + 1, end as int);
                    }
                    return Err(Error::DuplicatePath(entries[b].path.clone()));
                }
                j = j + 1;
            }
            proof {
                assert(!exists|q: int|
                    start <= q < m && #[trigger] paths[idx@[q].1 as int] == paths[idx@[m as int].1 as int]);
                assert(first_dup(paths, idx@, start as int, m + 1) is None);
            }
            m = m + 1;
        }
        proof {
            lemma_bucket_end(idx@, start as int);
        }
        start = end;
    }
    Ok(())
}

} // verus!
