use vstd::prelude::*;
use vstd::utf8::encode_utf8;

verus! {

broadcast use vstd::seq_lib::group_to_multiset_ensures;

/// Byte-wise lexicographic order: `a` comes no later than `b`.
pub open spec fn bytes_le(a: Seq<u8>, b: Seq<u8>) -> bool
    decreases a.len(),
{
    if a.len() == 0 {
        true
    } else if b.len() == 0 {
        false
    } else if a[0] != b[0] {
        a[0] < b[0]
    } else {
        bytes_le(a.drop_first(), b.drop_first())
    }
}

/// Two byte strings are always ordered one way or the other.
pub proof fn lemma_bytes_le_total(a: Seq<u8>, b: Seq<u8>)
    ensures
        bytes_le(a, b) || bytes_le(b, a),
    decreases a.len(),
{
    if a.len() > 0 && b.len() > 0 && a[0] == b[0] {
        lemma_bytes_le_total(a.drop_first(), b.drop_first());
    }
}

/// The order is transitive.
pub proof fn lemma_bytes_le_trans(a: Seq<u8>, b: Seq<u8>, c: Seq<u8>)
    requires
        bytes_le(a, b),
        bytes_le(b, c),
    ensures
        bytes_le(a, c),
    decreases a.len(),
{
    if a.len() > 0 && b.len() > 0 && c.len() > 0 && a[0] == b[0] && b[0] == c[0] {
        lemma_bytes_le_trans(a.drop_first(), b.drop_first(), c.drop_first());
    }
}

/// Compares two byte strings in byte-wise lexicographic order.
fn bytes_le_exec(a: &[u8], b: &[u8]) -> (r: bool)
    ensures
        r == bytes_le(a@, b@),
{
    let n = a.len();
    let m = b.len();
    let mut i: usize = 0;
    proof {
        assert(a@.skip(0) =~= a@);
        assert(b@.skip(0) =~= b@);
    }
    while i < n && i < m && a[i] == b[i]
        invariant
            n == a@.len(),
            m == b@.len(),
            i <= n,
            i <= m,
            bytes_le(a@, b@) == bytes_le(a@.skip(i as int), b@.skip(i as int)),
        decreases n - i,
    {
        proof {
            assert(a@.skip(i as int).drop_first() =~= a@.skip(i + 1));
            assert(b@.skip(i as int).drop_first() =~= b@.skip(i + 1));
        }
        i = i + 1;
    }
    if i == n {
        true
    } else if i == m {
        false
    } else {
        a[i] < b[i]
    }
}

/// The views of a sequence of strings.
pub open spec fn path_views(s: Seq<String>) -> Seq<Seq<char>> {
    s.map_values(|p: String| p@)
}

/// Whether the strings are in byte-wise order of their UTF-8 encodings.
pub open spec fn paths_sorted(s: Seq<String>) -> bool {
    forall|i: int, j: int|
        0 <= i < j < s.len() ==> bytes_le(encode_utf8((#[trigger] s[i])@), encode_utf8((#[trigger] s[j])@))
}

/// Sorts virtual paths by their UTF-8 bytes, so that a pack of a directory
/// stores its files in the same order wherever it runs.
pub fn sort_virtual_paths(paths: &mut Vec<String>)
    ensures
        path_views(final(paths)@).to_multiset() == path_views(old(paths)@).to_multiset(),
        paths_sorted(final(paths)@),
{
    let ghost orig = path_views(old(paths)@);
    let mut out: Vec<String> = Vec::new();
    proof {
        assert(path_views(out@) =~= Seq::<Seq<char>>::empty());
    }
    while paths.len() > 0
        invariant
            path_views(paths@).to_multiset().add(path_views(out@).to_multiset()) == orig.to_multiset(),
            paths_sorted(out@),
        decreases paths@.len(),
    {
        let ghost before = paths@;
        let s = paths.pop().unwrap();
        proof {
            assert(before =~= paths@.push(s));
            assert(path_views(before) =~= path_views(paths@).push(s@));
        }
        let sb = s.as_str().as_bytes();
        let n = out.len();
        let mut k: usize = 0;
        while k < n && bytes_le_exec(out[k].as_str().as_bytes(), sb)
            invariant
                n == out@.len(),
                k <= n,
                sb@ == encode_utf8(s@),
                forall|i: int| 0 <= i < k ==> bytes_le(encode_utf8((#[trigger] out@[i])@), sb@),
            decreases n - k,
        {
            k = k + 1;
        }
        let ghost old_out = out@;
        proof {
            if k < n {
                lemma_bytes_le_total(encode_utf8(old_out[k as int]@), sb@);
            }
        }
        out.insert(k, s);
        proof {
            assert(path_views(out@) =~= path_views(old_out).insert(k as int, s@));
            assert forall|i: int, j: int| 0 <= i < j < out@.len() implies bytes_le(
                encode_utf8((#[trigger] out@[i])@),
                encode_utf8((#[trigger] out@[j])@),
            ) by {
                if j < k {
                    assert(out@[i] == old_out[i] && out@[j] == old_out[j]);
                } else if j == k {
                    assert(out@[i] == old_out[i]);
                } else if i == k {
                    assert(out@[j] == old_out[j - 1]);
                    if j - 1 > k {
                        lemma_bytes_le_trans(sb@, encode_utf8(old_out[k as int]@), encode_utf8(old_out[j - 1]@));
                    }
                } else if i < k {
                    assert(out@[i] == old_out[i] && out@[j] == old_out[j - 1]);
                } else {
                    assert(out@[i] == old_out[i - 1] && out@[j] == old_out[j - 1]);
                }
            }
        }
    }
    proof {
        assert(path_views(paths@) =~= Seq::<Seq<char>>::empty());
        assert(path_views(paths@).to_multiset() =~= vstd::multiset::Multiset::<Seq<char>>::empty());
        assert(path_views(out@).to_multiset() =~= orig.to_multiset());
    }
    *paths = out;
}

} // verus!
