use vstd::prelude::*;
use vstd::utf8::encode_utf8;

use crate::codec::{checksum, spec_xxh3_64};
use crate::error::{Error, Result};

verus! {

/// Longest accepted archive path, in UTF-8 bytes, before and after
/// normalization.
pub const MAX_PATH_LEN: usize = 65535;

/// Most components (pieces between separators) one path may have.
pub const MAX_PATH_SEGMENTS: usize = 1024;

/// Identifier of an asset: the XXH3-64 hash of its normalized path.
#[derive(Debug, Copy, Clone, PartialEq, Eq, Structural, PartialOrd, Ord, Hash)]
pub struct AssetId(pub u64);

impl AssetId {
    pub fn from_raw(value: u64) -> (r: Self)
        ensures
            r.0 == value,
    {
        AssetId(value)
    }

    pub fn get(self) -> (r: u64)
        ensures
            r == self.0,
    {
        self.0
    }

    /// The identifier of `path` after normalization.
    pub fn from_path(path: &str) -> (r: Result<Self>)
        ensures
            match spec_hash_path(path@) {
                Ok(h) => r == Ok::<AssetId, Error>(AssetId(h)),
                Err(e) => r == Err::<AssetId, Error>(e),
            },
    {
        match hash_path(path) {
            Ok(h) => Ok(AssetId(h)),
            Err(e) => Err(e),
        }
    }
}

impl From<u64> for AssetId {
    fn from(value: u64) -> (r: Self) {
        AssetId(value)
    }
}

impl vstd::std_specs::convert::FromSpecImpl<u64> for AssetId {
    open spec fn obeys_from_spec() -> bool {
        true
    }

    open spec fn from_spec(v: u64) -> Self {
        AssetId(v)
    }
}

impl From<AssetId> for u64 {
    fn from(value: AssetId) -> (r: Self) {
        value.0
    }
}

impl vstd::std_specs::convert::FromSpecImpl<AssetId> for u64 {
    open spec fn obeys_from_spec() -> bool {
        true
    }

    open spec fn from_spec(v: AssetId) -> Self {
        v.0
    }
}

/// Both `/` and `\` separate path components.
pub open spec fn is_separator(c: char) -> bool {
    c == '/' || c == '\\'
}

/// The pieces of `p` between separators, in order; `n` separators give
/// `n + 1` pieces, some of them possibly empty.
pub open spec fn split_segments(p: Seq<char>) -> Seq<Seq<char>>
    decreases p.len(),
{
    if p.len() == 0 {
        seq![Seq::<char>::empty()]
    } else {
        let s = split_segments(p.drop_last());
        if is_separator(p.last()) {
            s.push(Seq::<char>::empty())
        } else {
            s.update(s.len() - 1, s.last().push(p.last()))
        }
    }
}

/// A component that normalization drops: empty or `.`.
pub open spec fn is_skipped(s: Seq<char>) -> bool {
    s.len() == 0 || s == seq!['.']
}

/// The kept components of `segs`, joined by `/`.
pub open spec fn join_kept(segs: Seq<Seq<char>>) -> Seq<char>
    decreases segs.len(),
{
    if segs.len() == 0 {
        Seq::<char>::empty()
    } else {
        let prev = join_kept(segs.drop_last());
        let s = segs.last();
        if is_skipped(s) {
            prev
        } else if prev.len() == 0 {
            s
        } else {
            prev + seq!['/'] + s
        }
    }
}

/// The normalized form of path `p`, or `None` when `p` is not an acceptable
/// archive path: too long, holding a NUL, absolute, with too many components
/// or a `..` component, or with nothing left after normalization.
pub open spec fn spec_normalize(p: Seq<char>) -> Option<Seq<char>> {
    if encode_utf8(p).len() > MAX_PATH_LEN || p.contains('\0') || (p.len() > 0 && is_separator(
        p[0],
    )) {
        None
    } else if split_segments(p).len() > MAX_PATH_SEGMENTS || split_segments(p).contains(
        seq!['.', '.'],
    ) {
        None
    } else {
        let r = join_kept(split_segments(p));
        if r.len() == 0 || encode_utf8(r).len() > MAX_PATH_LEN {
            None
        } else {
            Some(r)
        }
    }
}

proof fn lemma_rejected(p: Seq<char>)
    requires
        encode_utf8(p).len() > MAX_PATH_LEN || p.contains('\0') || (p.len() > 0 && is_separator(
            p[0],
        )) || split_segments(p).len() > MAX_PATH_SEGMENTS || split_segments(p).contains(
            seq!['.', '.'],
        ),
    ensures
        spec_normalize(p) is None,
{
}

/// The identifier of path `p`: the hash of its normalized UTF-8 bytes.
pub open spec fn spec_hash_path(p: Seq<char>) -> Result<u64> {
    match spec_normalize(p) {
        Some(n) => Ok(spec_xxh3_64(encode_utf8(n))),
        None => Err(Error::InvalidPath),
    }
}

/// Calls `str::chars` and collects the characters; the contract claims that
/// they are the string's characters in order.
#[verifier::external_body]
pub(crate) fn chars_of(s: &str) -> (r: Vec<char>)
    ensures
        r@ == s@,
{
    s.chars().collect()
}

/// Collects characters into a `String`; the contract claims that the string
/// holds exactly those characters.
#[verifier::external_body]
pub(crate) fn string_from_chars(v: &[char]) -> (r: String)
    ensures
        r@ == v@,
{
    v.iter().collect()
}

/// The lower-case hexadecimal digit for `d` (below 16).
pub open spec fn hex_digit(d: u64) -> char {
    if d < 10 {
        (48 + d) as char
    } else {
        (87 + d) as char
    }
}

/// How an identifier is named in messages: `hash:` and its sixteen
/// lower-case hexadecimal digits, most significant first.
pub open spec fn spec_id_label(id: u64) -> Seq<char> {
    seq!['h', 'a', 's', 'h', ':'] + Seq::new(16, |i: int| hex_digit((id >> ((60 - 4 * i) as u64)) & 15))
}

fn hex_char(d: u64) -> (c: char)
    requires
        d < 16,
    ensures
        c == hex_digit(d),
{
    if d < 10 {
        ((48 + d) as u8) as char
    } else {
        ((87 + d) as u8) as char
    }
}

/// The message name of identifier `id` (`hash:` and sixteen hex digits).
pub fn id_label(id: u64) -> (r: String)
    ensures
        r@ == spec_id_label(id),
{
    let mut v: Vec<char> = vec!['h', 'a', 's', 'h', ':'];
    let mut i: u64 = 0;
    while i < 16
        invariant
            i <= 16,
            v@ == seq!['h', 'a', 's', 'h', ':'] + Seq::new(
                i as nat,
                |k: int| hex_digit((id >> ((60 - 4 * k) as u64)) & 15),
            ),
        decreases 16 - i,
    {
        let shift: u64 = 60 - 4 * i;
        let d = (id >> shift) & 15;
        assert(d < 16) by (bit_vector)
            requires
                d == (id >> shift) & 15,
        ;
        v.push(hex_char(d));
        i = i + 1;
        assert(v@ =~= seq!['h', 'a', 's', 'h', ':'] + Seq::new(
            i as nat,
            |k: int| hex_digit((id >> ((60 - 4 * k) as u64)) & 15),
        ));
    }
    string_from_chars(v.as_slice())
}

/// The components of `segs` that normalization keeps, in order.
spec fn kept(segs: Seq<Seq<char>>) -> Seq<Seq<char>>
    decreases segs.len(),
{
    if segs.len() == 0 {
        Seq::empty()
    } else if is_skipped(segs.last()) {
        kept(segs.drop_last())
    } else {
        kept(segs.drop_last()).push(segs.last())
    }
}

/// `segs` joined by `/`.
spec fn join_all(segs: Seq<Seq<char>>) -> Seq<char>
    decreases segs.len(),
{
    if segs.len() == 0 {
        Seq::empty()
    } else if segs.len() == 1 {
        segs[0]
    } else {
        join_all(segs.drop_last()) + seq!['/'] + segs.last()
    }
}

spec fn no_separator(s: Seq<char>) -> bool {
    forall|j: int| 0 <= j < s.len() ==> !is_separator(#[trigger] s[j])
}

spec fn no_nul(s: Seq<char>) -> bool {
    forall|j: int| 0 <= j < s.len() ==> #[trigger] s[j] != '\0'
}

/// Every component is free of separators, and of NUL when the path is.
proof fn lemma_split_parts(p: Seq<char>)
    ensures
        forall|k: int| 0 <= k < split_segments(p).len() ==> no_separator(#[trigger] split_segments(p)[k]),
        no_nul(p) ==> forall|k: int| 0 <= k < split_segments(p).len() ==> no_nul(#[trigger] split_segments(p)[k]),
        split_segments(p).len() >= 1,
    decreases p.len(),
{
    if p.len() > 0 {
        lemma_split_parts(p.drop_last());
        let s = split_segments(p.drop_last());
        if no_nul(p) {
            assert forall|j: int| 0 <= j < p.drop_last().len() implies #[trigger] p.drop_last()[j] != '\0' by {
                assert(p.drop_last()[j] == p[j]);
            }
        }
        if !is_separator(p.last()) {
            let t = s.last().push(p.last());
            assert(no_separator(s[s.len() - 1]));
            assert(no_separator(t));
            if no_nul(p) {
                assert(no_nul(s[s.len() - 1]));
                assert(p[p.len() - 1] == p.last());
                assert(no_nul(t));
            }
        }
    }
}

/// Kept components are non-empty, not `.`, and components of `segs`.
proof fn lemma_kept_parts(segs: Seq<Seq<char>>)
    ensures
        kept(segs).len() <= segs.len(),
        forall|k: int| 0 <= k < kept(segs).len() ==> !is_skipped(#[trigger] kept(segs)[k]) && segs.contains(
            kept(segs)[k],
        ),
    decreases segs.len(),
{
    if segs.len() > 0 {
        lemma_kept_parts(segs.drop_last());
        assert forall|k: int| 0 <= k < kept(segs).len() implies !is_skipped(#[trigger] kept(segs)[k])
            && segs.contains(kept(segs)[k]) by {
            let d = segs.drop_last();
            if k < kept(d).len() {
                assert(kept(segs)[k] == kept(d)[k]);
                let m = choose|m: int| 0 <= m < d.len() && d[m] == kept(d)[k];
                assert(segs[m] == d[m]);
            } else {
                assert(segs[segs.len() - 1] == segs.last());
            }
        }
    }
}

/// Joining with `/` is what normalization joins.
proof fn lemma_join_kept_all(segs: Seq<Seq<char>>)
    ensures
        join_kept(segs) == join_all(kept(segs)),
        join_all(kept(segs)).len() == 0 <==> kept(segs).len() == 0,
    decreases segs.len(),
{
    if segs.len() > 0 {
        lemma_join_kept_all(segs.drop_last());
        lemma_kept_parts(segs.drop_last());
        let k = kept(segs.drop_last());
        if !is_skipped(segs.last()) {
            assert(kept(segs) == k.push(segs.last()));
            assert(k.push(segs.last()).drop_last() =~= k);
            if k.len() > 0 {
                assert(join_all(k.push(segs.last())) == join_all(k) + seq!['/'] + segs.last());
            } else {
                assert(k.push(segs.last())[0] == segs.last());
            }
        }
    }
}

/// A path without separators is a single component.
proof fn lemma_split_single(s: Seq<char>)
    requires
        no_separator(s),
    ensures
        split_segments(s) == seq![s],
    decreases s.len(),
{
    if s.len() > 0 {
        assert(no_separator(s.drop_last())) by {
            assert forall|j: int| 0 <= j < s.drop_last().len() implies !is_separator(#[trigger] s.drop_last()[j]) by {
                assert(s.drop_last()[j] == s[j]);
            }
        }
        lemma_split_single(s.drop_last());
        assert(s[s.len() - 1] == s.last());
        assert(s.drop_last().push(s.last()) =~= s);
        assert(seq![s.drop_last()].update(0, s.drop_last().push(s.last())) =~= seq![s]);
    } else {
        assert(s =~= Seq::<char>::empty());
    }
}

/// Splitting at a separator splits both sides.
proof fn lemma_split_concat(x: Seq<char>, y: Seq<char>)
    ensures
        split_segments(x + seq!['/'] + y) == split_segments(x) + split_segments(y),
    decreases y.len(),
{
    let z = x + seq!['/'] + y;
    if y.len() == 0 {
        assert(z.drop_last() =~= x);
        assert(z.last() == '/');
        assert(split_segments(y) == seq![Seq::<char>::empty()]);
        assert(split_segments(x).push(Seq::<char>::empty()) =~= split_segments(x) + seq![Seq::<char>::empty()]);
    } else {
        lemma_split_concat(x, y.drop_last());
        assert(z.drop_last() =~= x + seq!['/'] + y.drop_last());
        assert(z.last() == y.last());
        lemma_split_parts(y.drop_last());
        let t = split_segments(x) + split_segments(y.drop_last());
        let u = split_segments(y.drop_last());
        if is_separator(y.last()) {
            assert(t.push(Seq::<char>::empty()) =~= split_segments(x) + u.push(Seq::<char>::empty()));
        } else {
            assert(t.update(t.len() - 1, t.last().push(y.last())) =~= split_segments(x) + u.update(
                u.len() - 1,
                u.last().push(y.last()),
            ));
        }
    }
}

/// Splitting the joined components gives them back.
proof fn lemma_split_join(segs: Seq<Seq<char>>)
    requires
        segs.len() >= 1,
        forall|k: int| 0 <= k < segs.len() ==> no_separator(#[trigger] segs[k]),
    ensures
        split_segments(join_all(segs)) == segs,
    decreases segs.len(),
{
    if segs.len() == 1 {
        lemma_split_single(segs[0]);
        assert(seq![segs[0]] =~= segs);
    } else {
        let d = segs.drop_last();
        assert forall|k: int| 0 <= k < d.len() implies no_separator(#[trigger] d[k]) by {
            assert(d[k] == segs[k]);
        }
        lemma_split_join(d);
        assert(no_separator(segs[segs.len() - 1]));
        lemma_split_single(segs.last());
        lemma_split_concat(join_all(d), segs.last());
        assert(d + seq![segs.last()] =~= segs);
    }
}

/// The joined components hold only their characters and `/`.
proof fn lemma_join_chars(segs: Seq<Seq<char>>)
    requires
        segs.len() >= 1,
        forall|k: int| 0 <= k < segs.len() ==> no_nul(#[trigger] segs[k]),
        segs[0].len() > 0,
    ensures
        no_nul(join_all(segs)),
        join_all(segs).len() > 0,
        join_all(segs)[0] == segs[0][0],
    decreases segs.len(),
{
    if segs.len() > 1 {
        let d = segs.drop_last();
        assert forall|k: int| 0 <= k < d.len() implies no_nul(#[trigger] d[k]) by {
            assert(d[k] == segs[k]);
        }
        assert(d[0] == segs[0]);
        lemma_join_chars(d);
        let j = join_all(segs);
        assert(no_nul(segs[segs.len() - 1]));
        assert forall|i: int| 0 <= i < j.len() implies #[trigger] j[i] != '\0' by {
            let a = join_all(d);
            if i < a.len() {
                assert(j[i] == a[i]);
            } else if i == a.len() {
                assert(j[i] == '/');
            } else {
                assert(j[i] == segs.last()[i - a.len() - 1]);
            }
        }
    }
}

/// Normalizing is idempotent: a normalized path normalizes to itself.
pub proof fn lemma_normalize_idempotent(p: Seq<char>)
    requires
        spec_normalize(p) is Some,
    ensures
        spec_normalize(spec_normalize(p)->Some_0) == spec_normalize(p),
{
    let segs = split_segments(p);
    let k = kept(segs);
    let r = join_kept(segs);
    lemma_split_parts(p);
    lemma_kept_parts(segs);
    lemma_join_kept_all(segs);
    assert(k.len() >= 1);
    assert forall|i: int| 0 <= i < k.len() implies no_separator(#[trigger] k[i]) by {
        let m = choose|m: int| 0 <= m < segs.len() && segs[m] == k[i];
    }
    assert(no_nul(p)) by {
        assert forall|j: int| 0 <= j < p.len() implies #[trigger] p[j] != '\0' by {
            if p[j] == '\0' {
                assert(p.contains('\0'));
            }
        }
    }
    assert forall|i: int| 0 <= i < k.len() implies no_nul(#[trigger] k[i]) by {
        let m = choose|m: int| 0 <= m < segs.len() && segs[m] == k[i];
    }
    lemma_split_join(k);
    lemma_join_chars(k);
    assert(!is_skipped(k[0]));
    assert(k[0].len() > 0);
    assert(!r.contains('\0')) by {
        if r.contains('\0') {
            let j = choose|j: int| 0 <= j < r.len() && r[j] == '\0';
        }
    }
    assert(!is_separator(k[0][0])) by {
        assert(no_separator(k[0]));
    }
    assert(!split_segments(r).contains(seq!['.', '.'])) by {
        if split_segments(r).contains(seq!['.', '.']) {
            let i = choose|i: int| 0 <= i < k.len() && k[i] == seq!['.', '.'];
            let m = choose|m: int| 0 <= m < segs.len() && segs[m] == k[i];
            assert(segs.contains(seq!['.', '.']));
        }
    }
    lemma_kept_all(k);
    lemma_join_kept_all(k);
}

/// Keeping from components that are all kept keeps them all.
proof fn lemma_kept_all(segs: Seq<Seq<char>>)
    requires
        forall|i: int| 0 <= i < segs.len() ==> !is_skipped(#[trigger] segs[i]),
    ensures
        kept(segs) == segs,
    decreases segs.len(),
{
    if segs.len() > 0 {
        let d = segs.drop_last();
        assert forall|i: int| 0 <= i < d.len() implies !is_skipped(#[trigger] d[i]) by {
            assert(d[i] == segs[i]);
        }
        lemma_kept_all(d);
        assert(!is_skipped(segs[segs.len() - 1]));
        assert(d.push(segs.last()) =~= segs);
    }
}

/// A character takes at least one byte in UTF-8.
pub proof fn lemma_utf8_len_at_least(p: Seq<char>)
    ensures
        encode_utf8(p).len() >= p.len(),
    decreases p.len(),
{
    if p.len() > 0 {
        lemma_utf8_len_at_least(p.drop_first());
    }
}

proof fn lemma_split_step(p: Seq<char>, i: int)
    requires
        0 <= i < p.len(),
    ensures
        split_segments(p.take(i + 1)) == (if is_separator(p[i]) {
            split_segments(p.take(i)).push(Seq::<char>::empty())
        } else {
            let s = split_segments(p.take(i));
            s.update(s.len() - 1, s.last().push(p[i]))
        }),
{
    assert(p.take(i + 1).drop_last() =~= p.take(i));
    assert(p.take(i + 1).last() == p[i]);
}

proof fn lemma_split_nonempty(p: Seq<char>)
    ensures
        split_segments(p).len() >= 1,
    decreases p.len(),
{
    if p.len() > 0 {
        lemma_split_nonempty(p.drop_last());
    }
}

/// Normalizes an archive path: `\` becomes `/`, empty and `.` components are
/// dropped, and absolute paths, `..`, NUL characters, overlong paths and
/// paths with too many components are rejected.
pub fn normalize_path(path: &str) -> (r: Result<String>)
    ensures
        spec_normalize(path@) is None ==> r == Err::<String, Error>(Error::InvalidPath),
        spec_normalize(path@) matches Some(n) ==> (r matches Ok(s) && s@ == n),
{
    let bytes = path.as_bytes();
    assert(bytes@ == encode_utf8(path@));
    if bytes.len() > MAX_PATH_LEN {
        assert(encode_utf8(path@).len() > MAX_PATH_LEN);
        proof { lemma_rejected(path@); }
        return Err(Error::InvalidPath);
    }
    let chars = chars_of(path);
    let n = chars.len();
    let ghost p = path@;
    proof {
        lemma_utf8_len_at_least(p);
    }
    let mut k: usize = 0;
    while k < n
        invariant
            n == chars@.len(),
            chars@ == p,
            p == path@,
            k <= n,
            forall|j: int| 0 <= j < k ==> chars@[j] != '\0',
        decreases n - k,
    {
        if chars[k] == '\0' {
            assert(p.contains('\0')) by {
                assert(p[k as int] == '\0');
            }
            proof { lemma_rejected(path@); }
            return Err(Error::InvalidPath);
        }
        k = k + 1;
    }
    assert(!p.contains('\0'));
    if n > 0 && (chars[0] == '/' || chars[0] == '\\') {
        proof { lemma_rejected(path@); }
        return Err(Error::InvalidPath);
    }
    let mut out: Vec<char> = Vec::new();
    let mut cur: Vec<char> = Vec::new();
    let mut seg_index: usize = 0;
    let ghost mut done: Seq<Seq<char>> = Seq::empty();
    let mut i: usize = 0;
    assert(p.take(0) =~= Seq::<char>::empty());
    while i <= n
        invariant
            n == chars@.len(),
            chars@ == p,
            p == path@,
            n <= MAX_PATH_LEN,
            i <= n + 1,
            !p.contains('\0'),
            i <= n ==> split_segments(p.take(i as int)) == done.push(cur@),
            i > n ==> split_segments(p) == done,
            out@ == join_kept(done),
            seg_index == done.len(),
            seg_index <= MAX_PATH_SEGMENTS,
            forall|j: int| 0 <= j < done.len() ==> done[j] != seq!['.', '.'],
        decreases n + 1 - i,
    {
        let at_end = i == n;
        if !at_end && !(chars[i] == '/' || chars[i] == '\\') {
            proof {
                lemma_split_step(p, i as int);
            }
            cur.push(chars[i]);
            i = i + 1;
            proof {
                assert(split_segments(p.take(i as int)) =~= done.push(cur@));
            }
        } else {
            proof {
                if !at_end {
                    lemma_split_step(p, i as int);
                } else {
                    assert(p.take(i as int) =~= p);
                }
            }
            if seg_index >= MAX_PATH_SEGMENTS {
                proof {
                    let full = split_segments(p);
                    if !at_end {
                        assert(p.take(n as int) =~= p);
                        lemma_split_prefix_len(p, i as int + 1);
                    }
                    assert(full.len() > MAX_PATH_SEGMENTS);
                    lemma_rejected(path@);
                }
                return Err(Error::InvalidPath);
            }
            let is_dot = cur.len() == 1 && cur[0] == '.';
            let is_dotdot = cur.len() == 2 && cur[0] == '.' && cur[1] == '.';
            if is_dotdot {
                proof {
                    assert(cur@ =~= seq!['.', '.']);
                    lemma_split_prefix_contains(p, i as int, done.len() as int);
                    lemma_rejected(path@);
                }
                return Err(Error::InvalidPath);
            }
            let ghost old_out = out@;
            if !(cur.len() == 0 || is_dot) {
                if out.len() > 0 {
                    out.push('/');
                }
                let mut j: usize = 0;
                let ghost base = out@;
                while j < cur.len()
                    invariant
                        j <= cur@.len(),
                        out@ == base + cur@.take(j as int),
                    decreases cur@.len() - j,
                {
                    out.push(cur[j]);
                    j = j + 1;
                    assert(out@ =~= base + cur@.take(j as int));
                }
                assert(cur@.take(cur@.len() as int) =~= cur@);
            }
            proof {
                let nd = done.push(cur@);
                assert(nd.drop_last() =~= done);
                assert(nd.last() == cur@);
                if is_dot {
                    assert(cur@ =~= seq!['.']);
                }
                if cur@ == seq!['.'] {
                    assert(cur@[0] == '.');
                }
                assert(out@ =~= join_kept(nd));
                done = nd;
            }
            cur = Vec::new();
            seg_index = seg_index + 1;
            if at_end {
                i = i + 1;
            } else {
                i = i + 1;
                assert(split_segments(p.take(i as int)) =~= done.push(cur@));
            }
        }
    }
    proof {
        let segs = split_segments(p);
        assert(segs == done);
        assert(!segs.contains(seq!['.', '.']));
    }
    if out.len() == 0 {
        return Err(Error::InvalidPath);
    }
    let s = string_from_chars(out.as_slice());
    if s.as_str().as_bytes().len() > MAX_PATH_LEN {
        return Err(Error::InvalidPath);
    }
    Ok(s)
}

proof fn lemma_split_prefix_len(p: Seq<char>, i: int)
    requires
        0 <= i <= p.len(),
    ensures
        split_segments(p).len() >= split_segments(p.take(i)).len(),
    decreases p.len() - i,
{
    if i < p.len() {
        lemma_split_step(p, i);
        lemma_split_prefix_len(p, i + 1);
    } else {
        assert(p.take(i) =~= p);
    }
}

proof fn lemma_split_prefix_contains(p: Seq<char>, i: int, k: int)
    requires
        0 <= i <= p.len(),
        0 <= k < split_segments(p.take(i)).len(),
        i == p.len() || is_separator(p[i]),
        k == split_segments(p.take(i)).len() - 1,
        split_segments(p.take(i))[k] == seq!['.', '.'],
    ensures
        split_segments(p).contains(seq!['.', '.']),
{
    lemma_split_keeps(p, i, k);
}

proof fn lemma_split_keeps(p: Seq<char>, i: int, k: int)
    requires
        0 <= i <= p.len(),
        0 <= k < split_segments(p.take(i)).len(),
        (i < p.len() && is_separator(p[i])) || i == p.len() || k < split_segments(p.take(i)).len()
            - 1,
    ensures
        split_segments(p).len() > k,
        split_segments(p)[k] == split_segments(p.take(i))[k],
    decreases p.len() - i,
{
    if i < p.len() {
        lemma_split_step(p, i);
        lemma_split_nonempty(p.take(i));
        if i + 1 < p.len() {
            lemma_split_keeps(p, i + 1, k);
        } else {
            assert(p.take(i + 1) =~= p);
        }
    } else {
        assert(p.take(i) =~= p);
    }
}

/// The identifier (XXH3-64 of the normalized UTF-8 bytes) of an archive path.
pub fn hash_path(path: &str) -> (r: Result<u64>)
    ensures
        r == spec_hash_path(path@),
{
    match normalize_path(path) {
        Ok(n) => Ok(checksum(n.as_str().as_bytes())),
        Err(e) => Err(e),
    }
}

/// Normalization applied to lookup paths; the same rules as for packing.
pub fn normalize_lookup_path(path: &str) -> (r: Result<String>)
    ensures
        spec_normalize(path@) is None ==> r == Err::<String, Error>(Error::InvalidPath),
        spec_normalize(path@) matches Some(n) ==> (r matches Ok(s) && s@ == n),
{
    normalize_path(path)
}

} // verus!
