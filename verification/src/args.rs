//! The packer's command-line options: the archive key, the packing mode,
//! and the chunk size and alignment given as positional numbers.
use vstd::prelude::*;

use crate::error::{spec_io_kind, IoKind};
use crate::format::{DEFAULT_ALIGNMENT, DEFAULT_CHUNK_SIZE};
use crate::options::{spec_default_options, PackMode, PackOptions, Protection};
use crate::path::{chars_of, string_from_chars};
use crate::text::push_text;

verus! {

/// Why command-line arguments were refused.
#[derive(Debug)]
pub enum ArgError {
    /// An option is unknown, lacks its value or has a bad one; the message
    /// says which.
    Invalid(String),
    /// A positional number is not a number of the kind asked for.
    Number,
}

/// The value of an [`ArgError`], its message as characters.
pub enum ArgErrorView {
    Invalid(Seq<char>),
    Number,
}

impl View for ArgError {
    type V = ArgErrorView;

    open spec fn view(&self) -> ArgErrorView {
        match self {
            ArgError::Invalid(m) => ArgErrorView::Invalid(m@),
            ArgError::Number => ArgErrorView::Number,
        }
    }
}

/// `p` is a prefix of `s`.
pub open spec fn has_prefix(s: Seq<char>, p: Seq<char>) -> bool {
    p.len() <= s.len() && s.take(p.len() as int) == p
}

/// Whether `s` holds exactly the characters of `lit`.
fn same_text(s: &String, lit: &str) -> (r: bool)
    ensures
        r == (s@ == lit@),
{
    let other = lit.to_owned();
    *s == other
}

/// What follows `prefix` in `s`, when `s` starts with it.
fn after_prefix(s: &str, prefix: &str) -> (r: Option<String>)
    ensures
        r is Some <==> has_prefix(s@, prefix@),
        r matches Some(rest) ==> rest@ == s@.skip(prefix@.len() as int),
{
    let cs = chars_of(s);
    let ps = chars_of(prefix);
    if ps.len() > cs.len() {
        return None;
    }
    let mut i: usize = 0;
    while i < ps.len()
        invariant
            cs@ == s@,
            ps@ == prefix@,
            ps@.len() <= cs@.len(),
            i <= ps@.len(),
            forall|j: int| 0 <= j < i ==> cs@[j] == ps@[j],
        decreases ps@.len() - i,
    {
        if cs[i] != ps[i] {
            proof {
                assert(s@.take(prefix@.len() as int)[i as int] != prefix@[i as int]);
            }
            return None;
        }
        i = i + 1;
    }
    assert(s@.take(prefix@.len() as int) =~= prefix@);
    let rest = vstd::slice::slice_subrange(cs.as_slice(), ps.len(), cs.len());
    assert(rest@ =~= s@.skip(prefix@.len() as int));
    Some(string_from_chars(rest))
}

/// The message `a` followed by `b`.
fn message2(a: &str, b: &str) -> (r: String)
    ensures
        r@ == a@ + b@,
{
    let mut out: Vec<char> = Vec::new();
    push_text(&mut out, a);
    push_text(&mut out, b);
    proof {
        assert(out@ =~= a@ + b@);
    }
    string_from_chars(out.as_slice())
}

/// Whether `s` starts with a dash.
fn starts_with_dash(s: &String) -> (r: bool)
    ensures
        r == (s@.len() > 0 && s@[0] == '-'),
{
    let cs = chars_of(s.as_str());
    cs.len() > 0 && cs[0] == '-'
}

/// The message `a`, `b`, `c` run together.
fn message3(a: &str, b: &str, c: &str) -> (r: String)
    ensures
        r@ == a@ + b@ + c@,
{
    let mut out: Vec<char> = Vec::new();
    push_text(&mut out, a);
    push_text(&mut out, b);
    push_text(&mut out, c);
    proof {
        assert(out@ =~= a@ + b@ + c@);
    }
    string_from_chars(out.as_slice())
}

/// The refusal of a mode name.
pub open spec fn bad_mode_message(value: Seq<char>) -> Seq<char> {
    "invalid pack mode '"@ + value + "', expected debug or production"@
}

/// Reading a mode name: `debug`, or `production` (or `prod`).
pub open spec fn spec_parse_mode(value: Seq<char>) -> Result<PackMode, ArgErrorView> {
    if value == "debug"@ {
        Ok(PackMode::Debug)
    } else if value == "production"@ || value == "prod"@ {
        Ok(PackMode::Production)
    } else {
        Err(ArgErrorView::Invalid(bad_mode_message(value)))
    }
}

/// Reads a mode name: `debug`, or `production` (or `prod`).
pub fn parse_mode(value: &str) -> (r: Result<PackMode, ArgError>)
    ensures
        match spec_parse_mode(value@) {
            Ok(m) => r == Ok::<PackMode, ArgError>(m),
            Err(x) => r matches Err(e) && e@ == x,
        },
{
    let v = value.to_owned();
    if same_text(&v, "debug") {
        Ok(PackMode::Debug)
    } else if same_text(&v, "production") || same_text(&v, "prod") {
        Ok(PackMode::Production)
    } else {
        Err(ArgError::Invalid(message3("invalid pack mode '", value, "', expected debug or production")))
    }
}

/// The arguments as character sequences.
pub open spec fn arg_views(args: Seq<String>) -> Seq<Seq<char>> {
    args.map_values(|a: String| a@)
}

/// The characters of an optional string.
pub open spec fn text_view(s: Option<String>) -> Option<Seq<char>> {
    match s {
        Some(t) => Some(t@),
        None => None,
    }
}

/// Taking the key options out of `args`, front to back: `--key` with the
/// argument after it, or `--key=` with the rest of the argument. Gives the
/// arguments that remain and the last key given, or `None` when `--key` is
/// the last argument.
pub open spec fn scan_keys(args: Seq<Seq<char>>) -> Option<(Seq<Seq<char>>, Option<Seq<char>>)>
    decreases args.len(),
{
    if args.len() == 0 {
        Some((Seq::empty(), None))
    } else if args[0] == "--key"@ {
        if args.len() < 2 {
            None
        } else {
            match scan_keys(args.skip(2)) {
                None => None,
                Some((kept, k)) => Some((kept, if k is Some { k } else { Some(args[1]) })),
            }
        }
    } else if has_prefix(args[0], "--key="@) {
        match scan_keys(args.skip(1)) {
            None => None,
            Some((kept, k)) => Some((kept, if k is Some { k } else { Some(args[0].skip("--key="@.len() as int)) })),
        }
    } else {
        match scan_keys(args.skip(1)) {
            None => None,
            Some((kept, k)) => Some((seq![args[0]] + kept, k)),
        }
    }
}

/// The result of scanning the rest of the arguments, after `kept` stayed
/// and `key` was the last key so far.
pub open spec fn after_keys(
    kept: Seq<Seq<char>>,
    key: Option<Seq<char>>,
    rest: Option<(Seq<Seq<char>>, Option<Seq<char>>)>,
) -> Option<(Seq<Seq<char>>, Option<Seq<char>>)> {
    match rest {
        None => None,
        Some((k2, key2)) => Some((kept + k2, if key2 is Some { key2 } else { key })),
    }
}

/// The key to use: the last one given, else the one from the environment,
/// else `example-key`.
pub open spec fn chosen_key(given: Option<Seq<char>>, env_key: Option<Seq<char>>) -> Seq<char> {
    match given {
        Some(k) => k,
        None => match env_key {
            Some(k) => k,
            None => "example-key"@,
        },
    }
}

/// No argument of `s` is a key option.
pub open spec fn no_key_options(s: Seq<Seq<char>>) -> bool {
    forall|i: int| 0 <= i < s.len() ==> (#[trigger] s[i]) != "--key"@ && !has_prefix(s[i], "--key="@)
}

proof fn lemma_scan_keys_plain(s: Seq<Seq<char>>)
    requires
        no_key_options(s),
    ensures
        scan_keys(s) == Some::<(Seq<Seq<char>>, Option<Seq<char>>)>((s, None)),
    decreases s.len(),
{
    if s.len() > 0 {
        assert(s[0] != "--key"@ && !has_prefix(s[0], "--key="@));
        assert forall|i: int| 0 <= i < s.skip(1).len() implies (#[trigger] s.skip(1)[i]) != "--key"@
            && !has_prefix(s.skip(1)[i], "--key="@) by {
            assert(s.skip(1)[i] == s[i + 1]);
        }
        lemma_scan_keys_plain(s.skip(1));
        assert(seq![s[0]] + s.skip(1) =~= s);
    }
}

proof fn lemma_scan_keys_append(a: Seq<Seq<char>>, b: Seq<Seq<char>>)
    requires
        scan_keys(a) is Some,
    ensures
        scan_keys(a + b) == after_keys(scan_keys(a)->Some_0.0, scan_keys(a)->Some_0.1, scan_keys(b)),
    decreases a.len(),
{
    if a.len() == 0 {
        assert(a + b =~= b);
        if let Some((kb, gb)) = scan_keys(b) {
            assert(Seq::<Seq<char>>::empty() + kb =~= kb);
        }
    } else if a[0] == "--key"@ {
        assert((a + b)[0] == a[0] && (a + b)[1] == a[1]);
        assert((a + b).skip(2) =~= a.skip(2) + b);
        lemma_scan_keys_append(a.skip(2), b);
    } else if has_prefix(a[0], "--key="@) {
        assert((a + b)[0] == a[0]);
        assert((a + b).skip(1) =~= a.skip(1) + b);
        lemma_scan_keys_append(a.skip(1), b);
    } else {
        assert((a + b)[0] == a[0]);
        assert((a + b).skip(1) =~= a.skip(1) + b);
        lemma_scan_keys_append(a.skip(1), b);
        if let Some((kb, gb)) = scan_keys(b) {
            let ka = scan_keys(a.skip(1))->Some_0.0;
            assert(seq![a[0]] + (ka + kb) =~= (seq![a[0]] + ka) + kb);
        }
    }
}

/// The last `--key <k>` option wins: whatever came before it, and whatever
/// the environment holds, the key taken is `k`, when no key option follows
/// it; the other arguments stay, in order.
pub proof fn lemma_last_key_option_wins(
    pre: Seq<Seq<char>>,
    k: Seq<char>,
    post: Seq<Seq<char>>,
    env_key: Option<Seq<char>>,
)
    requires
        scan_keys(pre) is Some,
        no_key_options(post),
    ensures
        scan_keys(pre + (seq!["--key"@, k] + post)) matches Some((kept, given)) && chosen_key(given, env_key) == k
            && kept == scan_keys(pre)->Some_0.0 + post,
{
    let b = seq!["--key"@, k] + post;
    lemma_scan_keys_plain(post);
    assert(b.skip(2) =~= post);
    assert(b[0] == "--key"@ && b[1] == k);
    lemma_scan_keys_append(pre, b);
}

/// The same for `--key=<k>`.
pub proof fn lemma_last_inline_key_option_wins(
    pre: Seq<Seq<char>>,
    k: Seq<char>,
    post: Seq<Seq<char>>,
    env_key: Option<Seq<char>>,
)
    requires
        scan_keys(pre) is Some,
        no_key_options(post),
    ensures
        scan_keys(pre + (seq!["--key="@ + k] + post)) matches Some((kept, given)) && chosen_key(given, env_key) == k
            && kept == scan_keys(pre)->Some_0.0 + post,
{
    let opt = "--key="@ + k;
    let b = seq![opt] + post;
    reveal_strlit("--key=");
    reveal_strlit("--key");
    lemma_scan_keys_plain(post);
    assert(b.skip(1) =~= post);
    assert(b[0] == opt);
    assert(opt.len() != "--key"@.len());
    assert(opt.take("--key="@.len() as int) =~= "--key="@);
    assert(opt.skip("--key="@.len() as int) =~= k);
    lemma_scan_keys_append(pre, b);
}

/// A `--key` with nothing after it is refused, whatever came before.
pub proof fn lemma_key_without_value_refused(pre: Seq<Seq<char>>)
    requires
        scan_keys(pre) is Some,
    ensures
        scan_keys(pre + seq!["--key"@]) is None,
{
    lemma_scan_keys_append(pre, seq!["--key"@]);
}

/// Without a key option the arguments all stay, and the key is the one
/// from the environment, else `example-key`.
pub proof fn lemma_env_key_without_option(args: Seq<Seq<char>>, env_key: Option<Seq<char>>)
    requires
        no_key_options(args),
    ensures
        scan_keys(args) matches Some((kept, given)) && kept == args && chosen_key(given, env_key) == match env_key {
            Some(e) => e,
            None => "example-key"@,
        },
{
    lemma_scan_keys_plain(args);
}

/// Takes the key options out of `args` and returns the key to use: the last
/// one given, else `env_key`, else `example-key`. Fails when `--key` is the
/// last argument.
pub fn take_key(args: &mut Vec<String>, env_key: Option<String>) -> (r: Result<String, ArgError>)
    ensures
        match scan_keys(arg_views(old(args)@)) {
            None => r matches Err(e) && e@ == ArgErrorView::Invalid("--key requires a value"@),
            Some((kept, k)) => {
                &&& arg_views(final(args)@) == kept
                &&& r matches Ok(key) && key@ == chosen_key(k, text_view(env_key))
            },
        },
{
    let ghost all = arg_views(args@);
    let n = args.len();
    let mut kept: Vec<String> = Vec::new();
    let mut key: Option<String> = None;
    let mut i: usize = 0;
    proof {
        assert(all.skip(0) =~= all);
        assert(after_keys(arg_views(kept@), text_view(key), scan_keys(all)) == scan_keys(all)) by {
            match scan_keys(all) {
                None => {},
                Some((k2, key2)) => {
                    assert(arg_views(kept@) + k2 =~= k2);
                },
            }
        }
    }
    while i < n
        invariant
            n == args@.len(),
            all == arg_views(args@),
            args@ == old(args)@,
            i <= n,
            scan_keys(all) == after_keys(arg_views(kept@), text_view(key), scan_keys(all.skip(i as int))),
        decreases n - i,
    {
        let ghost s = all.skip(i as int);
        assert(s[0] == args@[i as int]@);
        if same_text(&args[i], "--key") {
            if i + 1 >= n {
                proof {
                    assert(s.len() < 2);
                }
                return Err(ArgError::Invalid("--key requires a value".to_owned()));
            }
            key = Some(args[i + 1].clone());
            proof {
                assert(s[1] == args@[i + 1]@);
                assert(s.skip(2) =~= all.skip(i + 2));
            }
            i = i + 2;
        } else {
            match after_prefix(args[i].as_str(), "--key=") {
                Some(v) => {
                    key = Some(v);
                    proof {
                        assert(s.skip(1) =~= all.skip(i + 1));
                    }
                    i = i + 1;
                },
                None => {
                    let ghost before = arg_views(kept@);
                    kept.push(args[i].clone());
                    proof {
                        assert(s.skip(1) =~= all.skip(i + 1));
                        assert(arg_views(kept@) =~= before.push(s[0]));
                        match scan_keys(s.skip(1)) {
                            None => {},
                            Some((k2, key2)) => {
                                assert(before + (seq![s[0]] + k2) =~= arg_views(kept@) + k2);
                            },
                        }
                    }
                    i = i + 1;
                },
            }
        }
    }
    proof {
        assert(all.skip(n as int) =~= Seq::<Seq<char>>::empty());
        assert(arg_views(kept@) + Seq::<Seq<char>>::empty() =~= arg_views(kept@));
    }
    *args = kept;
    match key {
        Some(k) => Ok(k),
        None => match env_key {
            Some(k) => Ok(k),
            None => Ok("example-key".to_owned()),
        },
    }
}

/// The value of decimal digits, most significant first.
pub open spec fn digits_value(d: Seq<char>) -> nat
    decreases d.len(),
{
    if d.len() == 0 {
        0
    } else {
        digits_value(d.drop_last()) * 10 + ((d.last() as u32) - 48) as nat
    }
}

/// Every character of `d` is an ASCII digit.
pub open spec fn all_digits(d: Seq<char>) -> bool {
    forall|i: int| 0 <= i < d.len() ==> 48 <= (#[trigger] d[i] as u32) <= 57
}

/// What `str::parse` reads as an unsigned integer of maximum `max`: an
/// optional `+` and then one or more ASCII digits whose value is at most
/// `max`.
pub open spec fn parsed_unsigned(s: Seq<char>, max: nat) -> Option<nat> {
    let d = if s.len() > 0 && s[0] == '+' {
        s.skip(1)
    } else {
        s
    };
    if d.len() > 0 && all_digits(d) && digits_value(d) <= max {
        Some(digits_value(d))
    } else {
        None
    }
}

/// Calls `str::parse::<usize>`; the contract claims that it reads an
/// optional `+` and then decimal digits, and fails on anything else or on a
/// value above `usize::MAX`, as std documents.
#[verifier::external_body]
fn parse_usize(s: &str) -> (r: Option<usize>)
    ensures
        match parsed_unsigned(s@, usize::MAX as nat) {
            Some(v) => r == Some(v as usize),
            None => r is None,
        },
{
    s.parse::<usize>().ok()
}

/// Calls `str::parse::<u32>`; the contract claims that it reads an optional
/// `+` and then decimal digits, and fails on anything else or on a value
/// above `u32::MAX`, as std documents.
#[verifier::external_body]
fn parse_u32(s: &str) -> (r: Option<u32>)
    ensures
        match parsed_unsigned(s@, u32::MAX as nat) {
            Some(v) => r == Some(v as u32),
            None => r is None,
        },
{
    s.parse::<u32>().ok()
}

/// A mode found here, then the scan of the rest.
pub open spec fn with_mode(
    m: PackMode,
    rest: Result<(Option<PackMode>, Seq<Seq<char>>), ArgErrorView>,
) -> Result<(Option<PackMode>, Seq<Seq<char>>), ArgErrorView> {
    match rest {
        Err(x) => Err(x),
        Ok((m2, ps)) => Ok((if m2 is Some { m2 } else { Some(m) }, ps)),
    }
}

/// A positional argument found here, then the scan of the rest.
pub open spec fn with_positional(
    p: Seq<char>,
    rest: Result<(Option<PackMode>, Seq<Seq<char>>), ArgErrorView>,
) -> Result<(Option<PackMode>, Seq<Seq<char>>), ArgErrorView> {
    match rest {
        Err(x) => Err(x),
        Ok((m2, ps)) => Ok((m2, seq![p] + ps)),
    }
}

/// Scanning the pack options, front to back: `--debug`, `--production` (or
/// `--prod`), `--mode` with the argument after it, `--mode=` with the rest
/// of the argument; any other argument starting with a dash is refused, and
/// the others are positional. Gives the last mode given and the positional
/// arguments, or the first refusal.
pub open spec fn scan_options(args: Seq<Seq<char>>) -> Result<(Option<PackMode>, Seq<Seq<char>>), ArgErrorView>
    decreases args.len(),
{
    if args.len() == 0 {
        Ok((None, Seq::empty()))
    } else if args[0] == "--debug"@ {
        with_mode(PackMode::Debug, scan_options(args.skip(1)))
    } else if args[0] == "--production"@ || args[0] == "--prod"@ {
        with_mode(PackMode::Production, scan_options(args.skip(1)))
    } else if args[0] == "--mode"@ {
        if args.len() < 2 {
            Err(ArgErrorView::Invalid("--mode requires a value"@))
        } else {
            match spec_parse_mode(args[1]) {
                Err(x) => Err(x),
                Ok(m) => with_mode(m, scan_options(args.skip(2))),
            }
        }
    } else if has_prefix(args[0], "--mode="@) {
        match spec_parse_mode(args[0].skip("--mode="@.len() as int)) {
            Err(x) => Err(x),
            Ok(m) => with_mode(m, scan_options(args.skip(1))),
        }
    } else if args[0].len() > 0 && args[0][0] == '-' {
        Err(ArgErrorView::Invalid("unknown pack option: "@ + args[0]))
    } else {
        with_positional(args[0], scan_options(args.skip(1)))
    }
}

/// The result of scanning the rest of the arguments, after `mode` was the
/// last mode so far and `pos` the positional arguments so far.
pub open spec fn after_options(
    mode: Option<PackMode>,
    pos: Seq<Seq<char>>,
    rest: Result<(Option<PackMode>, Seq<Seq<char>>), ArgErrorView>,
) -> Result<(Option<PackMode>, Seq<Seq<char>>), ArgErrorView> {
    match rest {
        Err(x) => Err(x),
        Ok((m2, ps)) => Ok((if m2 is Some { m2 } else { mode }, pos + ps)),
    }
}

/// The options that pack arguments ask for: the default options with the
/// last mode given; a first positional number sets the chunk size in KiB
/// and a second the alignment; more than two are refused.
pub open spec fn spec_parse_pack_options(args: Seq<Seq<char>>) -> Result<PackOptions, ArgErrorView> {
    match scan_options(args) {
        Err(x) => Err(x),
        Ok((m, pos)) => {
            let base = PackOptions {
                mode: if m is Some {
                    m->0
                } else {
                    PackMode::Debug
                },
                ..spec_default_options()
            };
            if pos.len() == 0 {
                Ok(base)
            } else if pos.len() > 2 {
                Err(ArgErrorView::Invalid("too many positional pack arguments"@))
            } else {
                match parsed_unsigned(pos[0], usize::MAX as nat) {
                    None => Err(ArgErrorView::Number),
                    Some(kib) => if kib * 1024 > usize::MAX {
                        Err(ArgErrorView::Invalid("chunk size overflow"@))
                    } else if pos.len() == 1 {
                        Ok(PackOptions { chunk_size: (kib * 1024) as usize, ..base })
                    } else {
                        match parsed_unsigned(pos[1], u32::MAX as nat) {
                            None => Err(ArgErrorView::Number),
                            Some(a) => Ok(
                                PackOptions { chunk_size: (kib * 1024) as usize, alignment: a as u32, ..base },
                            ),
                        }
                    },
                }
            }
        },
    }
}

/// `flag` is one mode option asking for mode `m`: `--debug`,
/// `--production`, `--prod`, `--mode <name>` or `--mode=<name>`, where the
/// name is `debug`, `production` or `prod`.
pub open spec fn mode_option(flag: Seq<Seq<char>>, m: PackMode) -> bool {
    let named = |v: Seq<char>|
        (v == "debug"@ && m == PackMode::Debug) || ((v == "production"@ || v == "prod"@) && m
            == PackMode::Production);
    ||| flag == seq!["--debug"@] && m == PackMode::Debug
    ||| (flag == seq!["--production"@] || flag == seq!["--prod"@]) && m == PackMode::Production
    ||| flag.len() == 2 && flag[0] == "--mode"@ && named(flag[1])
    ||| flag.len() == 1 && exists|v: Seq<char>| flag[0] == "--mode="@ + v && named(v)
}

/// A name that starts with a dash is no mode name.
proof fn lemma_dash_is_no_mode(x: Seq<char>)
    requires
        x.len() > 0,
        x[0] == '-',
    ensures
        spec_parse_mode(x) is Err,
{
    reveal_strlit("debug");
    reveal_strlit("production");
    reveal_strlit("prod");
    assert(x != "debug"@ && x != "production"@ && x != "prod"@) by {
        assert(x[0] != "debug"@[0] && x[0] != "production"@[0] && x[0] != "prod"@[0]);
    }
}

/// Facts about the option words that a mode option starts with.
proof fn lemma_mode_option_shape(flag: Seq<Seq<char>>, m: PackMode)
    requires
        mode_option(flag, m),
    ensures
        flag.len() >= 1,
        flag[0].len() > 0 && flag[0][0] == '-',
        scan_options(flag) == Ok::<(Option<PackMode>, Seq<Seq<char>>), ArgErrorView>((Some(m), Seq::empty())),
{
    reveal_strlit("--debug");
    reveal_strlit("--production");
    reveal_strlit("--prod");
    reveal_strlit("--mode");
    reveal_strlit("--mode=");
    reveal_strlit("debug");
    reveal_strlit("production");
    reveal_strlit("prod");
    let f = flag[0];
    assert(f[0] == '-');
    assert(flag.skip(1).len() == flag.len() - 1);
    assert(scan_options(Seq::<Seq<char>>::empty()) == Ok::<(Option<PackMode>, Seq<Seq<char>>), ArgErrorView>(
        (None, Seq::empty()),
    ));
    if flag == seq!["--debug"@] {
        assert(flag.skip(1) =~= Seq::<Seq<char>>::empty());
    } else if flag == seq!["--production"@] || flag == seq!["--prod"@] {
        assert(f != "--debug"@) by {
            assert(f[2] != "--debug"@[2]);
        }
        assert(flag.skip(1) =~= Seq::<Seq<char>>::empty());
    } else if flag.len() == 2 && flag[0] == "--mode"@ {
        assert(f != "--debug"@ && f != "--production"@ && f != "--prod"@) by {
            assert(f[2] != "--debug"@[2] && f[2] != "--production"@[2] && f[2] != "--prod"@[2]);
        }
        assert(flag.skip(2) =~= Seq::<Seq<char>>::empty());
    } else {
        let v = choose|v: Seq<char>|
            flag[0] == "--mode="@ + v && ((v == "debug"@ && m == PackMode::Debug) || ((v == "production"@ || v
                == "prod"@) && m == PackMode::Production));
        assert(f != "--debug"@ && f != "--production"@ && f != "--prod"@) by {
            assert(f[2] != "--debug"@[2] && f[2] != "--production"@[2] && f[2] != "--prod"@[2]);
        }
        assert(f != "--mode"@) by {
            assert(f.len() != "--mode"@.len());
        }
        assert(f.take("--mode="@.len() as int) =~= "--mode="@);
        assert(f.skip("--mode="@.len() as int) =~= v);
        assert(flag.skip(1) =~= Seq::<Seq<char>>::empty());
    }
}

proof fn lemma_scan_options_append_mode(a: Seq<Seq<char>>, flag: Seq<Seq<char>>, m: PackMode)
    requires
        mode_option(flag, m),
    ensures
        scan_options(a + flag) is Ok ==> scan_options(a + flag)->Ok_0.0 == Some(m),
        scan_options(a) matches Ok((_, ps)) ==> scan_options(a + flag) == Ok::<
            (Option<PackMode>, Seq<Seq<char>>),
            ArgErrorView,
        >((Some(m), ps)),
    decreases a.len(),
{
    lemma_mode_option_shape(flag, m);
    if a.len() == 0 {
        assert(a + flag =~= flag);
    } else {
        let x = a + flag;
        assert(x[0] == a[0]);
        assert(x.skip(1) =~= a.skip(1) + flag);
        lemma_scan_options_append_mode(a.skip(1), flag, m);
        if a[0] == "--mode"@ {
            if a.len() < 2 {
                assert(x[1] == flag[0]);
                lemma_dash_is_no_mode(flag[0]);
            } else {
                assert(x[1] == a[1]);
                assert(x.skip(2) =~= a.skip(2) + flag);
                lemma_scan_options_append_mode(a.skip(2), flag, m);
            }
        }
    }
}

/// The last mode option wins: after any arguments, a mode option decides
/// the mode of the options read, and leaves the rest of them as they were.
pub proof fn lemma_last_mode_option_wins(a: Seq<Seq<char>>, flag: Seq<Seq<char>>, m: PackMode)
    requires
        mode_option(flag, m),
    ensures
        spec_parse_pack_options(a + flag) matches Ok(o) ==> o.mode == m,
        spec_parse_pack_options(a) matches Ok(o) ==> spec_parse_pack_options(a + flag) == Ok::<
            PackOptions,
            ArgErrorView,
        >(PackOptions { mode: m, ..o }),
{
    lemma_scan_options_append_mode(a, flag, m);
}

/// A plain argument of decimal digits is positional.
proof fn lemma_digits_positional(d: Seq<char>, rest: Seq<Seq<char>>)
    requires
        d.len() > 0,
        all_digits(d),
    ensures
        scan_options(seq![d] + rest) == with_positional(d, scan_options(rest)),
{
    reveal_strlit("--debug");
    reveal_strlit("--production");
    reveal_strlit("--prod");
    reveal_strlit("--mode");
    reveal_strlit("--mode=");
    let x = seq![d] + rest;
    assert(x[0] == d);
    assert(x.skip(1) =~= rest);
    assert(48 <= d[0] as u32 <= 57);
    assert(d != "--debug"@ && d != "--production"@ && d != "--prod"@ && d != "--mode"@) by {
        assert(d[0] != "--debug"@[0]);
    }
    assert(!has_prefix(d, "--mode="@)) by {
        if has_prefix(d, "--mode="@) {
            assert(d.take(7)[0] == d[0]);
        }
    }
}

/// Positional numbers set the sizes: the first is the chunk size in KiB,
/// the second the alignment, the mode stays the default and a third number
/// is refused.
pub proof fn lemma_positional_sizes(d1: Seq<char>, d2: Seq<char>, d3: Seq<char>)
    requires
        d1.len() > 0 && all_digits(d1),
        d2.len() > 0 && all_digits(d2),
        d3.len() > 0 && all_digits(d3),
        digits_value(d1) * 1024 <= usize::MAX,
        digits_value(d2) <= u32::MAX,
    ensures
        spec_parse_pack_options(seq![d1]) == Ok::<PackOptions, ArgErrorView>(
            PackOptions { chunk_size: (digits_value(d1) * 1024) as usize, ..spec_default_options() },
        ),
        spec_parse_pack_options(seq![d1, d2]) == Ok::<PackOptions, ArgErrorView>(
            PackOptions {
                chunk_size: (digits_value(d1) * 1024) as usize,
                alignment: digits_value(d2) as u32,
                ..spec_default_options()
            },
        ),
        spec_parse_pack_options(seq![d1, d2, d3]) is Err,
{
    let e = Seq::<Seq<char>>::empty();
    assert(scan_options(e) == Ok::<(Option<PackMode>, Seq<Seq<char>>), ArgErrorView>((None, e)));
    lemma_digits_positional(d3, e);
    assert(seq![d3] + e =~= seq![d3]);
    lemma_digits_positional(d2, e);
    assert(seq![d2] + e =~= seq![d2]);
    lemma_digits_positional(d2, seq![d3]);
    assert(seq![d2] + seq![d3] =~= seq![d2, d3]);
    lemma_digits_positional(d1, e);
    assert(seq![d1] + e =~= seq![d1]);
    lemma_digits_positional(d1, seq![d2]);
    assert(seq![d1] + seq![d2] =~= seq![d1, d2]);
    lemma_digits_positional(d1, seq![d2, d3]);
    assert(seq![d1] + seq![d2, d3] =~= seq![d1, d2, d3]);
    assert(seq![d1] + e =~= seq![d1]);
    assert(seq![d2] + seq![d3] + e =~= seq![d2, d3]);
    assert(seq![d1] + seq![d2] =~= seq![d1, d2]);
    assert(seq![d1] + seq![d2, d3] =~= seq![d1, d2, d3]);
    assert(d1[0] != '+' && d2[0] != '+') by {
        assert(48 <= d1[0] as u32 <= 57 && 48 <= d2[0] as u32 <= 57);
    }
}

/// Reads the options after `pack <input> <output>`: `--debug`,
/// `--production` (or `--prod`), `--mode <mode>` or `--mode=<mode>`, and up
/// to two numbers, the chunk size in KiB and the alignment.
pub fn parse_pack_options(args: &[String]) -> (r: Result<PackOptions, ArgError>)
    ensures
        match spec_parse_pack_options(arg_views(args@)) {
            Ok(o) => r == Ok::<PackOptions, ArgError>(o),
            Err(x) => r matches Err(e) && e@ == x,
        },
{
    let ghost all = arg_views(args@);
    let n = args.len();
    let mut mode: Option<PackMode> = None;
    let mut positional: Vec<String> = Vec::new();
    let mut i: usize = 0;
    proof {
        assert(all.skip(0) =~= all);
        assert(after_options(mode, arg_views(positional@), scan_options(all)) == scan_options(all)) by {
            match scan_options(all) {
                Err(_) => {},
                Ok((m2, ps)) => {
                    assert(arg_views(positional@) + ps =~= ps);
                },
            }
        }
    }
    while i < n
        invariant
            n == args@.len(),
            all == arg_views(args@),
            i <= n,
            scan_options(all) == after_options(mode, arg_views(positional@), scan_options(all.skip(i as int))),
        decreases n - i,
    {
        let ghost s = all.skip(i as int);
        assert(s[0] == args@[i as int]@);
        if same_text(&args[i], "--debug") {
            mode = Some(PackMode::Debug);
            proof {
                assert(s.skip(1) =~= all.skip(i + 1));
            }
            i = i + 1;
        } else if same_text(&args[i], "--production") || same_text(&args[i], "--prod") {
            mode = Some(PackMode::Production);
            proof {
                assert(s.skip(1) =~= all.skip(i + 1));
            }
            i = i + 1;
        } else if same_text(&args[i], "--mode") {
            if i + 1 >= n {
                return Err(ArgError::Invalid("--mode requires a value".to_owned()));
            }
            proof {
                assert(s[1] == args@[i + 1]@);
            }
            match parse_mode(args[i + 1].as_str()) {
                Ok(m) => {
                    mode = Some(m);
                },
                Err(e) => return Err(e),
            }
            proof {
                assert(s.skip(2) =~= all.skip(i + 2));
            }
            i = i + 2;
        } else {
            match after_prefix(args[i].as_str(), "--mode=") {
                Some(v) => {
                    match parse_mode(v.as_str()) {
                        Ok(m) => {
                            mode = Some(m);
                        },
                        Err(e) => return Err(e),
                    }
                    proof {
                        assert(s.skip(1) =~= all.skip(i + 1));
                    }
                    i = i + 1;
                },
                None => {
                    if starts_with_dash(&args[i]) {
                        return Err(ArgError::Invalid(message2("unknown pack option: ", args[i].as_str())));
                    }
                    let ghost before = arg_views(positional@);
                    positional.push(args[i].clone());
                    proof {
                        assert(s.skip(1) =~= all.skip(i + 1));
                        assert(arg_views(positional@) =~= before.push(s[0]));
                        match scan_options(s.skip(1)) {
                            Err(_) => {},
                            Ok((m2, ps)) => {
                                assert(before + (seq![s[0]] + ps) =~= arg_views(positional@) + ps);
                            },
                        }
                    }
                    i = i + 1;
                },
            }
        }
    }
    proof {
        assert(all.skip(n as int) =~= Seq::<Seq<char>>::empty());
        assert(arg_views(positional@) + Seq::<Seq<char>>::empty() =~= arg_views(positional@));
    }
    let defaults = PackOptions::default();
    let base = PackOptions {
        mode: match mode {
            Some(m) => m,
            None => PackMode::Debug,
        },
        ..defaults
    };
    if positional.len() == 0 {
        return Ok(base);
    }
    if positional.len() > 2 {
        return Err(ArgError::Invalid("too many positional pack arguments".to_owned()));
    }
    proof {
        assert(arg_views(positional@)[0] == positional@[0]@);
    }
    let kib = match parse_usize(positional[0].as_str()) {
        Some(v) => v,
        None => return Err(ArgError::Number),
    };
    let chunk_size = match kib.checked_mul(1024) {
        Some(v) => v,
        None => return Err(ArgError::Invalid("chunk size overflow".to_owned())),
    };
    if positional.len() == 1 {
        return Ok(PackOptions { chunk_size, ..base });
    }
    proof {
        assert(arg_views(positional@)[1] == positional@[1]@);
    }
    let alignment = match parse_u32(positional[1].as_str()) {
        Some(v) => v,
        None => return Err(ArgError::Number),
    };
    Ok(PackOptions { chunk_size, alignment, ..base })
}

/// The arguments of the `pack` subcommand of the subcommand-style packer:
/// the input directory and archive paths, the mode and protection, and an
/// optional chunk size in KiB and alignment.
pub struct PackArgs {
    pub input_dir: String,
    pub archive: String,
    pub mode: PackMode,
    pub protection: Protection,
    pub chunk_kib: Option<usize>,
    pub alignment: Option<u32>,
}

/// Builds the error for a chunk size in KiB whose byte count overflows with
/// `std::io::Error::new`; the contract claims that its kind is the one it is
/// built with, as `std::io::Error::kind` documents.
#[verifier::external_body]
fn chunk_size_overflow() -> (r: std::io::Error)
    ensures
        spec_io_kind(r) == IoKind::InvalidInput,
{
    std::io::Error::new(std::io::ErrorKind::InvalidInput, "chunk size overflow")
}

impl PackArgs {
    /// The pack options asked for: the default options with the mode and
    /// protection given, and the chunk size (`chunk_kib` KiB) and alignment
    /// where they are given. Fails when the chunk size in bytes overflows.
    pub fn options(&self) -> (r: Result<PackOptions, std::io::Error>)
        ensures
            r matches Err(e) ==> spec_io_kind(e) == IoKind::InvalidInput,
            r is Err <==> (self.chunk_kib matches Some(k) && k * 1024 > usize::MAX),
            r matches Ok(o) ==> {
                &&& o.mode == self.mode
                &&& o.protection == self.protection
                &&& o.chunk_size == match self.chunk_kib {
                    Some(k) => k * 1024,
                    None => DEFAULT_CHUNK_SIZE as int,
                }
                &&& o.alignment == match self.alignment {
                    Some(a) => a,
                    None => DEFAULT_ALIGNMENT,
                }
            },
    {
        let base = PackOptions::default();
        let chunk_size = match self.chunk_kib {
            Some(k) => {
                if k > usize::MAX / 1024 {
                    return Err(chunk_size_overflow());
                }
                k * 1024
            },
            None => base.chunk_size,
        };
        let alignment = match self.alignment {
            Some(a) => a,
            None => base.alignment,
        };
        Ok(PackOptions { chunk_size, alignment, mode: self.mode, protection: self.protection })
    }
}

} // verus!
