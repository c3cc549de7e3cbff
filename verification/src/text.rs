//! Building messages: text, decimal numbers and fixed-width hexadecimal
//! numbers appended to a character buffer.
use vstd::prelude::*;

use crate::path::{chars_of, hex_digit};

verus! {

/// Appends the characters of `s` to `out`.
pub(crate) fn push_text(out: &mut Vec<char>, s: &str)
    ensures
        final(out)@ == old(out)@ + s@,
{
    let cs = chars_of(s);
    let mut i: usize = 0;
    while i < cs.len()
        invariant
            cs@ == s@,
            i <= cs@.len(),
            out@ == old(out)@ + cs@.take(i as int),
        decreases cs@.len() - i,
    {
        out.push(cs[i]);
        i = i + 1;
        assert(out@ =~= old(out)@ + cs@.take(i as int));
    }
    assert(cs@.take(cs@.len() as int) =~= cs@);
}

/// The character of decimal digit `d` (below 10).
pub open spec fn decimal_digit(d: nat) -> char {
    (48 + d) as char
}

/// The decimal digits of `n`, most significant first, without leading zeros.
pub open spec fn decimal(n: nat) -> Seq<char>
    decreases n,
{
    if n < 10 {
        seq![decimal_digit(n)]
    } else {
        decimal(n / 10).push(decimal_digit(n % 10))
    }
}

/// Appends the decimal digits of `n` to `out`.
pub(crate) fn push_decimal(out: &mut Vec<char>, n: u64)
    ensures
        final(out)@ == old(out)@ + decimal(n as nat),
    decreases n,
{
    if n >= 10 {
        push_decimal(out, n / 10);
    }
    let d = n % 10;
    out.push(((48 + d) as u8) as char);
    proof {
        assert(final(out)@ =~= old(out)@ + decimal(n as nat));
    }
}

/// The `width` lower-case hexadecimal digits of `v`, most significant
/// first (`width` at most 16).
pub open spec fn hex_digits(v: u64, width: nat) -> Seq<char> {
    Seq::new(width, |i: int| hex_digit((v >> ((4 * (width - 1 - i)) as u64)) & 15))
}

/// Appends the `width` lower-case hexadecimal digits of `v` to `out`.
pub(crate) fn push_hex(out: &mut Vec<char>, v: u64, width: u64)
    requires
        0 < width <= 16,
    ensures
        final(out)@ == old(out)@ + hex_digits(v, width as nat),
{
    let mut i: u64 = 0;
    while i < width
        invariant
            0 < width <= 16,
            i <= width,
            out@ == old(out)@ + hex_digits(v, width as nat).take(i as int),
        decreases width - i,
    {
        let shift: u64 = 4 * (width - 1 - i);
        let d = (v >> shift) & 15;
        assert(d < 16) by (bit_vector)
            requires
                d == (v >> shift) & 15,
        ;
        let c = if d < 10 {
            ((48 + d) as u8) as char
        } else {
            ((87 + d) as u8) as char
        };
        assert(c == hex_digit(d));
        out.push(c);
        i = i + 1;
        assert(out@ =~= old(out)@ + hex_digits(v, width as nat).take(i as int));
    }
    assert(hex_digits(v, width as nat).take(width as int) =~= hex_digits(v, width as nat));
}

} // verus!
