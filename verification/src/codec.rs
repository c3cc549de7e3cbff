use vstd::prelude::*;

use crate::error::{Error, ErrorView, Result};

verus! {

/// The XXH3-64 hash of a byte sequence, as `xxhash_rust::xxh3::xxh3_64`
/// computes it.
pub uninterp spec fn spec_xxh3_64(data: Seq<u8>) -> u64;

/// The LZ4 block encoding of a byte sequence, as `lz4_flex::block::compress`
/// produces it.
pub uninterp spec fn spec_lz4_compress(input: Seq<u8>) -> Seq<u8>;

/// What `lz4_flex::block::decompress_into` decodes from `input` into an output
/// buffer of `capacity` bytes: `Some` of the decoded bytes, or `None` when it
/// reports an error.
pub uninterp spec fn spec_lz4_decompress(input: Seq<u8>, capacity: nat) -> Option<Seq<u8>>;

/// Calls `xxhash_rust::xxh3::xxh3_64`; the contract claims only that the
/// result is the XXH3-64 hash of `data`, which depends on `data` alone.
#[verifier::external_body]
pub fn checksum(data: &[u8]) -> (r: u64)
    ensures
        r == spec_xxh3_64(data@),
{
    xxhash_rust::xxh3::xxh3_64(data)
}

/// Calls `lz4_flex::block::compress`. The contract claims that the result is
/// the block encoding of `input`, that it is never empty (every block ends
/// with a token byte for its last literals), and that decoding that encoding
/// into any buffer large enough for `input` gives `input` back (the block
/// format is lossless). It also claims the crate's bound on the output,
/// `get_maximum_output_size`: at most 20 bytes more than 110% of the input.
#[verifier::external_body]
pub fn lz4_compress(input: &[u8]) -> (r: Vec<u8>)
    ensures
        r@ == spec_lz4_compress(input@),
        r@.len() > 0,
        r@.len() <= 20 + input@.len() * 110 / 100,
        forall|cap: nat| cap >= input@.len() ==> spec_lz4_decompress(r@, cap) == Some(input@),
{
    lz4_flex::block::compress(input)
}

/// Calls `lz4_flex::block::decompress_into`. The contract claims that the
/// buffer keeps its length, that on success the returned count is at most
/// the buffer length and the buffer's prefix of that length is the decoded
/// data, and that an error comes exactly when the named decoding is `None`.
/// The error text is converted with `to_string`; nothing is claimed of it.
#[verifier::external_body]
pub fn lz4_decompress_into(input: &[u8], output: &mut [u8]) -> (r: core::result::Result<usize, String>)
    ensures
        final(output)@.len() == old(output)@.len(),
        match r {
            Ok(n) => {
                &&& n <= old(output)@.len()
                &&& spec_lz4_decompress(input@, old(output)@.len() as nat) == Some(
                    final(output)@.take(n as int),
                )
            },
            Err(_) => spec_lz4_decompress(input@, old(output)@.len() as nat) is None,
        },
{
    lz4_flex::block::decompress_into(input, output).map_err(|e| e.to_string())
}

/// Decoding `data` into exactly `n` bytes: an LZ4 error, a size mismatch
/// reported as `Corrupt(mismatch)`, or the decoded bytes.
pub open spec fn spec_decompress_exact(data: Seq<u8>, n: nat, mismatch: &'static str) -> core::result::Result<
    Seq<u8>,
    ErrorView,
> {
    match spec_lz4_decompress(data, n) {
        None => Err(ErrorView::Lz4),
        Some(d) => if d.len() != n {
            Err(ErrorView::Corrupt(mismatch))
        } else {
            Ok(d)
        },
    }
}

/// Decodes an LZ4 block into `output`, which it must fill exactly.
pub fn decompress_into_exact(data: &[u8], output: &mut [u8], mismatch: &'static str) -> (r: Result<()>)
    ensures
        final(output)@.len() == old(output)@.len(),
        match spec_decompress_exact(data@, old(output)@.len(), mismatch) {
            Ok(d) => r is Ok && final(output)@ == d,
            Err(e) => r matches Err(x) && x@ == e,
        },
{
    let n = output.len();
    match lz4_decompress_into(data, output) {
        Ok(k) => {
            if k != n {
                return Err(Error::Corrupt(mismatch));
            }
            assert(output@.take(k as int) =~= output@);
            Ok(())
        },
        Err(msg) => Err(Error::Lz4(msg)),
    }
}

/// Decodes an LZ4 block that must expand to exactly `n` bytes.
pub fn decompress_block_exact(data: &[u8], n: usize, mismatch: &'static str) -> (r: Result<Vec<u8>>)
    ensures
        match spec_decompress_exact(data@, n as nat, mismatch) {
            Ok(d) => r matches Ok(v) && v@ == d,
            Err(e) => r matches Err(x) && x@ == e,
        },
{
    let mut out = zeroed(n);
    match decompress_into_exact(data, out.as_mut_slice(), mismatch) {
        Ok(()) => Ok(out),
        Err(e) => Err(e),
    }
}

/// A buffer of `n` zero bytes.
pub fn zeroed(n: usize) -> (r: Vec<u8>)
    ensures
        r@ == Seq::new(n as nat, |i: int| 0u8),
{
    let mut v: Vec<u8> = Vec::new();
    let mut i: usize = 0;
    while i < n
        invariant
            i <= n,
            v@ == Seq::new(i as nat, |k: int| 0u8),
        decreases n - i,
    {
        v.push(0u8);
        i = i + 1;
        assert(v@ =~= Seq::new(i as nat, |k: int| 0u8));
    }
    v
}

/// The bytes of `data` combined with the repeating `key` by exclusive or.
pub open spec fn spec_xor(data: Seq<u8>, key: Seq<u8>) -> Seq<u8>
    recommends
        key.len() > 0,
{
    Seq::new(data.len(), |i: int| data[i] ^ key[i % (key.len() as int)])
}

/// XOR-obfuscates `data` in place with the repeating `key`.
pub fn xor_in_place(data: &mut [u8], key: &[u8])
    requires
        key@.len() > 0,
    ensures
        final(data)@ == spec_xor(old(data)@, key@),
{
    let n = data.len();
    let mut i: usize = 0;
    while i < n
        invariant
            n == data@.len(),
            n == old(data)@.len(),
            key@.len() > 0,
            i <= n,
            forall|j: int| 0 <= j < i ==> data@[j] == #[trigger] spec_xor(old(data)@, key@)[j],
            forall|j: int| i <= j < n ==> data@[j] == old(data)@[j],
        decreases n - i,
    {
        let k = key[i % key.len()];
        let b = data[i];
        data[i] = b ^ k;
        i = i + 1;
    }
    assert(data@ =~= spec_xor(old(data)@, key@));
}

/// Obfuscating twice with the same key gives the original bytes back.
pub proof fn lemma_xor_involution(data: Seq<u8>, key: Seq<u8>)
    requires
        key.len() > 0,
    ensures
        spec_xor(spec_xor(data, key), key) == data,
{
    assert forall|i: int| 0 <= i < data.len() implies #[trigger] spec_xor(
        spec_xor(data, key),
        key,
    )[i] == data[i] by {
        let a = data[i];
        let k = key[i % (key.len() as int)];
        assert((a ^ k) ^ k == a) by (bit_vector);
    }
    assert(spec_xor(spec_xor(data, key), key) =~= data);
}

} // verus!
