use chacha20poly1305::aead::{Aead, KeyInit, Payload};
use chacha20poly1305::{XChaCha20Poly1305, XNonce};
use vstd::prelude::*;

use crate::error::{Error, Result};

verus! {

/// Bytes that a sealed block adds to its plaintext: the nonce and the tag.
pub const AEAD_OVERHEAD: u64 = 40;

/// The 32-byte key that `blake3::derive_key` derives from `material` under
/// the key-derivation `context`.
pub uninterp spec fn spec_blake3_derive_key(context: Seq<char>, material: Seq<u8>) -> Seq<u8>;

/// The archive's chunk and TOC key: derived from the key material under the
/// format's fixed context.
pub open spec fn spec_derive_key(material: Seq<u8>) -> Seq<u8> {
    spec_blake3_derive_key("rasen-archive XChaCha20-Poly1305 key v1"@, material)
}

/// What `XChaCha20Poly1305::encrypt` returns for a key, a 24-byte nonce, a
/// plaintext and associated data: `Some` ciphertext (with tag), or `None`
/// on error.
pub uninterp spec fn spec_aead_seal(key: Seq<u8>, nonce: Seq<u8>, plain: Seq<u8>, aad: Seq<u8>) -> Option<Seq<u8>>;

/// What `XChaCha20Poly1305::decrypt` returns for a key, a 24-byte nonce, a
/// ciphertext (with tag) and associated data: `Some` plaintext, or `None`
/// when authentication fails.
pub uninterp spec fn spec_aead_open(key: Seq<u8>, nonce: Seq<u8>, ciphertext: Seq<u8>, aad: Seq<u8>) -> Option<Seq<u8>>;

/// Calls `blake3::derive_key`. The contract claims that the result has 32
/// bytes and is determined by the context and the material.
#[verifier::external_body]
fn blake3_derive_key(context: &str, material: &[u8]) -> (r: Vec<u8>)
    ensures
        r@ == spec_blake3_derive_key(context@, material@),
        r@.len() == 32,
{
    blake3::derive_key(context, material).to_vec()
}

/// Derives the archive's key from the key material under the format's
/// fixed context.
pub fn derive_key(material: &[u8]) -> (r: Vec<u8>)
    ensures
        r@ == spec_derive_key(material@),
        r@.len() == 32,
{
    blake3_derive_key("rasen-archive XChaCha20-Poly1305 key v1", material)
}

/// Calls `getrandom::fill` on a 24-byte buffer. Nothing is claimed of the
/// bytes or of when the call fails: both depend on the operating system.
#[verifier::external_body]
fn random_nonce() -> (r: Option<Vec<u8>>)
    ensures
        r matches Some(n) ==> n@.len() == 24,
{
    let mut nonce = [0u8; 24];
    getrandom::fill(&mut nonce).ok().map(|()| nonce.to_vec())
}

/// Calls `XChaCha20Poly1305::encrypt`. The contract claims that the result is
/// the named sealing of the arguments, that a ciphertext is 16 bytes (the
/// tag) longer than the plaintext, and that opening it with the same key,
/// nonce and associated data gives the plaintext back.
#[verifier::external_body]
fn aead_seal(key: &[u8], nonce: &[u8], plain: &[u8], aad: &[u8]) -> (r: Option<Vec<u8>>)
    requires
        key@.len() == 32,
        nonce@.len() == 24,
    ensures
        r is Some <==> spec_aead_seal(key@, nonce@, plain@, aad@) is Some,
        r matches Some(c) ==> {
            &&& spec_aead_seal(key@, nonce@, plain@, aad@) == Some(c@)
            &&& c@.len() == plain@.len() + 16
            &&& spec_aead_open(key@, nonce@, c@, aad@) == Some(plain@)
        },
{
    let key: [u8; 32] = key.try_into().unwrap();
    let nonce: [u8; 24] = nonce.try_into().unwrap();
    XChaCha20Poly1305::new(&key.into()).encrypt(&XNonce::from(nonce), Payload { msg: plain, aad }).ok()
}

/// Calls `XChaCha20Poly1305::decrypt`. The contract claims that the result is
/// the named opening of the arguments.
#[verifier::external_body]
fn aead_open(key: &[u8], nonce: &[u8], ciphertext: &[u8], aad: &[u8]) -> (r: Option<Vec<u8>>)
    requires
        key@.len() == 32,
        nonce@.len() == 24,
    ensures
        r is Some <==> spec_aead_open(key@, nonce@, ciphertext@, aad@) is Some,
        r matches Some(p) ==> spec_aead_open(key@, nonce@, ciphertext@, aad@) == Some(p@),
{
    let key: [u8; 32] = key.try_into().unwrap();
    let nonce: [u8; 24] = nonce.try_into().unwrap();
    XChaCha20Poly1305::new(&key.into()).decrypt(&XNonce::from(nonce), Payload { msg: ciphertext, aad }).ok()
}

/// The plaintext of a stored sealed block (a 24-byte nonce followed by the
/// ciphertext and its 16-byte tag), or `None` when it is truncated or fails
/// authentication.
pub open spec fn spec_unseal(key: Seq<u8>, stored: Seq<u8>, aad: Seq<u8>) -> Option<Seq<u8>> {
    if stored.len() < AEAD_OVERHEAD {
        None
    } else {
        spec_aead_open(key, stored.take(24), stored.skip(24), aad)
    }
}

/// The associated data that binds the sealed table of contents.
pub open spec fn spec_toc_aad() -> Seq<u8> {
    seq![82u8, 80, 65, 75, 45, 84, 79, 67, 45, 118, 49]
}

/// The associated data that binds sealed chunk `index` to its position.
pub open spec fn spec_chunk_aad(index: u32) -> Seq<u8> {
    seq![82u8, 80, 65, 75, 45, 67, 72, 78] + vstd::bytes::spec_u32_to_le_bytes(index)
}

/// Associated data of the sealed table of contents ("RPAK-TOC-v1").
pub fn toc_aad() -> (r: Vec<u8>)
    ensures
        r@ == spec_toc_aad(),
{
    let r = vec![82u8, 80, 65, 75, 45, 84, 79, 67, 45, 118, 49];
    assert(r@ =~= spec_toc_aad());
    r
}

/// Associated data of sealed chunk `index` ("RPAK-CHN" and the index in
/// little-endian order).
pub fn chunk_aad(index: u32) -> (r: Vec<u8>)
    ensures
        r@ == spec_chunk_aad(index),
{
    let mut r = vec![82u8, 80, 65, 75, 45, 67, 72, 78];
    let le = vstd::bytes::u32_to_le_bytes(index);
    r.push(le[0]);
    r.push(le[1]);
    r.push(le[2]);
    r.push(le[3]);
    assert(r@ =~= spec_chunk_aad(index));
    r
}

/// Seals `plain` under `key` with a fresh random nonce and returns the nonce
/// followed by the ciphertext.
pub fn encrypt(plain: &[u8], key: &[u8], aad: &[u8]) -> (r: Result<Vec<u8>>)
    requires
        key@.len() == 32,
    ensures
        r matches Ok(stored) ==> {
            &&& stored@.len() == plain@.len() + AEAD_OVERHEAD
            &&& spec_unseal(key@, stored@, aad@) == Some(plain@)
        },
        r matches Err(e) ==> e == Error::Crypto("nonce generation failed") || e == Error::Crypto(
            "encryption failed",
        ),
{
    let nonce = match random_nonce() {
        Some(n) => n,
        None => return Err(Error::Crypto("nonce generation failed")),
    };
    let ciphertext = match aead_seal(key, nonce.as_slice(), plain, aad) {
        Some(c) => c,
        None => return Err(Error::Crypto("encryption failed")),
    };
    let mut stored: Vec<u8> = Vec::new();
    let mut i: usize = 0;
    while i < nonce.len()
        invariant
            nonce@.len() == 24,
            i <= 24,
            stored@ == nonce@.take(i as int),
        decreases 24 - i,
    {
        stored.push(nonce[i]);
        i = i + 1;
        assert(stored@ =~= nonce@.take(i as int));
    }
    let mut j: usize = 0;
    while j < ciphertext.len()
        invariant
            nonce@.len() == 24,
            j <= ciphertext@.len(),
            stored@ == nonce@ + ciphertext@.take(j as int),
        decreases ciphertext@.len() - j,
    {
        stored.push(ciphertext[j]);
        j = j + 1;
        assert(stored@ =~= nonce@ + ciphertext@.take(j as int));
    }
    assert(ciphertext@.take(ciphertext@.len() as int) =~= ciphertext@);
    assert(stored@.take(24) =~= nonce@);
    assert(stored@.skip(24) =~= ciphertext@);
    Ok(stored)
}

/// Opens a stored sealed block (nonce followed by ciphertext) under `key`.
pub fn decrypt(stored: &[u8], key: &[u8], aad: &[u8]) -> (r: Result<Vec<u8>>)
    requires
        key@.len() == 32,
    ensures
        r matches Ok(p) ==> spec_unseal(key@, stored@, aad@) == Some(p@),
        r is Err <==> spec_unseal(key@, stored@, aad@) is None,
        r matches Err(e) ==> (e == if stored@.len() < AEAD_OVERHEAD {
            Error::Crypto("encrypted block is truncated")
        } else {
            Error::Crypto("authentication failed")
        }),
{
    if stored.len() < 40 {
        return Err(Error::Crypto("encrypted block is truncated"));
    }
    let nonce = vstd::slice::slice_subrange(stored, 0, 24);
    let ciphertext = vstd::slice::slice_subrange(stored, 24, stored.len());
    assert(nonce@ =~= stored@.take(24));
    assert(ciphertext@ =~= stored@.skip(24));
    match aead_open(key, nonce, ciphertext, aad) {
        Some(p) => Ok(p),
        None => Err(Error::Crypto("authentication failed")),
    }
}

} // verus!
