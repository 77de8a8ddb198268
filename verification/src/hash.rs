//! The hash functions of the scheme, computed by the `sha3` crate.
//!
//! What the four primitives return is not defined here: each has a name, and
//! the contracts of this library speak of those names.

use vstd::prelude::*;
use crate::bytearray::ByteArray;

verus! {

/// The 32-byte SHA3-256 digest of `input`.
pub uninterp spec fn sha3_256_spec(input: Seq<u8>) -> Seq<u8>;

/// The 64-byte SHA3-512 digest of `input`.
pub uninterp spec fn sha3_512_spec(input: Seq<u8>) -> Seq<u8>;

/// Byte `index` of the SHAKE-128 output stream for `input`.
pub uninterp spec fn shake128_byte(input: Seq<u8>, index: nat) -> u8;

/// Byte `index` of the SHAKE-256 output stream for `input`.
pub uninterp spec fn shake256_byte(input: Seq<u8>, index: nat) -> u8;

/// The first `len` bytes of the SHAKE-128 output stream for `input`.
pub open spec fn shake128_spec(input: Seq<u8>, len: nat) -> Seq<u8> {
    Seq::new(len, |i: int| shake128_byte(input, i as nat))
}

/// The first `len` bytes of the SHAKE-256 output stream for `input`.
pub open spec fn shake256_spec(input: Seq<u8>, len: nat) -> Seq<u8> {
    Seq::new(len, |i: int| shake256_byte(input, i as nat))
}

/// `Digest::digest` of the `sha3` crate on `sha3::Sha3_256`. The contract
/// names the digest and claims its length, 32 bytes.
#[verifier::external_body]
fn sha3_256(input: &Vec<u8>) -> (out: Vec<u8>)
    ensures
        out@ == sha3_256_spec(input@),
        out@.len() == 32,
{
    <sha3::Sha3_256 as sha3::Digest>::digest(input.as_slice()).to_vec()
}

/// `Digest::digest` of the `sha3` crate on `sha3::Sha3_512`. The contract
/// names the digest and claims its length, 64 bytes.
#[verifier::external_body]
fn sha3_512(input: &Vec<u8>) -> (out: Vec<u8>)
    ensures
        out@ == sha3_512_spec(input@),
        out@.len() == 64,
{
    <sha3::Sha3_512 as sha3::Digest>::digest(input.as_slice()).to_vec()
}

/// `ExtendableOutput::digest_xof` of the `sha3` crate on `sha3::Shake128`,
/// which fills a buffer of `len` bytes. The contract claims that these are
/// the first `len` bytes of one stream that `input` alone determines.
#[verifier::external_body]
fn shake128(input: &Vec<u8>, len: usize) -> (out: Vec<u8>)
    ensures
        out@.len() == len,
        forall|i: int| 0 <= i < len ==> #[trigger] out@[i] == shake128_byte(input@, i as nat),
{
    let mut out = vec![0u8; len];
    <sha3::Shake128 as sha3::digest::ExtendableOutput>::digest_xof(input.as_slice(), &mut out);
    out
}

/// `ExtendableOutput::digest_xof` of the `sha3` crate on `sha3::Shake256`,
/// which fills a buffer of `len` bytes. The contract claims that these are
/// the first `len` bytes of one stream that `input` alone determines.
#[verifier::external_body]
fn shake256(input: &Vec<u8>, len: usize) -> (out: Vec<u8>)
    ensures
        out@.len() == len,
        forall|i: int| 0 <= i < len ==> #[trigger] out@[i] == shake256_byte(input@, i as nat),
{
    let mut out = vec![0u8; len];
    <sha3::Shake256 as sha3::digest::ExtendableOutput>::digest_xof(input.as_slice(), &mut out);
    out
}

/// The seed of the pseudo-random function: `seed` followed by `nonce`.
pub open spec fn prf_input(seed: Seq<u8>, nonce: u8) -> Seq<u8> {
    seed.push(nonce)
}

/// The seed of one entry of the public matrix: `rho`, then `first`, then
/// `second`.
pub open spec fn xof_input(rho: Seq<u8>, first: u8, second: u8) -> Seq<u8> {
    rho.push(first).push(second)
}

/// H: the SHA3-256 digest of `input`.
pub fn hash_h(input: &ByteArray) -> (r: ByteArray)
    ensures
        r@ == sha3_256_spec(input@),
        r@.len() == 32,
{
    ByteArray { data: sha3_256(&input.data) }
}

/// G: the SHA3-512 digest of `input`, split into its two halves of 32 bytes.
pub fn hash_g(input: &ByteArray) -> (r: (ByteArray, ByteArray))
    ensures
        r.0@ == sha3_512_spec(input@).subrange(0, 32),
        r.1@ == sha3_512_spec(input@).subrange(32, 64),
        r.0@.len() == 32,
        r.1@.len() == 32,
{
    let digest = ByteArray { data: sha3_512(&input.data) };
    digest.split_at(32)
}

/// PRF: the first `len` bytes of SHAKE-256 on `seed` followed by `nonce`.
pub fn prf(seed: &ByteArray, nonce: u8, len: usize) -> (r: ByteArray)
    ensures
        r@ == shake256_spec(prf_input(seed@, nonce), len as nat),
{
    let mut input = seed.clone();
    input.data.push(nonce);
    let out = shake256(&input.data, len);
    assert(out@ =~= shake256_spec(prf_input(seed@, nonce), len as nat));
    ByteArray { data: out }
}

/// KDF: the first 32 bytes of SHAKE-256 on `input`.
pub fn kdf(input: &ByteArray) -> (r: ByteArray)
    ensures
        r@ == shake256_spec(input@, 32),
{
    let out = shake256(&input.data, 32);
    assert(out@ =~= shake256_spec(input@, 32));
    ByteArray { data: out }
}

/// XOF: the first `len` bytes of SHAKE-128 on `rho`, `first`, `second`.
pub fn xof(rho: &ByteArray, first: u8, second: u8, len: usize) -> (r: ByteArray)
    ensures
        r@ == shake128_spec(xof_input(rho@, first, second), len as nat),
{
    let mut input = rho.clone();
    input.data.push(first);
    input.data.push(second);
    let out = shake128(&input.data, len);
    assert(out@ =~= shake128_spec(xof_input(rho@, first, second), len as nat));
    ByteArray { data: out }
}

} // verus!
