//! The public-key encryption scheme that the key encapsulation wraps.

use vstd::prelude::*;
use vstd::arithmetic::power2::lemma2_to64;
use vstd::arithmetic::div_mod::{
    lemma_fundamental_div_mod_converse, lemma_mod_bound, lemma_small_mod,
};
use crate::bytearray::{ByteArray, bit_at};
use crate::compress::{
    compress_poly, compress_polyvec, decompress_poly, decompress_polyvec, compress_int,
    compress_seq, compress_vec_seq, decompress_int, decompress_seq, decompress_vec_seq,
    residue_distance,
};
use crate::encode::{
    decode_to_poly, decode_to_polyvec, encode_poly, encode_polyvec, dec_coeff, decode_seq,
    decode_vec_seq, encode_seq, encode_vec_seq, lemma_encode_decode, lemma_decode_encode,
    lemma_decode_encode_vec, lemma_encode_vec_len,
};
use crate::field::is_reduced;
use crate::error::KyberError;
use crate::hash::{hash_g, prf, prf_input, sha3_512_spec, shake256_spec, xof_input};
use crate::ntt::{
    bcm_matrix_vec, bcm_vec, ntt_vec, rev_ntt, rev_ntt_vec, bcm_dot_seq, bcm_matrix_seq, bcm_seq,
    intt_seq, intt_vec_seq, ntt_vec_seq,
};
use crate::params::{KyberParams, supported, public_key_len, ciphertext_len};
use crate::poly::{Poly3329, add_seq, sub_seq};
use crate::polyvec::{
    PolyMatrix3329, PolyVec3329, add_vec_seq, is_module_elem, is_ring_elem, transpose_seq,
    width_seq,
};
use crate::sample::{cbd, cbd_seq, sample_uniform, uniform_ok, uniform_seq};

verus! {

/// Every entry of the `k` by `k` matrix seeded by `rho` can be sampled.
pub open spec fn gen_matrix_ok(rho: Seq<u8>, k: nat) -> bool {
    forall|i: int, j: int|
        0 <= i < k && 0 <= j < k ==> uniform_ok(#[trigger] xof_input(rho, j as u8, i as u8))
}

/// The `k` by `k` matrix seeded by `rho`: the entry in row `i` and column
/// `j` is sampled from the stream of `rho`, `j`, `i`; in the transposed
/// matrix, from that of `rho`, `i`, `j`.
pub open spec fn gen_matrix_seq(rho: Seq<u8>, k: nat, transposed: bool) -> Seq<Seq<Seq<int>>> {
    Seq::new(
        k,
        |i: int|
            Seq::new(
                k,
                |j: int|
                    if transposed {
                        uniform_seq(xof_input(rho, i as u8, j as u8))
                    } else {
                        uniform_seq(xof_input(rho, j as u8, i as u8))
                    },
            ),
    )
}

/// The noise polynomial that `seed` and `nonce` give at width `eta`.
pub open spec fn noise_seq(seed: Seq<u8>, nonce: int, eta: nat) -> Seq<int> {
    cbd_seq(shake256_spec(prf_input(seed, nonce as u8), 64 * eta), eta)
}

/// The vector of `k` noise polynomials with nonces `offset`, `offset + 1`, …
pub open spec fn noise_vec_seq(seed: Seq<u8>, k: nat, eta: nat, offset: int) -> Seq<Seq<int>> {
    Seq::new(k, |i: int| noise_seq(seed, offset + i, eta))
}

/// The seed of the public matrix: the first half of the digest of `d`.
pub open spec fn keygen_rho(d: Seq<u8>) -> Seq<u8> {
    sha3_512_spec(d).subrange(0, 32)
}

/// The seed of the secret and the noise: the second half of the digest.
pub open spec fn keygen_sigma(d: Seq<u8>) -> Seq<u8> {
    sha3_512_spec(d).subrange(32, 64)
}

/// The transform of the secret vector.
pub open spec fn keygen_s_hat(p: KyberParams, d: Seq<u8>) -> Seq<Seq<int>> {
    ntt_vec_seq(noise_vec_seq(keygen_sigma(d), p.k as nat, p.eta as nat, 0))
}

/// The public vector `A s + e`, in the transform's image.
pub open spec fn keygen_t_hat(p: KyberParams, d: Seq<u8>) -> Seq<Seq<int>> {
    add_vec_seq(
        bcm_matrix_seq(gen_matrix_seq(keygen_rho(d), p.k as nat, false), keygen_s_hat(p, d)),
        ntt_vec_seq(noise_vec_seq(keygen_sigma(d), p.k as nat, p.eta as nat, p.k as int)),
    )
}

/// The public key: the public vector at 12 bits, then the matrix seed.
pub open spec fn cpapke_public_key(p: KyberParams, d: Seq<u8>) -> Seq<u8> {
    encode_vec_seq(keygen_t_hat(p, d), 12, p.k as nat) + keygen_rho(d)
}

/// The secret key: the transform of the secret vector at 12 bits.
pub open spec fn cpapke_secret_key(p: KyberParams, d: Seq<u8>) -> Seq<u8> {
    encode_vec_seq(keygen_s_hat(p, d), 12, p.k as nat)
}

/// What key generation returns on the seed `d`: the public key and the
/// secret key, or why there are none.
pub open spec fn cpapke_keygen_spec(p: KyberParams, d: Seq<u8>) -> Result<
    (Seq<u8>, Seq<u8>),
    KyberError,
> {
    if !supported(p) {
        Err(KyberError::InvalidParams)
    } else if d.len() != 32 {
        Err(KyberError::MalformedInput)
    } else if !gen_matrix_ok(keygen_rho(d), p.k as nat) {
        Err(KyberError::StreamExhausted)
    } else {
        Ok((cpapke_public_key(p, d), cpapke_secret_key(p, d)))
    }
}

/// The public vector read from the public key `pk`.
pub open spec fn pk_t_hat(p: KyberParams, pk: Seq<u8>) -> Seq<Seq<int>> {
    decode_vec_seq(pk.subrange(0, 384 * p.k), 12)
}

/// The matrix seed read from the public key `pk`.
pub open spec fn pk_rho(p: KyberParams, pk: Seq<u8>) -> Seq<u8> {
    pk.subrange(384 * p.k, 384 * p.k + 32)
}

/// The message as a polynomial: coefficient `i` is bit `i` of `m` times
/// `round(q / 2)`.
pub open spec fn message_poly(m: Seq<u8>, q: int) -> Seq<int> {
    decompress_seq(decode_seq(m, 1), 1, q)
}

/// The matrix that the public key `pk` seeds can be sampled, so that
/// encryption under `pk` does not run out of stream.
pub open spec fn key_usable(p: KyberParams, pk: Seq<u8>) -> bool {
    gen_matrix_ok(pk_rho(p, pk), p.k as nat)
}

/// The transform of the vector that masks the message.
pub open spec fn encrypt_r_hat(p: KyberParams, r: Seq<u8>) -> Seq<Seq<int>> {
    ntt_vec_seq(noise_vec_seq(r, p.k as nat, p.eta as nat, 0))
}

/// The vector part of the ciphertext before compression: `A^T r + e1`.
pub open spec fn encrypt_u(p: KyberParams, pk: Seq<u8>, r: Seq<u8>) -> Seq<Seq<int>> {
    add_vec_seq(
        intt_vec_seq(
            bcm_matrix_seq(gen_matrix_seq(pk_rho(p, pk), p.k as nat, true), encrypt_r_hat(p, r)),
        ),
        noise_vec_seq(r, p.k as nat, p.eta as nat, p.k as int),
    )
}

/// The polynomial part of the ciphertext before compression:
/// `t^T r + e2 + decompress(m)`.
pub open spec fn encrypt_v(p: KyberParams, pk: Seq<u8>, m: Seq<u8>, r: Seq<u8>) -> Seq<int> {
    add_seq(
        add_seq(
            intt_seq(bcm_dot_seq(pk_t_hat(p, pk), encrypt_r_hat(p, r), p.k as nat)),
            noise_seq(r, 2 * p.k, p.eta as nat),
        ),
        message_poly(m, p.q as int),
    )
}

/// The ciphertext: the vector part at `du` bits, then the polynomial part at
/// `dv` bits.
pub open spec fn cpapke_ciphertext(p: KyberParams, pk: Seq<u8>, m: Seq<u8>, r: Seq<u8>) -> Seq<
    u8,
> {
    encode_vec_seq(
        compress_vec_seq(encrypt_u(p, pk, r), p.du as nat, p.q as int),
        p.du as nat,
        p.k as nat,
    ) + encode_seq(compress_seq(encrypt_v(p, pk, m, r), p.dv as nat, p.q as int), p.dv as nat)
}

/// What encryption of `m` under `pk` with the coins `r` returns.
pub open spec fn cpapke_encrypt_spec(p: KyberParams, pk: Seq<u8>, m: Seq<u8>, r: Seq<u8>) -> Result<
    Seq<u8>,
    KyberError,
> {
    if !supported(p) {
        Err(KyberError::InvalidParams)
    } else if pk.len() != public_key_len(p) || m.len() != 32 || r.len() != 32 {
        Err(KyberError::MalformedInput)
    } else if !gen_matrix_ok(pk_rho(p, pk), p.k as nat) {
        Err(KyberError::StreamExhausted)
    } else {
        Ok(cpapke_ciphertext(p, pk, m, r))
    }
}

/// The vector part read back from the ciphertext `c`.
pub open spec fn decrypt_u(p: KyberParams, c: Seq<u8>) -> Seq<Seq<int>> {
    decompress_vec_seq(
        decode_vec_seq(c.subrange(0, 32 * p.du * p.k), p.du as nat),
        p.du as nat,
        p.q as int,
    )
}

/// The polynomial part read back from the ciphertext `c`.
pub open spec fn decrypt_v(p: KyberParams, c: Seq<u8>) -> Seq<int> {
    decompress_seq(
        decode_seq(c.subrange(32 * p.du * p.k, c.len() as int), p.dv as nat),
        p.dv as nat,
        p.q as int,
    )
}

/// What decryption sees before it rounds: `v - s^T u`, the message
/// polynomial plus noise.
pub open spec fn decrypt_raw(p: KyberParams, sk: Seq<u8>, c: Seq<u8>) -> Seq<int> {
    sub_seq(
        decrypt_v(p, c),
        intt_seq(bcm_dot_seq(decode_vec_seq(sk, 12), ntt_vec_seq(decrypt_u(p, c)), p.k as nat)),
    )
}

/// The message: `v - s^T u` rounded to one bit per coefficient.
pub open spec fn cpapke_message(p: KyberParams, sk: Seq<u8>, c: Seq<u8>) -> Seq<u8> {
    encode_seq(compress_seq(decrypt_raw(p, sk, c), 1, p.q as int), 1)
}

/// What decryption of `c` under `sk` returns.
pub open spec fn cpapke_decrypt_spec(p: KyberParams, sk: Seq<u8>, c: Seq<u8>) -> Result<
    Seq<u8>,
    KyberError,
> {
    if !supported(p) {
        Err(KyberError::InvalidParams)
    } else if sk.len() != 384 * p.k || c.len() != ciphertext_len(p) {
        Err(KyberError::MalformedInput)
    } else {
        Ok(cpapke_message(p, sk, c))
    }
}

/// The seed of the entry in row `i` and column `j`.
pub open spec fn entry_seed(rho: Seq<u8>, i: int, j: int, transposed: bool) -> Seq<u8> {
    if transposed {
        xof_input(rho, i as u8, j as u8)
    } else {
        xof_input(rho, j as u8, i as u8)
    }
}

/// Samples the `k` by `k` matrix seeded by `rho`, or its transpose.
pub fn gen_matrix(rho: &ByteArray, k: usize, transposed: bool) -> (r: Option<PolyMatrix3329>)
    requires
        k < 256,
    ensures
        r is Some <==> gen_matrix_ok(rho@, k as nat),
        r is Some ==> r->Some_0@ == gen_matrix_seq(rho@, k as nat, transposed) && r->Some_0.wf(),
{
    let mut rows: Vec<PolyVec3329> = Vec::new();
    let mut i: usize = 0;
    while i < k
        invariant
            i <= k,
            k < 256,
            rows@.len() == i,
            forall|a: int, b: int|
                0 <= a < i && 0 <= b < k ==> uniform_ok(
                    #[trigger] entry_seed(rho@, a, b, transposed),
                ),
            forall|a: int|
                0 <= a < i ==> (#[trigger] rows@[a])@ == gen_matrix_seq(
                    rho@,
                    k as nat,
                    transposed,
                )[a] && is_module_elem(rows@[a]@),
        decreases k - i,
    {
        let mut row: Vec<Poly3329> = Vec::new();
        let mut j: usize = 0;
        while j < k
            invariant
                j <= k,
                i < k,
                k < 256,
                row@.len() == j,
                forall|b: int|
                    0 <= b < j ==> uniform_ok(#[trigger] entry_seed(rho@, i as int, b, transposed)),
                forall|b: int|
                    0 <= b < j ==> is_ring_elem((#[trigger] row@[b])@) && row@[b]@ == uniform_seq(
                        entry_seed(rho@, i as int, b, transposed),
                    ),
            decreases k - j,
        {
            let entry = if transposed {
                sample_uniform(rho, i as u8, j as u8)
            } else {
                sample_uniform(rho, j as u8, i as u8)
            };
            match entry {
                Some(p) => {
                    row.push(p);
                },
                None => {
                    proof {
                        let seed = entry_seed(rho@, i as int, j as int, transposed);
                        assert(!uniform_ok(seed));
                        if transposed {
                            assert(seed == xof_input(rho@, (i as int) as u8, (j as int) as u8));
                        } else {
                            assert(seed == xof_input(rho@, (j as int) as u8, (i as int) as u8));
                        }
                    }
                    return None;
                },
            }
            j += 1;
        }
        let row_vec = PolyVec3329::from_vec(row);
        assert(row_vec@ =~= gen_matrix_seq(rho@, k as nat, transposed)[i as int]);
        rows.push(row_vec);
        i += 1;
    }
    let m = PolyMatrix3329 { coefficients: rows };
    assert(m@ =~= gen_matrix_seq(rho@, k as nat, transposed));
    assert(m.wf()) by {
        assert forall|a: int| 0 <= a < m@.len() implies (#[trigger] m@[a]).len() == width_seq(m@)
            && is_module_elem(m@[a]) by {
            assert(m@[a] == rows@[a]@);
            assert(m@[0] == rows@[0]@);
        }
    }
    assert(gen_matrix_ok(rho@, k as nat)) by {
        assert forall|a: int, b: int| 0 <= a < k && 0 <= b < k implies uniform_ok(
            #[trigger] xof_input(rho@, b as u8, a as u8),
        ) by {
            if transposed {
                assert(entry_seed(rho@, b, a, transposed) == xof_input(rho@, b as u8, a as u8));
            } else {
                assert(entry_seed(rho@, a, b, transposed) == xof_input(rho@, b as u8, a as u8));
            }
        }
    }
    Some(m)
}

/// Samples `k` noise polynomials of width `eta` from `seed`, with nonces
/// `offset`, `offset + 1`, …
pub fn noise_vec(seed: &ByteArray, k: usize, eta: usize, offset: usize) -> (r: PolyVec3329)
    requires
        offset + k <= 256,
        512 * eta <= usize::MAX,
    ensures
        r.wf(),
        r@ == noise_vec_seq(seed@, k as nat, eta as nat, offset as int),
{
    let mut polys: Vec<Poly3329> = Vec::new();
    let mut i: usize = 0;
    while i < k
        invariant
            i <= k,
            offset + k <= 256,
            512 * eta <= usize::MAX,
            polys@.len() == i,
            forall|a: int|
                0 <= a < i ==> is_ring_elem((#[trigger] polys@[a])@) && polys@[a]@ == noise_seq(
                    seed@,
                    offset + a,
                    eta as nat,
                ),
        decreases k - i,
    {
        polys.push(noise(seed, (offset + i) as u8, eta));
        i += 1;
    }
    let r = PolyVec3329::from_vec(polys);
    assert(r@ =~= noise_vec_seq(seed@, k as nat, eta as nat, offset as int));
    r
}

/// Samples one noise polynomial of width `eta` from `seed` and `nonce`.
pub fn noise(seed: &ByteArray, nonce: u8, eta: usize) -> (r: Poly3329)
    requires
        512 * eta <= usize::MAX,
    ensures
        is_ring_elem(r@),
        r@ == noise_seq(seed@, nonce as int, eta as nat),
{
    let stream = prf(seed, nonce, 64 * eta);
    cbd(&stream, eta)
}

/// Key generation from the seed `d` of 32 bytes: the public key, then the
/// secret key.
pub fn cpapke_keygen(params: KyberParams, d: &ByteArray) -> (r: Result<
    (ByteArray, ByteArray),
    KyberError,
>)
    ensures
        match r {
            Ok(keys) => cpapke_keygen_spec(params, d@) == Ok::<(Seq<u8>, Seq<u8>), KyberError>(
                (keys.0@, keys.1@),
            ),
            Err(e) => cpapke_keygen_spec(params, d@) == Err::<(Seq<u8>, Seq<u8>), KyberError>(e),
        },
        r is Ok ==> r->Ok_0.0@.len() == public_key_len(params) && r->Ok_0.1@.len() == 384
            * params.k && key_usable(params, r->Ok_0.0@),
{
    if !params.is_supported() {
        return Err(KyberError::InvalidParams);
    }
    if d.len() != 32 {
        return Err(KyberError::MalformedInput);
    }
    let k: usize = params.k;
    let (rho, mut sigma) = hash_g(d);
    let a = match gen_matrix(&rho, k, false) {
        Some(a) => a,
        None => {
            sigma.zeroize();
            return Err(KyberError::StreamExhausted);
        },
    };
    let s = noise_vec(&sigma, k, params.eta, 0);
    let e = noise_vec(&sigma, k, params.eta, k);
    sigma.zeroize();
    let s_hat = ntt_vec(&s);
    let e_hat = ntt_vec(&e);
    assert(a@[0].len() == k);
    let t_hat = bcm_matrix_vec(&a, &s_hat).add(&e_hat);
    let pk = encode_polyvec(t_hat, 12).append(&rho);
    let sk = encode_polyvec(s_hat, 12);
    proof {
        lemma_public_key_parts(params, d@);
    }
    Ok((pk, sk))
}

/// Encryption of the 32-byte message `m` under `pk` with the 32 bytes of
/// coins `r`.
pub fn cpapke_encrypt(params: KyberParams, pk: &ByteArray, m: &ByteArray, r: &ByteArray) -> (c:
    Result<ByteArray, KyberError>)
    ensures
        match c {
            Ok(bytes) => cpapke_encrypt_spec(params, pk@, m@, r@) == Ok::<Seq<u8>, KyberError>(
                bytes@,
            ),
            Err(e) => cpapke_encrypt_spec(params, pk@, m@, r@) == Err::<Seq<u8>, KyberError>(e),
        },
        c is Ok ==> c->Ok_0@.len() == ciphertext_len(params),
{
    if !params.is_supported() {
        return Err(KyberError::InvalidParams);
    }
    let k: usize = params.k;
    if pk.len() != 384 * k + 32 || m.len() != 32 || r.len() != 32 {
        return Err(KyberError::MalformedInput);
    }
    let (t_bytes, rho) = pk.split_at(384 * k);
    assert(rho@ =~= pk_rho(params, pk@));
    assert(t_bytes@.len() / (32 * 12) == k) by {
        assert(t_bytes@.len() == 384 * k);
        if k == 2 {
            assert(768int / 384 == 2);
        } else {
            assert(k == 3);
            assert(1152int / 384 == 3);
        }
    }
    let t_hat = decode_to_polyvec(t_bytes, 12);
    assert(t_hat@.len() == k);
    assert(t_hat@ == pk_t_hat(params, pk@));
    let at = match gen_matrix(&rho, k, true) {
        Some(at) => at,
        None => {
            return Err(KyberError::StreamExhausted);
        },
    };
    let r_vec = noise_vec(r, k, params.eta, 0);
    let e1 = noise_vec(r, k, params.eta, k);
    let e2 = noise(r, (2 * k) as u8, params.eta);
    let r_hat = ntt_vec(&r_vec);
    assert(at@[0].len() == k);
    let u = rev_ntt_vec(&bcm_matrix_vec(&at, &r_hat)).add(&e1);
    let message = decompress_poly(decode_to_poly(m.clone(), 1), 1, params.q);
    let v = rev_ntt(&bcm_vec(&t_hat, &r_hat)).add(&e2).add(&message);
    let c1 = encode_polyvec(compress_polyvec(u, params.du, params.q), params.du);
    let c2 = encode_poly(compress_poly(v, params.dv, params.q), params.dv);
    Ok(c1.append(&c2))
}

/// Decryption of the ciphertext `c` under the secret key `sk`: the 32-byte
/// message.
pub fn cpapke_decrypt(params: KyberParams, sk: &ByteArray, c: &ByteArray) -> (m: Result<
    ByteArray,
    KyberError,
>)
    ensures
        match m {
            Ok(bytes) => cpapke_decrypt_spec(params, sk@, c@) == Ok::<Seq<u8>, KyberError>(bytes@),
            Err(e) => cpapke_decrypt_spec(params, sk@, c@) == Err::<Seq<u8>, KyberError>(e),
        },
        m is Ok ==> m->Ok_0@.len() == 32,
{
    if !params.is_supported() {
        return Err(KyberError::InvalidParams);
    }
    let k: usize = params.k;
    assert(32 * params.du * k == 320 * k) by (nonlinear_arith)
        requires
            params.du == 10,
    ;
    if sk.len() != 384 * k || c.len() != 32 * params.du * k + 32 * params.dv {
        return Err(KyberError::MalformedInput);
    }
    let (c1, c2) = c.split_at(32 * params.du * k);
    assert(c1@.len() / (32 * 10) == k && sk@.len() / (32 * 12) == k) by {
        assert(c1@.len() == 320 * k && sk@.len() == 384 * k);
        if k == 2 {
            assert(640int / 320 == 2 && 768int / 384 == 2);
        } else {
            assert(k == 3);
            assert(960int / 320 == 3 && 1152int / 384 == 3);
        }
    }
    let u = decompress_polyvec(decode_to_polyvec(c1, params.du), params.du, params.q);
    assert(u@.len() == k);
    let v = decompress_poly(decode_to_poly(c2, params.dv), params.dv, params.q);
    let s_hat = decode_to_polyvec(sk.clone(), 12);
    assert(s_hat@.len() == k);
    let inner = rev_ntt(&bcm_vec(&s_hat, &ntt_vec(&u)));
    let noisy = v.sub(&inner);
    Ok(encode_poly(compress_poly(noisy, 1, params.q), 1))
}

/// A residue within 831 of `1665 b` rounds to the bit `b`.
proof fn lemma_round_bit(x: int, b: int)
    requires
        0 <= x < 3329,
        b == 0 || b == 1,
        residue_distance(x, 1665 * b, 3329) <= 831,
    ensures
        ((4 * x + 3329) / 6658) % 2 == b,
{
    let up = (x - 1665 * b) % 3329;
    let down = (1665 * b - x) % 3329;
    if x >= 1665 * b {
        lemma_small_mod((x - 1665 * b) as nat, 3329);
        if x > 1665 * b {
            lemma_fundamental_div_mod_converse(1665 * b - x, 3329, -1, 3329 + 1665 * b - x);
        }
    } else {
        lemma_small_mod((1665 * b - x) as nat, 3329);
        lemma_fundamental_div_mod_converse(x - 1665 * b, 3329, -1, 3329 + x - 1665 * b);
    }
}

/// Decryption is correct within the decoding radius: where every
/// coefficient that decryption sees before rounding lies within 831 of the
/// corresponding coefficient of the message polynomial, measured around the
/// circle of residues, decryption returns the message.
pub proof fn lemma_decrypt_within_radius(p: KyberParams, sk: Seq<u8>, c: Seq<u8>, m: Seq<u8>)
    requires
        p.q == 3329,
        m.len() == 32,
        forall|i: int|
            0 <= i < 256 ==> residue_distance(
                #[trigger] decrypt_raw(p, sk, c)[i],
                message_poly(m, 3329)[i],
                3329,
            ) <= 831,
    ensures
        cpapke_message(p, sk, c) == m,
{
    let raw = decrypt_raw(p, sk, c);
    let bits = decode_seq(m, 1);
    let rounded = compress_seq(raw, 1, 3329);
    lemma2_to64();
    assert forall|i: int| 0 <= i < 256 implies rounded[i] == bits[i] by {
        let x = raw[i];
        let b: int = if bit_at(m, i) {
            1
        } else {
            0
        };
        // the bit read from the message
        assert(dec_coeff(m, 1, i, 0) == 0);
        assert(i * 1 + 1 - 1 == i);
        assert(dec_coeff(m, 1, i, 1) == b);
        assert(bits[i] == b);
        // its place in the message polynomial
        assert(decompress_int(b, 1, 3329) == 1665 * b) by {
            assert(vstd::arithmetic::power2::pow2(1) == 2);
            if b == 0 {
                assert(3329 * b == 0);
                assert((2 * 0 + 2) / (2 * 2) == 0int);
            } else {
                assert(3329 * b == 3329);
                assert((2 * 3329 + 2) / (2 * 2) == 1665int);
            }
        }
        assert(message_poly(m, 3329)[i] == 1665 * b);
        // what decryption sees is a canonical representative
        lemma_mod_bound(
            decrypt_v(p, c)[i] - intt_seq(
                bcm_dot_seq(decode_vec_seq(sk, 12), ntt_vec_seq(decrypt_u(p, c)), p.k as nat),
            )[i],
            3329,
        );
        assert(0 <= x < 3329);
        assert(residue_distance(raw[i], message_poly(m, 3329)[i], 3329) <= 831);
        lemma_round_bit(x, b);
        assert(x * 2 == 2 * x);
        assert(compress_int(x, 1, 3329) == ((4 * x + 3329) / 6658) % 2);
    }
    assert(rounded =~= bits);
    lemma_encode_decode(m, 1);
}

/// The matrix sampled for encryption is the transpose of the matrix sampled
/// for key generation.
pub proof fn lemma_matrix_transposed(rho: Seq<u8>, k: nat)
    requires
        k > 0,
    ensures
        transpose_seq(gen_matrix_seq(rho, k, false)) == gen_matrix_seq(rho, k, true),
{
    let a = gen_matrix_seq(rho, k, false);
    let at = gen_matrix_seq(rho, k, true);
    let t = transpose_seq(a);
    assert(a[0].len() == k);
    assert(t.len() == k);
    assert forall|i: int| 0 <= i < k implies t[i] == at[i] by {
        assert(t[i] =~= at[i]);
    }
    assert(t =~= at);
}

/// A dot product of transforms is an element of R_q.
pub proof fn lemma_bcm_dot_ring_elem(a: Seq<Seq<int>>, b: Seq<Seq<int>>, m: nat)
    ensures
        is_ring_elem(bcm_dot_seq(a, b, m)),
    decreases m,
{
    if m > 0 {
        lemma_bcm_dot_ring_elem(a, b, (m - 1) as nat);
        let sum = bcm_dot_seq(a, b, m);
        assert forall|t: int| 0 <= t < sum.len() implies is_reduced(#[trigger] sum[t]) by {
            lemma_mod_bound(
                bcm_dot_seq(a, b, (m - 1) as nat)[t] + bcm_seq(a[m - 1], b[m - 1])[t],
                crate::field::q(),
            );
        }
    }
}

/// The public vector of a generated key is a vector of `k` elements of R_q.
proof fn lemma_t_hat_module_elem(p: KyberParams, d: Seq<u8>)
    ensures
        keygen_t_hat(p, d).len() == p.k,
        is_module_elem(keygen_t_hat(p, d)),
{
    let t = keygen_t_hat(p, d);
    let a = gen_matrix_seq(keygen_rho(d), p.k as nat, false);
    let s = keygen_s_hat(p, d);
    let e = ntt_vec_seq(noise_vec_seq(keygen_sigma(d), p.k as nat, p.eta as nat, p.k as int));
    let prod = bcm_matrix_seq(a, s);
    assert forall|i: int| 0 <= i < t.len() implies is_ring_elem(#[trigger] t[i]) by {
        lemma_bcm_dot_ring_elem(a[i], s, s.len());
        assert(t[i] == add_seq(prod[i], e[i]));
        assert forall|j: int| 0 <= j < t[i].len() implies is_reduced(#[trigger] t[i][j]) by {
            lemma_mod_bound(prod[i][j] + e[i][j], crate::field::q());
        }
    }
}

/// Reading a generated public key gives back the public vector and the
/// matrix seed that key generation wrote.
pub proof fn lemma_public_key_parts(p: KyberParams, d: Seq<u8>)
    requires
        cpapke_public_key(p, d).len() == public_key_len(p),
    ensures
        pk_t_hat(p, cpapke_public_key(p, d)) == keygen_t_hat(p, d),
        pk_rho(p, cpapke_public_key(p, d)) == keygen_rho(d),
{
    let pk = cpapke_public_key(p, d);
    let t = keygen_t_hat(p, d);
    let enc = encode_vec_seq(t, 12, p.k as nat);
    lemma_t_hat_module_elem(p, d);
    lemma_encode_vec_len(t, 12, p.k as nat);
    assert(32 * 12 * p.k == 384 * p.k) by (nonlinear_arith);
    assert(pk.subrange(0, 384 * p.k) =~= enc);
    assert(pk.subrange(384 * p.k, 384 * p.k + 32) =~= keygen_rho(d));
    lemma2_to64();
    assert(vstd::arithmetic::power2::pow2(12) == 4096);
    assert forall|i: int, j: int| 0 <= i < t.len() && 0 <= j < 256 implies #[trigger] t[i][j]
        < vstd::arithmetic::power2::pow2(12) by {
        assert(is_ring_elem(t[i]));
        assert(is_reduced(t[i][j]));
    }
    lemma_decode_encode_vec(t, 12);
}

/// Compressed coefficients fit in `d` bits and are canonical, for widths up
/// to 11.
proof fn lemma_compress_seq_range(a: Seq<int>, d: nat, q: int, j: int)
    requires
        d <= 11,
        q > 0,
        0 <= j < a.len(),
    ensures
        0 <= compress_seq(a, d, q)[j] < vstd::arithmetic::power2::pow2(d),
        is_reduced(compress_seq(a, d, q)[j]),
        compress_seq(a, d, q)[j] == compress_int(a[j], d, q),
{
    let m = vstd::arithmetic::power2::pow2(d) as int;
    vstd::arithmetic::power2::lemma_pow2_pos(d);
    lemma2_to64();
    if d < 11 {
        vstd::arithmetic::power2::lemma_pow2_strictly_increases(d, 11);
    }
    let raw = compress_int(a[j], d, q);
    lemma_mod_bound(crate::compress::round_half_up(a[j] * m, q), m);
    lemma_small_mod(raw as nat, 3329);
}

/// Reading a ciphertext gives back what encryption computed, compressed and
/// expanded again.
pub proof fn lemma_ciphertext_parts(p: KyberParams, pk: Seq<u8>, m: Seq<u8>, r: Seq<u8>)
    requires
        supported(p),
    ensures
        decrypt_u(p, cpapke_ciphertext(p, pk, m, r)) == decompress_vec_seq(
            compress_vec_seq(encrypt_u(p, pk, r), p.du as nat, p.q as int),
            p.du as nat,
            p.q as int,
        ),
        decrypt_v(p, cpapke_ciphertext(p, pk, m, r)) == decompress_seq(
            compress_seq(encrypt_v(p, pk, m, r), p.dv as nat, p.q as int),
            p.dv as nat,
            p.q as int,
        ),
{
    let c = cpapke_ciphertext(p, pk, m, r);
    let u = encrypt_u(p, pk, r);
    let v = encrypt_v(p, pk, m, r);
    let cu = compress_vec_seq(u, p.du as nat, p.q as int);
    let cv = compress_seq(v, p.dv as nat, p.q as int);
    let c1 = encode_vec_seq(cu, p.du as nat, p.k as nat);
    let c2 = encode_seq(cv, p.dv as nat);
    lemma_encode_vec_len(cu, p.du as nat, p.k as nat);
    assert(32 * p.du * p.k == 320 * p.k) by (nonlinear_arith)
        requires
            p.du == 10,
    ;
    assert(c.subrange(0, 32 * p.du * p.k) =~= c1);
    assert(c.subrange(32 * p.du * p.k, c.len() as int) =~= c2);
    // the vector part
    assert(u.len() == p.k);
    assert(cu.len() == p.k);
    assert forall|i: int| 0 <= i < cu.len() implies is_ring_elem(#[trigger] cu[i]) by {
        assert(u[i].len() == 256) by {
            let at = gen_matrix_seq(pk_rho(p, pk), p.k as nat, true);
            let prod = bcm_matrix_seq(at, encrypt_r_hat(p, r));
            assert(intt_vec_seq(prod)[i] == intt_seq(prod[i]));
        }
        assert forall|j: int| 0 <= j < cu[i].len() implies is_reduced(#[trigger] cu[i][j]) by {
            lemma_compress_seq_range(u[i], p.du as nat, p.q as int, j);
        }
    }
    assert forall|i: int, j: int| 0 <= i < cu.len() && 0 <= j < 256 implies #[trigger] cu[i][j]
        < vstd::arithmetic::power2::pow2(p.du as nat) by {
        assert(is_ring_elem(cu[i]));
        lemma_compress_seq_range(u[i], p.du as nat, p.q as int, j);
    }
    lemma_decode_encode_vec(cu, p.du as nat);
    // the polynomial part
    assert(v.len() == 256) by {
        lemma_bcm_dot_ring_elem(pk_t_hat(p, pk), encrypt_r_hat(p, r), p.k as nat);
    }
    assert forall|j: int| 0 <= j < 256 implies is_reduced(#[trigger] cv[j]) && cv[j]
        < vstd::arithmetic::power2::pow2(p.dv as nat) by {
        lemma_compress_seq_range(v, p.dv as nat, p.q as int, j);
    }
    lemma_decode_encode(cv, p.dv as nat);
}

/// Reducing one side modulo `q` does not change the distance of residues.
proof fn lemma_distance_of_residue(a: int, b: int, q: int)
    requires
        q > 0,
    ensures
        residue_distance(a % q, b, q) == residue_distance(a, b, q),
{
    vstd::arithmetic::div_mod::lemma_sub_mod_noop(a, b, q);
    vstd::arithmetic::div_mod::lemma_sub_mod_noop(a % q, b, q);
    vstd::arithmetic::div_mod::lemma_sub_mod_noop(b, a, q);
    vstd::arithmetic::div_mod::lemma_sub_mod_noop(b, a % q, q);
    vstd::arithmetic::div_mod::lemma_mod_twice(a, q);
}

/// What decryption reads back from a ciphertext lies, coefficient by
/// coefficient, within the compression radius of what encryption computed:
/// `ceil(q / 2^(du + 1))` for the vector part and `ceil(q / 2^(dv + 1))` for
/// the polynomial part.
pub proof fn lemma_read_back_close(
    p: KyberParams,
    pk: Seq<u8>,
    m: Seq<u8>,
    r: Seq<u8>,
    i: int,
    j: int,
)
    requires
        supported(p),
        0 <= i < p.k,
        0 <= j < 256,
    ensures
        residue_distance(
            decrypt_u(p, cpapke_ciphertext(p, pk, m, r))[i][j],
            encrypt_u(p, pk, r)[i][j],
            3329,
        ) <= crate::compress::compress_radius(p.du as nat, 3329),
        residue_distance(
            decrypt_v(p, cpapke_ciphertext(p, pk, m, r))[j],
            encrypt_v(p, pk, m, r)[j],
            3329,
        ) <= crate::compress::compress_radius(p.dv as nat, 3329),
{
    let u = encrypt_u(p, pk, r);
    let v = encrypt_v(p, pk, m, r);
    lemma_ciphertext_parts(p, pk, m, r);
    // the vector part
    let at = gen_matrix_seq(pk_rho(p, pk), p.k as nat, true);
    let prod = intt_vec_seq(bcm_matrix_seq(at, encrypt_r_hat(p, r)));
    let e1 = noise_vec_seq(r, p.k as nat, p.eta as nat, p.k as int);
    assert(u[i] == add_seq(prod[i], e1[i]));
    assert(prod[i] == intt_seq(bcm_matrix_seq(at, encrypt_r_hat(p, r))[i]));
    let x = u[i][j];
    lemma_mod_bound(prod[i][j] + e1[i][j], 3329);
    lemma_compress_seq_range(u[i], p.du as nat, 3329, j);
    let cx = compress_int(x, p.du as nat, 3329);
    crate::compress::lemma_compress_decompress_close(x, p.du as nat, 3329);
    lemma_distance_of_residue(decompress_int(cx, p.du as nat, 3329), x, 3329);
    // the polynomial part
    lemma_bcm_dot_ring_elem(pk_t_hat(p, pk), encrypt_r_hat(p, r), p.k as nat);
    let w = add_seq(
        intt_seq(bcm_dot_seq(pk_t_hat(p, pk), encrypt_r_hat(p, r), p.k as nat)),
        noise_seq(r, 2 * p.k, p.eta as nat),
    );
    let y = v[j];
    lemma_mod_bound(w[j] + message_poly(m, 3329)[j], 3329);
    lemma_compress_seq_range(v, p.dv as nat, 3329, j);
    let cy = compress_int(y, p.dv as nat, 3329);
    crate::compress::lemma_compress_decompress_close(y, p.dv as nat, 3329);
    lemma_distance_of_residue(decompress_int(cy, p.dv as nat, 3329), y, 3329);
}

} // verus!
