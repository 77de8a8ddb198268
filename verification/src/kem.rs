//! The key encapsulation mechanism: the encryption scheme wrapped so that a
//! ciphertext that was not made by encapsulation yields an unrelated key
//! instead of an error.

use vstd::prelude::*;
use crate::bytearray::ByteArray;
use crate::error::KyberError;
use crate::hash::{hash_g, hash_h, kdf, sha3_256_spec, sha3_512_spec, shake256_spec};
use crate::params::{KyberParams, supported, public_key_len, secret_key_len, ciphertext_len};
use crate::encode::lemma_encode_vec_len;
use crate::pke::{
    cpapke_decrypt, cpapke_encrypt, cpapke_keygen, cpapke_encrypt_spec, cpapke_keygen_spec,
    cpapke_message, cpapke_secret_key, cpapke_ciphertext, encrypt_u, decrypt_raw, message_poly,
    gen_matrix_ok, keygen_rho, key_usable, lemma_decrypt_within_radius, lemma_public_key_parts,
};
use crate::compress::{compress_vec_seq, residue_distance};

verus! {

/// The secret key of the mechanism: the secret key of the encryption
/// scheme, the public key, its digest, and the rejection secret `z`.
pub open spec fn kem_secret_key(sk_cpa: Seq<u8>, pk: Seq<u8>, z: Seq<u8>) -> Seq<u8> {
    sk_cpa + pk + sha3_256_spec(pk) + z
}

/// What key generation returns on the seeds `d` and `z`: the secret key and
/// the public key, or why there are none.
pub open spec fn kem_keygen_spec(p: KyberParams, d: Seq<u8>, z: Seq<u8>) -> Result<
    (Seq<u8>, Seq<u8>),
    KyberError,
> {
    if !supported(p) {
        Err(KyberError::InvalidParams)
    } else if d.len() != 32 || z.len() != 32 {
        Err(KyberError::MalformedInput)
    } else {
        match cpapke_keygen_spec(p, d) {
            Ok(keys) => Ok((kem_secret_key(keys.1, keys.0, z), keys.0)),
            Err(e) => Err(e),
        }
    }
}

/// The message that is encrypted: the digest of the random bytes `m`.
pub open spec fn encaps_message(m: Seq<u8>) -> Seq<u8> {
    sha3_256_spec(m)
}

/// The pre-key: the first half of the digest of the message and the public
/// key's digest `h`.
pub open spec fn pre_key(message: Seq<u8>, h: Seq<u8>) -> Seq<u8> {
    sha3_512_spec(message + h).subrange(0, 32)
}

/// The coins of the encryption: the second half of that digest.
pub open spec fn coins(message: Seq<u8>, h: Seq<u8>) -> Seq<u8> {
    sha3_512_spec(message + h).subrange(32, 64)
}

/// The shared key derived from the 32 bytes `head` and the ciphertext `c`.
pub open spec fn shared_key(head: Seq<u8>, c: Seq<u8>) -> Seq<u8> {
    shake256_spec(head + sha3_256_spec(c), 32)
}

/// What encapsulation under `pk` returns on the random bytes `m`: the
/// ciphertext and the shared key.
pub open spec fn kem_encapsulate_spec(p: KyberParams, pk: Seq<u8>, m: Seq<u8>) -> Result<
    (Seq<u8>, Seq<u8>),
    KyberError,
> {
    if !supported(p) {
        Err(KyberError::InvalidParams)
    } else if pk.len() != public_key_len(p) || m.len() != 32 {
        Err(KyberError::MalformedInput)
    } else {
        let message = encaps_message(m);
        let h = sha3_256_spec(pk);
        match cpapke_encrypt_spec(p, pk, message, coins(message, h)) {
            Ok(c) => Ok((c, shared_key(pre_key(message, h), c))),
            Err(e) => Err(e),
        }
    }
}

/// The secret key of the encryption scheme inside `sk`.
pub open spec fn sk_cpa_part(p: KyberParams, sk: Seq<u8>) -> Seq<u8> {
    sk.subrange(0, 384 * p.k)
}

/// The public key inside `sk`.
pub open spec fn sk_pk_part(p: KyberParams, sk: Seq<u8>) -> Seq<u8> {
    sk.subrange(384 * p.k, 384 * p.k + public_key_len(p))
}

/// The digest of the public key inside `sk`.
pub open spec fn sk_h_part(p: KyberParams, sk: Seq<u8>) -> Seq<u8> {
    sk.subrange(384 * p.k + public_key_len(p), 384 * p.k + public_key_len(p) + 32)
}

/// The rejection secret inside `sk`.
pub open spec fn sk_z_part(p: KyberParams, sk: Seq<u8>) -> Seq<u8> {
    sk.subrange(384 * p.k + public_key_len(p) + 32, 384 * p.k + public_key_len(p) + 64)
}

/// The message that decapsulation decrypts from `c`.
pub open spec fn decaps_message(p: KyberParams, c: Seq<u8>, sk: Seq<u8>) -> Seq<u8> {
    cpapke_message(p, sk_cpa_part(p, sk), c)
}

/// What encrypting that message again gives.
pub open spec fn reencryption(p: KyberParams, c: Seq<u8>, sk: Seq<u8>) -> Result<
    Seq<u8>,
    KyberError,
> {
    let message = decaps_message(p, c, sk);
    cpapke_encrypt_spec(p, sk_pk_part(p, sk), message, coins(message, sk_h_part(p, sk)))
}

/// What decapsulation of `c` under `sk` returns: the key of the
/// encapsulation where encrypting the decrypted message again gives `c`,
/// and the key derived from the rejection secret where it gives something
/// else.
pub open spec fn kem_decapsulate_spec(p: KyberParams, c: Seq<u8>, sk: Seq<u8>) -> Result<
    Seq<u8>,
    KyberError,
> {
    if !supported(p) {
        Err(KyberError::InvalidParams)
    } else if sk.len() != secret_key_len(p) || c.len() != ciphertext_len(p) {
        Err(KyberError::MalformedInput)
    } else {
        match reencryption(p, c, sk) {
            Ok(again) => if again == c {
                Ok(shared_key(pre_key(decaps_message(p, c, sk), sk_h_part(p, sk)), c))
            } else {
                Ok(shared_key(sk_z_part(p, sk), c))
            },
            Err(e) => Err(e),
        }
    }
}

/// `0xff` where `a` and `b` hold the same bytes and `0x00` where they do
/// not. Every byte is read whatever the outcome.
pub fn ct_equal(a: &ByteArray, b: &ByteArray) -> (mask: u8)
    requires
        a@.len() == b@.len(),
    ensures
        mask == (if a@ == b@ { 0xffu8 } else { 0x00u8 }),
{
    let n: usize = a.len();
    let mut diff: u8 = 0;
    let mut i: usize = 0;
    assert(a@.subrange(0, 0) =~= b@.subrange(0, 0));
    while i < n
        invariant
            i <= n,
            n == a@.len(),
            n == b@.len(),
            diff == 0 <==> a@.subrange(0, i as int) == b@.subrange(0, i as int),
        decreases n - i,
    {
        let x: u8 = a.data[i];
        let y: u8 = b.data[i];
        let ghost before = diff;
        diff = diff | (x ^ y);
        proof {
            assert((before | (x ^ y)) == 0 <==> (before == 0 && x == y)) by (bit_vector);
            let pa = a@.subrange(0, i as int);
            let pb = b@.subrange(0, i as int);
            let qa = a@.subrange(0, i + 1);
            let qb = b@.subrange(0, i + 1);
            assert(qa =~= pa.push(x));
            assert(qb =~= pb.push(y));
            if qa == qb {
                assert(qa[i as int] == qb[i as int]);
                assert(pa =~= qa.subrange(0, i as int));
                assert(pb =~= qb.subrange(0, i as int));
            }
        }
        i += 1;
    }
    assert(a@.subrange(0, n as int) =~= a@);
    assert(b@.subrange(0, n as int) =~= b@);
    let nonzero: u16 = (diff as u16 + 255) / 256;
    ((1 - nonzero) * 255) as u8
}

/// The bytes of `a` where `mask` is `0xff` and those of `b` where it is
/// `0x00`, chosen byte by byte without a branch.
pub fn ct_select(a: &ByteArray, b: &ByteArray, mask: u8) -> (r: ByteArray)
    requires
        a@.len() == b@.len(),
        mask == 0xff || mask == 0x00,
    ensures
        r@ == (if mask == 0xff { a@ } else { b@ }),
{
    let n: usize = a.len();
    let mut out: Vec<u8> = Vec::new();
    let mut i: usize = 0;
    while i < n
        invariant
            i <= n,
            n == a@.len(),
            n == b@.len(),
            mask == 0xff || mask == 0x00,
            out@.len() == i,
            forall|j: int|
                0 <= j < i ==> #[trigger] out@[j] == (if mask == 0xff { a@[j] } else { b@[j] }),
        decreases n - i,
    {
        let x: u8 = a.data[i];
        let y: u8 = b.data[i];
        assert((y ^ (0xffu8 & (x ^ y))) == x) by (bit_vector);
        assert((y ^ (0x00u8 & (x ^ y))) == y) by (bit_vector);
        out.push(y ^ (mask & (x ^ y)));
        i += 1;
    }
    let r = ByteArray { data: out };
    assert(r@ =~= (if mask == 0xff { a@ } else { b@ }));
    r
}

/// Key generation from the two seeds: `d` for the encryption scheme and `z`
/// for implicit rejection. Returns the secret key, then the public key.
pub fn kem_keygen_from(params: KyberParams, d: &ByteArray, z: &ByteArray) -> (r: Result<
    (ByteArray, ByteArray),
    KyberError,
>)
    ensures
        match r {
            Ok(keys) => kem_keygen_spec(params, d@, z@) == Ok::<(Seq<u8>, Seq<u8>), KyberError>(
                (keys.0@, keys.1@),
            ),
            Err(e) => kem_keygen_spec(params, d@, z@) == Err::<(Seq<u8>, Seq<u8>), KyberError>(e),
        },
        r is Ok <==> supported(params) && d@.len() == 32 && z@.len() == 32 && gen_matrix_ok(
            keygen_rho(d@),
            params.k as nat,
        ),
        r is Ok ==> r->Ok_0.0@.len() == secret_key_len(params) && r->Ok_0.1@.len()
            == public_key_len(params) && sk_pk_part(params, r->Ok_0.0@) == r->Ok_0.1@
            && key_usable(params, r->Ok_0.1@),
{
    if !params.is_supported() {
        return Err(KyberError::InvalidParams);
    }
    if d.len() != 32 || z.len() != 32 {
        return Err(KyberError::MalformedInput);
    }
    match cpapke_keygen(params, d) {
        Ok((pk, sk_cpa)) => {
            let h = hash_h(&pk);
            let sk = sk_cpa.append(&pk).append(&h).append(z);
            proof {
                lemma_public_key_parts(params, d@);
                assert(sk_pk_part(params, sk@) =~= pk@);
            }
            Ok((sk, pk))
        },
        Err(e) => Err(e),
    }
}

/// Key generation with fresh random seeds. Returns the secret key, then the
/// public key: what `kem_keygen_from` gives on some two seeds of 32 bytes.
pub fn kem_keygen(params: KyberParams) -> (r: Result<(ByteArray, ByteArray), KyberError>)
    ensures
        exists|d: Seq<u8>, z: Seq<u8>|
            d.len() == 32 && z.len() == 32 && match r {
                Ok(keys) => #[trigger] kem_keygen_spec(params, d, z) == Ok::<
                    (Seq<u8>, Seq<u8>),
                    KyberError,
                >((keys.0@, keys.1@)),
                Err(e) => kem_keygen_spec(params, d, z) == Err::<(Seq<u8>, Seq<u8>), KyberError>(
                    e,
                ),
            },
        r is Ok ==> r->Ok_0.0@.len() == secret_key_len(params) && r->Ok_0.1@.len()
            == public_key_len(params) && sk_pk_part(params, r->Ok_0.0@) == r->Ok_0.1@
            && key_usable(params, r->Ok_0.1@),
        !supported(params) <==> r == Err::<(ByteArray, ByteArray), KyberError>(
            KyberError::InvalidParams,
        ),
{
    let mut z = ByteArray::random(32);
    let mut d = ByteArray::random(32);
    let keys = kem_keygen_from(params, &d, &z);
    d.zeroize();
    z.zeroize();
    keys
}

/// Encapsulation under `pk` from the 32 random bytes `m`. Returns the
/// ciphertext, then the shared key.
pub fn kem_encapsulate_from(params: KyberParams, pk: &ByteArray, m: &ByteArray) -> (r: Result<
    (ByteArray, ByteArray),
    KyberError,
>)
    ensures
        match r {
            Ok(out) => kem_encapsulate_spec(params, pk@, m@) == Ok::<
                (Seq<u8>, Seq<u8>),
                KyberError,
            >((out.0@, out.1@)),
            Err(e) => kem_encapsulate_spec(params, pk@, m@) == Err::<
                (Seq<u8>, Seq<u8>),
                KyberError,
            >(e),
        },
        r is Ok <==> supported(params) && pk@.len() == public_key_len(params) && m@.len() == 32
            && key_usable(params, pk@),
        r is Ok ==> r->Ok_0.0@.len() == ciphertext_len(params) && r->Ok_0.1@.len() == 32,
{
    if !params.is_supported() {
        return Err(KyberError::InvalidParams);
    }
    if pk.len() != 384 * params.k + 32 || m.len() != 32 {
        return Err(KyberError::MalformedInput);
    }
    let mut message = hash_h(m);
    let h = hash_h(pk);
    let mut seed = message.append(&h);
    let (mut k_bar, mut r) = hash_g(&seed);
    let out = match cpapke_encrypt(params, pk, &message, &r) {
        Ok(c) => {
            let mut head = k_bar.append(&hash_h(&c));
            let key = kdf(&head);
            head.zeroize();
            Ok((c, key))
        },
        Err(e) => Err(e),
    };
    message.zeroize();
    seed.zeroize();
    k_bar.zeroize();
    r.zeroize();
    out
}

/// Encapsulation under `pk` with fresh random bytes. Returns the ciphertext,
/// then the shared key: what `kem_encapsulate_from` gives on some 32 bytes.
pub fn kem_encapsulate(params: KyberParams, pk: &ByteArray) -> (r: Result<
    (ByteArray, ByteArray),
    KyberError,
>)
    ensures
        exists|m: Seq<u8>|
            m.len() == 32 && match r {
                Ok(out) => #[trigger] kem_encapsulate_spec(params, pk@, m) == Ok::<
                    (Seq<u8>, Seq<u8>),
                    KyberError,
                >((out.0@, out.1@)),
                Err(e) => kem_encapsulate_spec(params, pk@, m) == Err::<
                    (Seq<u8>, Seq<u8>),
                    KyberError,
                >(e),
            },
        r is Ok <==> supported(params) && pk@.len() == public_key_len(params) && key_usable(
            params,
            pk@,
        ),
        r is Ok ==> r->Ok_0.0@.len() == ciphertext_len(params) && r->Ok_0.1@.len() == 32,
{
    let mut m = ByteArray::random(32);
    let out = kem_encapsulate_from(params, pk, &m);
    m.zeroize();
    out
}

/// Decapsulation of `c` under `sk`: the shared key. A ciphertext that
/// encapsulation did not make is no error; it gives the key derived from the
/// rejection secret.
pub fn kem_decapsulate(params: KyberParams, c: &ByteArray, sk: &ByteArray) -> (r: Result<
    ByteArray,
    KyberError,
>)
    ensures
        match r {
            Ok(key) => kem_decapsulate_spec(params, c@, sk@) == Ok::<Seq<u8>, KyberError>(key@),
            Err(e) => kem_decapsulate_spec(params, c@, sk@) == Err::<Seq<u8>, KyberError>(e),
        },
        r is Ok <==> supported(params) && sk@.len() == secret_key_len(params) && c@.len()
            == ciphertext_len(params) && key_usable(params, sk_pk_part(params, sk@)),
        r is Ok ==> r->Ok_0@.len() == 32,
{
    if !params.is_supported() {
        return Err(KyberError::InvalidParams);
    }
    let k: usize = params.k;
    assert(32 * params.du * k == 320 * k) by (nonlinear_arith)
        requires
            params.du == 10,
    ;
    if sk.len() != 768 * k + 96 || c.len() != 32 * params.du * k + 32 * params.dv {
        return Err(KyberError::MalformedInput);
    }
    let (mut sk_cpa, mut after_cpa) = sk.split_at(384 * k);
    let (pk, mut after_pk) = after_cpa.split_at(384 * k + 32);
    let (h, mut z) = after_pk.split_at(32);
    after_cpa.zeroize();
    after_pk.zeroize();
    assert(sk_cpa@ =~= sk_cpa_part(params, sk@));
    assert(pk@ =~= sk_pk_part(params, sk@));
    assert(h@ =~= sk_h_part(params, sk@));
    assert(z@ =~= sk_z_part(params, sk@));
    let decrypted = cpapke_decrypt(params, &sk_cpa, c);
    sk_cpa.zeroize();
    let mut message = match decrypted {
        Ok(message) => message,
        Err(e) => {
            z.zeroize();
            return Err(e);
        },
    };
    let mut seed = message.append(&h);
    let (mut k_bar, mut coins) = hash_g(&seed);
    let encrypted = cpapke_encrypt(params, &pk, &message, &coins);
    message.zeroize();
    seed.zeroize();
    coins.zeroize();
    let again = match encrypted {
        Ok(again) => again,
        Err(e) => {
            k_bar.zeroize();
            z.zeroize();
            return Err(e);
        },
    };
    let mask = ct_equal(&again, c);
    let mut chosen = ct_select(&k_bar, &z, mask);
    k_bar.zeroize();
    z.zeroize();
    let mut head = chosen.append(&hash_h(c));
    chosen.zeroize();
    let key = kdf(&head);
    head.zeroize();
    Ok(key)
}

/// Implicit rejection: where encrypting the decrypted message again does not
/// give `c`, decapsulation returns the first 32 bytes of SHAKE-256 on the
/// rejection secret of `sk` followed by the SHA3-256 digest of `c`.
pub proof fn lemma_implicit_rejection(p: KyberParams, c: Seq<u8>, sk: Seq<u8>)
    requires
        supported(p),
        sk.len() == secret_key_len(p),
        c.len() == ciphertext_len(p),
        reencryption(p, c, sk) is Ok,
        reencryption(p, c, sk)->Ok_0 != c,
    ensures
        kem_decapsulate_spec(p, c, sk) == Ok::<Seq<u8>, KyberError>(
            shake256_spec(sk_z_part(p, sk) + sha3_256_spec(c), 32),
        ),
{
}

/// Two rejected ciphertexts with the same digest get the same key.
pub proof fn lemma_rejection_key_by_digest(p: KyberParams, c1: Seq<u8>, c2: Seq<u8>, sk: Seq<u8>)
    requires
        supported(p),
        sk.len() == secret_key_len(p),
        c1.len() == ciphertext_len(p),
        c2.len() == ciphertext_len(p),
        reencryption(p, c1, sk) is Ok,
        reencryption(p, c1, sk)->Ok_0 != c1,
        reencryption(p, c2, sk) is Ok,
        reencryption(p, c2, sk)->Ok_0 != c2,
        sha3_256_spec(c1) == sha3_256_spec(c2),
    ensures
        kem_decapsulate_spec(p, c1, sk) == kem_decapsulate_spec(p, c2, sk),
{
}

/// The parts of a generated secret key are what key generation put there.
pub proof fn lemma_secret_key_parts(p: KyberParams, d: Seq<u8>, z: Seq<u8>)
    requires
        kem_keygen_spec(p, d, z) is Ok,
        kem_keygen_spec(p, d, z)->Ok_0.0.len() == secret_key_len(p),
        kem_keygen_spec(p, d, z)->Ok_0.1.len() == public_key_len(p),
    ensures
        ({
            let sk = kem_keygen_spec(p, d, z)->Ok_0.0;
            let pk = kem_keygen_spec(p, d, z)->Ok_0.1;
            &&& sk_cpa_part(p, sk) == cpapke_secret_key(p, d)
            &&& sk_pk_part(p, sk) == pk
            &&& sk_h_part(p, sk) == sha3_256_spec(pk)
            &&& sk_z_part(p, sk) == z
        }),
{
    let sk = kem_keygen_spec(p, d, z)->Ok_0.0;
    let pk = kem_keygen_spec(p, d, z)->Ok_0.1;
    let sk_cpa = cpapke_secret_key(p, d);
    let h = sha3_256_spec(pk);
    lemma_encode_vec_len(crate::pke::keygen_s_hat(p, d), 12, p.k as nat);
    assert(32 * 12 * p.k == 384 * p.k) by (nonlinear_arith);
    assert(sk == sk_cpa + pk + h + z);
    assert(h.len() == 32);
    assert(sk_cpa_part(p, sk) =~= sk_cpa);
    assert(sk_pk_part(p, sk) =~= pk);
    assert(sk_h_part(p, sk) =~= h);
    assert(sk_z_part(p, sk) =~= z);
}

/// A ciphertext has the length that the layout gives.
pub proof fn lemma_ciphertext_len(p: KyberParams, pk: Seq<u8>, m: Seq<u8>, r: Seq<u8>)
    ensures
        cpapke_ciphertext(p, pk, m, r).len() == ciphertext_len(p),
{
    lemma_encode_vec_len(
        compress_vec_seq(encrypt_u(p, pk, r), p.du as nat, p.q as int),
        p.du as nat,
        p.k as nat,
    );
}

/// Decapsulation recovers the key of an encapsulation whenever decryption
/// recovers the encrypted message: for keys made from the seeds `d` and `z`
/// and a ciphertext made from the random bytes `m`, if decrypting the
/// ciphertext gives the digest of `m`, decapsulating it gives the shared key
/// that encapsulation returned.
pub proof fn lemma_decapsulate_inverts_encapsulate(
    p: KyberParams,
    d: Seq<u8>,
    z: Seq<u8>,
    m: Seq<u8>,
)
    requires
        kem_keygen_spec(p, d, z) is Ok,
        kem_keygen_spec(p, d, z)->Ok_0.0.len() == secret_key_len(p),
        kem_keygen_spec(p, d, z)->Ok_0.1.len() == public_key_len(p),
        kem_encapsulate_spec(p, kem_keygen_spec(p, d, z)->Ok_0.1, m) is Ok,
        cpapke_message(
            p,
            cpapke_secret_key(p, d),
            kem_encapsulate_spec(p, kem_keygen_spec(p, d, z)->Ok_0.1, m)->Ok_0.0,
        ) == encaps_message(m),
    ensures
        kem_decapsulate_spec(
            p,
            kem_encapsulate_spec(p, kem_keygen_spec(p, d, z)->Ok_0.1, m)->Ok_0.0,
            kem_keygen_spec(p, d, z)->Ok_0.0,
        ) == Ok::<Seq<u8>, KyberError>(
            kem_encapsulate_spec(p, kem_keygen_spec(p, d, z)->Ok_0.1, m)->Ok_0.1,
        ),
{
    let sk = kem_keygen_spec(p, d, z)->Ok_0.0;
    let pk = kem_keygen_spec(p, d, z)->Ok_0.1;
    let c = kem_encapsulate_spec(p, pk, m)->Ok_0.0;
    let message = encaps_message(m);
    let h = sha3_256_spec(pk);
    lemma_secret_key_parts(p, d, z);
    lemma_ciphertext_len(p, pk, message, coins(message, h));
    assert(cpapke_encrypt_spec(p, pk, message, coins(message, h)) == Ok::<Seq<u8>, KyberError>(c));
    assert(decaps_message(p, c, sk) == message);
    assert(reencryption(p, c, sk) == Ok::<Seq<u8>, KyberError>(c));
}

/// The mechanism is correct within the decoding radius: for keys made from
/// the seeds `d` and `z` and a ciphertext made from the random bytes `m`,
/// if every coefficient that decryption sees before rounding lies within 831
/// of the corresponding coefficient of the message polynomial, measured
/// around the circle of residues, then decapsulation returns the shared key
/// that encapsulation returned.
pub proof fn lemma_kem_correct_within_radius(p: KyberParams, d: Seq<u8>, z: Seq<u8>, m: Seq<u8>)
    requires
        kem_keygen_spec(p, d, z) is Ok,
        kem_keygen_spec(p, d, z)->Ok_0.0.len() == secret_key_len(p),
        kem_keygen_spec(p, d, z)->Ok_0.1.len() == public_key_len(p),
        kem_encapsulate_spec(p, kem_keygen_spec(p, d, z)->Ok_0.1, m) is Ok,
        forall|i: int|
            0 <= i < 256 ==> residue_distance(
                #[trigger] decrypt_raw(
                    p,
                    cpapke_secret_key(p, d),
                    kem_encapsulate_spec(p, kem_keygen_spec(p, d, z)->Ok_0.1, m)->Ok_0.0,
                )[i],
                message_poly(encaps_message(m), 3329)[i],
                3329,
            ) <= 831,
    ensures
        kem_decapsulate_spec(
            p,
            kem_encapsulate_spec(p, kem_keygen_spec(p, d, z)->Ok_0.1, m)->Ok_0.0,
            kem_keygen_spec(p, d, z)->Ok_0.0,
        ) == Ok::<Seq<u8>, KyberError>(
            kem_encapsulate_spec(p, kem_keygen_spec(p, d, z)->Ok_0.1, m)->Ok_0.1,
        ),
{
    let pk = kem_keygen_spec(p, d, z)->Ok_0.1;
    let c = kem_encapsulate_spec(p, pk, m)->Ok_0.0;
    let message = encaps_message(m);
    assert(cpapke_encrypt_spec(p, pk, message, coins(message, sha3_256_spec(pk))) is Ok);
    assert(message.len() == 32);
    lemma_decrypt_within_radius(p, cpapke_secret_key(p, d), c, message);
    lemma_decapsulate_inverts_encapsulate(p, d, z, m);
}

} // verus!
