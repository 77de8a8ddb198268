//! Bit-packed serialisation of polynomials and vectors.

use vstd::prelude::*;
use vstd::arithmetic::power2::{pow2, lemma2_to64, lemma_pow2_pos, lemma_pow2_unfold};
use vstd::arithmetic::div_mod::{
    lemma_fundamental_div_mod, lemma_fundamental_div_mod_converse, lemma_breakdown, lemma_small_mod,
};
use crate::arith::pow2_exec;
use crate::bytearray::{ByteArray, bit_at, bit_of};
use crate::field::{F3329, q};
use crate::poly::Poly3329;
use crate::polyvec::{PolyVec3329, is_ring_elem, is_module_elem};

verus! {

/// Bit `t` of the stream that holds `ell` bits of each coefficient of `p`,
/// least significant first: bit `t mod ell` of coefficient `t / ell`.
pub open spec fn coeff_bit(p: Seq<int>, ell: nat, t: int) -> bool {
    (p[t / ell as int] / pow2((t % ell as int) as nat) as int) % 2 == 1
}

/// The value of the first `n` bits of byte `b` of that stream.
pub open spec fn enc_byte(p: Seq<int>, ell: nat, b: int, n: nat) -> int
    decreases n,
{
    if n == 0 {
        0
    } else {
        enc_byte(p, ell, b, (n - 1) as nat) + if coeff_bit(p, ell, 8 * b + n - 1) {
            pow2((n - 1) as nat) as int
        } else {
            0
        }
    }
}

/// The `32 * ell` bytes that hold `ell` bits of each of the 256 coefficients
/// of `p`.
pub open spec fn encode_seq(p: Seq<int>, ell: nat) -> Seq<u8> {
    Seq::new(32 * ell, |b: int| enc_byte(p, ell, b, 8) as u8)
}

/// The value of the first `n` of the `ell` bits of `bs` that belong to
/// coefficient `i`.
pub open spec fn dec_coeff(bs: Seq<u8>, ell: nat, i: int, n: nat) -> int
    decreases n,
{
    if n == 0 {
        0
    } else {
        dec_coeff(bs, ell, i, (n - 1) as nat) + if bit_at(bs, i * ell + n - 1) {
            pow2((n - 1) as nat) as int
        } else {
            0
        }
    }
}

/// The polynomial whose coefficient `i` is read from bits `i * ell` to
/// `i * ell + ell - 1` of `bs` and reduced modulo `q`.
pub open spec fn decode_seq(bs: Seq<u8>, ell: nat) -> Seq<int> {
    Seq::new(256, |i: int| dec_coeff(bs, ell, i, ell) % q())
}

/// The encodings of the components of `v`, one after the other.
pub open spec fn encode_vec_seq(v: Seq<Seq<int>>, ell: nat, k: nat) -> Seq<u8>
    decreases k,
{
    if k == 0 {
        Seq::empty()
    } else {
        encode_vec_seq(v, ell, (k - 1) as nat) + encode_seq(v[k - 1], ell)
    }
}

/// The polynomials decoded from the consecutive chunks of `32 * ell` bytes
/// of `bs`; bytes after the last whole chunk are not read.
pub open spec fn decode_vec_seq(bs: Seq<u8>, ell: nat) -> Seq<Seq<int>> {
    Seq::new(
        (bs.len() / (32 * ell)) as nat,
        |i: int| decode_seq(bs.subrange(i * (32 * ell), (i + 1) * (32 * ell)), ell),
    )
}

/// A bit position splits into its coefficient and the bit within it.
proof fn lemma_bit_position(i: int, ell: int, j: int)
    requires
        0 <= j < ell,
    ensures
        (i * ell + j) / ell == i,
        (i * ell + j) % ell == j,
{
    lemma_fundamental_div_mod_converse(i * ell + j, ell, i, j);
}

/// A position below `n * ell` lies in a coefficient below `n`.
proof fn lemma_position_bound(t: int, ell: int, n: int)
    requires
        0 <= t < n * ell,
        ell > 0,
    ensures
        0 <= t / ell < n,
        0 <= t % ell < ell,
{
    lemma_fundamental_div_mod(t, ell);
    let a = t / ell;
    let r = t % ell;
    assert(0 <= a < n) by (nonlinear_arith)
        requires
            t == ell * a + r,
            0 <= r < ell,
            0 <= t < n * ell,
    ;
}

/// The first `n` bits of a byte of the stream stay below `2^n`.
proof fn lemma_enc_byte_bound(p: Seq<int>, ell: nat, b: int, n: nat)
    ensures
        0 <= enc_byte(p, ell, b, n) < pow2(n),
    decreases n,
{
    lemma_pow2_pos(n);
    if n > 0 {
        lemma_enc_byte_bound(p, ell, b, (n - 1) as nat);
        lemma_pow2_unfold(n);
    }
}

/// The first `n` bits of a coefficient stay below `2^n`.
proof fn lemma_dec_coeff_bound(bs: Seq<u8>, ell: nat, i: int, n: nat)
    ensures
        0 <= dec_coeff(bs, ell, i, n) < pow2(n),
    decreases n,
{
    lemma_pow2_pos(n);
    if n > 0 {
        lemma_dec_coeff_bound(bs, ell, i, (n - 1) as nat);
        lemma_pow2_unfold(n);
    }
}

/// Deserialises 256 coefficients of `ell` bits each from `bs`.
pub fn decode_to_poly(bs: ByteArray, ell: usize) -> (r: Poly3329)
    requires
        1 <= ell <= 12,
        bs@.len() >= 32 * ell,
    ensures
        is_ring_elem(r@),
        r@ == decode_seq(bs@, ell as nat),
{
    let mut f: Vec<F3329> = Vec::new();
    let mut i: usize = 0;
    while i < 256
        invariant
            i <= 256,
            1 <= ell <= 12,
            bs@.len() >= 32 * ell,
            f@.len() == i,
            forall|k: int|
                0 <= k < i ==> (#[trigger] f@[k]).wf() && f@[k]@ == dec_coeff(
                    bs@,
                    ell as nat,
                    k,
                    ell as nat,
                ) % q(),
        decreases 256 - i,
    {
        let mut acc: usize = 0;
        let mut j: usize = 0;
        proof {
            lemma2_to64();
        }
        while j < ell
            invariant
                j <= ell,
                i < 256,
                1 <= ell <= 12,
                bs@.len() >= 32 * ell,
                acc == dec_coeff(bs@, ell as nat, i as int, j as nat),
                acc < pow2(j as nat),
                pow2(j as nat) <= 4096,
            decreases ell - j,
        {
            assert(i * ell + j < 256 * ell) by (nonlinear_arith)
                requires
                    i < 256,
                    j < ell,
            ;
            proof {
                lemma_dec_coeff_bound(bs@, ell as nat, i as int, (j + 1) as nat);
                lemma_pow2_unfold((j + 1) as nat);
                lemma2_to64();
                if j + 1 < 12 {
                    vstd::arithmetic::power2::lemma_pow2_strictly_increases((j + 1) as nat, 12);
                }
            }
            if bs.get_bit(i * ell + j) {
                acc = acc + pow2_exec(j) as usize;
            }
            j += 1;
        }
        f.push(F3329::from_int(acc));
        i += 1;
    }
    let r = Poly3329::from_vec(f, 256);
    assert(r@ =~= decode_seq(bs@, ell as nat));
    r
}

/// Serialises `ell` bits of each of the 256 coefficients of `p`.
pub fn encode_poly(p: Poly3329, ell: usize) -> (r: ByteArray)
    requires
        is_ring_elem(p@),
        1 <= ell <= 12,
    ensures
        r@ == encode_seq(p@, ell as nat),
        r@.len() == 32 * ell,
{
    let mut bytes: Vec<u8> = Vec::new();
    let total: usize = 32 * ell;
    let mut b: usize = 0;
    while b < total
        invariant
            b <= total,
            total == 32 * ell,
            1 <= ell <= 12,
            is_ring_elem(p@),
            bytes@.len() == b,
            forall|k: int|
                0 <= k < b ==> #[trigger] bytes@[k] == enc_byte(p@, ell as nat, k, 8) as u8,
        decreases total - b,
    {
        let mut c: u8 = 0;
        let mut s: usize = 0;
        while s < 8
            invariant
                s <= 8,
                b < total,
                total == 32 * ell,
                1 <= ell <= 12,
                is_ring_elem(p@),
                c == enc_byte(p@, ell as nat, b as int, s as nat),
            decreases 8 - s,
        {
            let t: usize = 8 * b + s;
            proof {
                lemma_position_bound(t as int, ell as int, 256);
                lemma_enc_byte_bound(p@, ell as nat, b as int, (s + 1) as nat);
                lemma2_to64();
            }
            let i: usize = t / ell;
            let j: usize = t % ell;
            let v: usize = p.get(i).to_int();
            if (v / (pow2_exec(j) as usize)) % 2 == 1 {
                c = c + pow2_exec(s) as u8;
            }
            s += 1;
        }
        bytes.push(c);
        b += 1;
    }
    let r = ByteArray { data: bytes };
    assert(r@ =~= encode_seq(p@, ell as nat));
    r
}

/// Deserialises one polynomial from each whole chunk of `32 * ell` bytes of
/// `bs`.
pub fn decode_to_polyvec(bs: ByteArray, ell: usize) -> (r: PolyVec3329)
    requires
        1 <= ell <= 12,
    ensures
        r.wf(),
        r@ == decode_vec_seq(bs@, ell as nat),
{
    let chunk: usize = 32 * ell;
    let k: usize = bs.len() / chunk;
    let mut polys: Vec<Poly3329> = Vec::new();
    let mut rest = bs.clone();
    let mut i: usize = 0;
    while i < k
        invariant
            i <= k,
            1 <= ell <= 12,
            chunk == 32 * ell,
            k == bs@.len() / (chunk as nat),
            i * chunk <= bs@.len(),
            rest@ == bs@.subrange(i * chunk, bs@.len() as int),
            polys@.len() == i,
            forall|j: int|
                0 <= j < i ==> is_ring_elem((#[trigger] polys@[j])@) && polys@[j]@ == decode_seq(
                    bs@.subrange(j * (32 * ell), (j + 1) * (32 * ell)),
                    ell as nat,
                ),
        decreases k - i,
    {
        proof {
            lemma_fundamental_div_mod(bs@.len() as int, chunk as int);
            assert((i + 1) * chunk <= k * chunk) by (nonlinear_arith)
                requires
                    i + 1 <= k,
                    chunk >= 0,
            ;
            assert((i + 1) * chunk == i * chunk + chunk) by (nonlinear_arith);
        }
        let (a, c) = rest.split_at(chunk);
        assert(a@ =~= bs@.subrange(i * (32 * ell), (i + 1) * (32 * ell)));
        assert(c@ =~= bs@.subrange((i + 1) * chunk, bs@.len() as int));
        polys.push(decode_to_poly(a, ell));
        rest = c;
        i += 1;
    }
    let r = PolyVec3329::from_vec(polys);
    assert(r@ =~= decode_vec_seq(bs@, ell as nat));
    r
}

/// Serialises the components of `p_vec` one after the other, `s` bits per
/// coefficient.
pub fn encode_polyvec(p_vec: PolyVec3329, s: usize) -> (r: ByteArray)
    requires
        p_vec.wf(),
        1 <= s <= 12,
    ensures
        r@ == encode_vec_seq(p_vec@, s as nat, p_vec@.len()),
        r@.len() == 32 * s * p_vec@.len(),
{
    let mut b = ByteArray::new();
    let k: usize = p_vec.dimension();
    let mut i: usize = 0;
    while i < k
        invariant
            i <= k,
            k == p_vec@.len(),
            p_vec.wf(),
            1 <= s <= 12,
            b@ == encode_vec_seq(p_vec@, s as nat, i as nat),
            b@.len() == 32 * s * i,
        decreases k - i,
    {
        let p = p_vec.get(i);
        assert(32 * s * (i + 1) == 32 * s * i + 32 * s) by (nonlinear_arith);
        b = b.append(&encode_poly(p, s));
        i += 1;
    }
    b
}

/// The encoding of `k` polynomials at `ell` bits has `32 * ell * k` bytes.
pub proof fn lemma_encode_vec_len(v: Seq<Seq<int>>, ell: nat, k: nat)
    ensures
        encode_vec_seq(v, ell, k).len() == 32 * ell * k,
    decreases k,
{
    if k > 0 {
        lemma_encode_vec_len(v, ell, (k - 1) as nat);
        assert(32 * ell * k == 32 * ell * (k - 1) + 32 * ell) by (nonlinear_arith);
    } else {
        assert(32 * ell * k == 0) by (nonlinear_arith)
            requires
                k == 0,
        ;
    }
}

/// Bit `s` of the first `n` bits of a byte of the stream is the stream's bit
/// at that position.
proof fn lemma_enc_byte_bit(p: Seq<int>, ell: nat, b: int, n: nat, s: nat)
    requires
        s < n,
    ensures
        ((enc_byte(p, ell, b, n) / pow2(s) as int) % 2 == 1) == coeff_bit(p, ell, 8 * b + s),
    decreases n,
{
    let m = (n - 1) as nat;
    let lo = enc_byte(p, ell, b, m);
    let hi = enc_byte(p, ell, b, n);
    let c = coeff_bit(p, ell, 8 * b + m);
    let w = pow2(s) as int;
    lemma_enc_byte_bound(p, ell, b, m);
    lemma_pow2_pos(s);
    if s == m {
        if c {
            lemma_fundamental_div_mod_converse(hi, w, 1, lo);
        } else {
            lemma_fundamental_div_mod_converse(hi, w, 0, lo);
        }
    } else {
        lemma_enc_byte_bit(p, ell, b, m, s);
        if c {
            let e = (m - s) as nat;
            vstd::arithmetic::power2::lemma_pow2_adds(s, e);
            lemma_pow2_unfold(e);
            let k = pow2(e) as int;
            assert(hi == lo + k * w) by (nonlinear_arith)
                requires
                    hi == lo + pow2(m),
                    pow2(m) == w * k,
            ;
            vstd::arithmetic::div_mod::lemma_hoist_over_denominator(lo, k, w as nat);
            assert(hi / w == lo / w + k);
            assert(k % 2 == 0);
        }
    }
}

/// Reading `n` bits of coefficient `i` back from the encoding of `p` gives
/// the `n` low bits of that coefficient.
proof fn lemma_dec_coeff_of_encoding(p: Seq<int>, ell: nat, i: int, n: nat)
    requires
        p.len() == 256,
        0 <= i < 256,
        n <= ell,
        0 <= p[i],
    ensures
        dec_coeff(encode_seq(p, ell), ell, i, n) == p[i] % (pow2(n) as int),
    decreases n,
{
    lemma2_to64();
    if n > 0 {
        let enc = encode_seq(p, ell);
        let m = (n - 1) as nat;
        let t = i * ell + m;
        let w = pow2(m) as int;
        let x = p[i];
        lemma_dec_coeff_of_encoding(p, ell, i, m);
        lemma_bit_position(i, ell as int, m as int);
        assert(0 <= t < 256 * ell) by (nonlinear_arith)
            requires
                0 <= i < 256,
                0 <= m < ell,
                t == i * ell + m,
        ;
        assert(bit_at(enc, t) == coeff_bit(p, ell, t)) by {
            lemma_enc_byte_bit(p, ell, t / 8, 8, (t % 8) as nat);
            lemma_enc_byte_bound(p, ell, t / 8, 8);
            assert(0 <= t / 8 < 32 * ell);
            assert(enc[t / 8] as int == enc_byte(p, ell, t / 8, 8));
            assert(8 * (t / 8) + t % 8 == t);
        }
        assert(coeff_bit(p, ell, t) == ((x / w) % 2 == 1));
        lemma_pow2_pos(m);
        lemma_pow2_unfold(n);
        lemma_breakdown(x, w, 2);
        assert(w * 2 == pow2(n));
        let c = (x / w) % 2;
        assert(w * c == (if c == 1 { w } else { 0 })) by (nonlinear_arith)
            requires
                c == 0 || c == 1,
        ;
        assert(dec_coeff(enc, ell, i, n) == dec_coeff(enc, ell, i, m) + (if bit_at(enc, t) {
            w
        } else {
            0
        }));
    }
}

/// Decoding what was encoded with `ell` bits per coefficient gives back a
/// polynomial whose coefficients all fit in `ell` bits.
pub proof fn lemma_decode_encode(p: Seq<int>, ell: nat)
    requires
        is_ring_elem(p),
        1 <= ell <= 12,
        forall|i: int| 0 <= i < 256 ==> #[trigger] p[i] < pow2(ell),
    ensures
        decode_seq(encode_seq(p, ell), ell) == p,
{
    let back = decode_seq(encode_seq(p, ell), ell);
    assert forall|i: int| 0 <= i < 256 implies back[i] == p[i] by {
        lemma_dec_coeff_of_encoding(p, ell, i, ell);
        lemma_small_mod(p[i] as nat, pow2(ell));
        lemma_small_mod(p[i] as nat, q() as nat);
    }
    assert(back =~= p);
}

/// Chunk `i` of the encoding of a vector is the encoding of component `i`.
proof fn lemma_encode_vec_chunk(v: Seq<Seq<int>>, ell: nat, k: nat, i: int)
    requires
        0 <= i < k,
    ensures
        encode_vec_seq(v, ell, k).subrange(i * (32 * ell), (i + 1) * (32 * ell)) == encode_seq(
            v[i],
            ell,
        ),
    decreases k,
{
    let h = (k - 1) as nat;
    let chunk: int = (32 * ell) as int;
    let head = encode_vec_seq(v, ell, h);
    let last = encode_seq(v[k - 1], ell);
    lemma_encode_vec_len(v, ell, h);
    assert(32 * ell * h == h * chunk) by (nonlinear_arith)
        requires
            chunk == 32 * ell,
    ;
    assert((i + 1) * chunk == i * chunk + chunk) by (nonlinear_arith);
    if i == h {
        assert((head + last).subrange(i * chunk, (i + 1) * chunk) =~= last);
    } else {
        lemma_encode_vec_chunk(v, ell, h, i);
        assert((i + 1) * chunk <= h * chunk) by (nonlinear_arith)
            requires
                i + 1 <= h,
                chunk >= 0,
        ;
        assert(0 <= i * chunk) by (nonlinear_arith)
            requires
                0 <= i,
                chunk >= 0,
        ;
        assert((head + last).subrange(i * chunk, (i + 1) * chunk) =~= head.subrange(
            i * chunk,
            (i + 1) * chunk,
        ));
    }
}

/// Decoding what was encoded with `ell` bits per coefficient gives back a
/// vector whose coefficients all fit in `ell` bits.
pub proof fn lemma_decode_encode_vec(v: Seq<Seq<int>>, ell: nat)
    requires
        is_module_elem(v),
        1 <= ell <= 12,
        forall|i: int, j: int|
            0 <= i < v.len() && 0 <= j < 256 ==> #[trigger] v[i][j] < pow2(ell),
    ensures
        decode_vec_seq(encode_vec_seq(v, ell, v.len()), ell) == v,
{
    let k = v.len();
    let bytes = encode_vec_seq(v, ell, k);
    let back = decode_vec_seq(bytes, ell);
    lemma_encode_vec_len(v, ell, k);
    assert(32 * ell * k == k * (32 * ell)) by (nonlinear_arith);
    vstd::arithmetic::div_mod::lemma_div_multiples_vanish(k as int, (32 * ell) as int);
    assert(back.len() == k);
    assert forall|i: int| 0 <= i < k implies back[i] == v[i] by {
        lemma_encode_vec_chunk(v, ell, k, i);
        assert(is_ring_elem(v[i]));
        assert forall|j: int| 0 <= j < 256 implies #[trigger] v[i][j] < pow2(ell) by {
            assert(v[i][j] < pow2(ell));
        }
        lemma_decode_encode(v[i], ell);
    }
    assert(back =~= v);
}

/// Bit `j` of the first `n` bits read for coefficient `i` is the bit of the
/// byte string at that position.
proof fn lemma_dec_coeff_bit(bs: Seq<u8>, ell: nat, i: int, n: nat, j: nat)
    requires
        j < n,
    ensures
        ((dec_coeff(bs, ell, i, n) / pow2(j) as int) % 2 == 1) == bit_at(bs, i * ell + j),
    decreases n,
{
    let m = (n - 1) as nat;
    let lo = dec_coeff(bs, ell, i, m);
    let hi = dec_coeff(bs, ell, i, n);
    let c = bit_at(bs, i * ell + m);
    let w = pow2(j) as int;
    lemma_dec_coeff_bound(bs, ell, i, m);
    lemma_pow2_pos(j);
    if j == m {
        if c {
            lemma_fundamental_div_mod_converse(hi, w, 1, lo);
        } else {
            lemma_fundamental_div_mod_converse(hi, w, 0, lo);
        }
    } else {
        lemma_dec_coeff_bit(bs, ell, i, m, j);
        if c {
            let e = (m - j) as nat;
            vstd::arithmetic::power2::lemma_pow2_adds(j, e);
            lemma_pow2_unfold(e);
            let k = pow2(e) as int;
            assert(hi == lo + k * w) by (nonlinear_arith)
                requires
                    hi == lo + pow2(m),
                    pow2(m) == w * k,
            ;
            vstd::arithmetic::div_mod::lemma_hoist_over_denominator(lo, k, w as nat);
            assert(hi / w == lo / w + k);
            assert(k % 2 == 0);
        }
    }
}

/// Where the stream's bits for byte `b` are the bits of `x`, the first `n`
/// of them give `x` modulo `2^n`.
proof fn lemma_enc_byte_from_bits(p: Seq<int>, ell: nat, b: int, x: u8, n: nat)
    requires
        n <= 8,
        forall|s: int| 0 <= s < 8 ==> coeff_bit(p, ell, 8 * b + s) == #[trigger] bit_of(x, s),
    ensures
        enc_byte(p, ell, b, n) == x as int % (pow2(n) as int),
    decreases n,
{
    lemma2_to64();
    if n > 0 {
        let m = (n - 1) as nat;
        lemma_enc_byte_from_bits(p, ell, b, x, m);
        let w = pow2(m) as int;
        lemma_pow2_pos(m);
        lemma_pow2_unfold(n);
        lemma_breakdown(x as int, w, 2);
        assert(w * 2 == pow2(n));
        assert(coeff_bit(p, ell, 8 * b + m) == bit_of(x, m as int));
        let c = (x as int / w) % 2;
        assert(w * c == (if c == 1 { w } else { 0 })) by (nonlinear_arith)
            requires
                c == 0 || c == 1,
        ;
    }
}

/// Encoding what was decoded from `32 * ell` bytes gives those bytes back,
/// for widths at which no decoded coefficient reaches `q`.
pub proof fn lemma_encode_decode(bs: Seq<u8>, ell: nat)
    requires
        1 <= ell <= 11,
        bs.len() == 32 * ell,
    ensures
        encode_seq(decode_seq(bs, ell), ell) == bs,
{
    let p = decode_seq(bs, ell);
    let back = encode_seq(p, ell);
    lemma2_to64();
    assert forall|b: int| 0 <= b < 32 * ell implies back[b] == bs[b] by {
        let x = bs[b];
        assert forall|s: int| 0 <= s < 8 implies coeff_bit(p, ell, 8 * b + s) == #[trigger] bit_of(
            x,
            s,
        ) by {
            let t = 8 * b + s;
            lemma_position_bound(t, ell as int, 256);
            let i = t / (ell as int);
            let j = (t % (ell as int)) as nat;
            lemma_fundamental_div_mod(t, ell as int);
            assert(i * ell + j == t) by (nonlinear_arith)
                requires
                    t == ell * i + j,
            ;
            let raw = dec_coeff(bs, ell, i, ell);
            lemma_dec_coeff_bound(bs, ell, i, ell);
            if ell < 11 {
                vstd::arithmetic::power2::lemma_pow2_strictly_increases(ell, 11);
            }
            lemma_small_mod(raw as nat, q() as nat);
            assert(p[i] == raw);
            lemma_dec_coeff_bit(bs, ell, i, ell, j);
            assert(bit_at(bs, t) == bit_of(x, s)) by {
                assert(t / 8 == b && t % 8 == s);
            }
        }
        lemma_enc_byte_from_bits(p, ell, b, x, 8);
        lemma_small_mod(x as nat, 256);
    }
    assert(back =~= bs);
}

} // verus!
