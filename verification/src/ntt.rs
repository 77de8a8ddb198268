//! The number-theoretic transform of R_q and multiplication in its image.
//!
//! `X^256 + 1` splits modulo `q` into the 128 quadratic factors
//! `X^2 - zeta^(2 br(i) + 1)`, where `zeta = 17` is a primitive 256th root of
//! unity and `br` reverses seven bits. The transform sends a polynomial to
//! its 128 remainders modulo these factors, two coefficients each.

use vstd::prelude::*;
use vstd::arithmetic::div_mod::{
    lemma_add_mod_noop, lemma_mul_mod_noop_right, lemma_mul_mod_noop_left, lemma_small_mod,
    lemma_mod_bound,
};
use vstd::arithmetic::power2::{pow2, lemma2_to64};
use crate::field::{F3329, q, is_reduced};
use crate::poly::{Poly3329, add_seq, zero_seq};
use crate::polyvec::{PolyVec3329, PolyMatrix3329, is_ring_elem, width_seq};

verus! {

/// `17^k mod q`.
pub open spec fn zeta_pow(k: nat) -> int
    decreases k,
{
    if k == 0 {
        1
    } else {
        (17 * zeta_pow((k - 1) as nat)) % q()
    }
}

/// The `n` low bits of `i` in reverse order.
pub open spec fn bit_rev(n: nat, i: int) -> int
    decreases n,
{
    if n == 0 {
        0
    } else {
        (if i % 2 == 1 {
            pow2((n - 1) as nat) as int
        } else {
            0
        }) + bit_rev((n - 1) as nat, i / 2)
    }
}

/// The exponent of `zeta` that belongs to pair `i` of the transform.
pub open spec fn ntt_root(i: int) -> nat {
    (2 * bit_rev(7, i) + 1) as nat
}

/// The sum over `j < n` of `f[2j + parity] * zeta^(e * j)`.
pub open spec fn ntt_sum(f: Seq<int>, parity: int, e: nat, n: nat) -> int
    decreases n,
{
    if n == 0 {
        0
    } else {
        ntt_sum(f, parity, e, (n - 1) as nat) + f[2 * (n - 1) + parity] * zeta_pow(
            (e * (n - 1)) as nat,
        )
    }
}

/// The transform of `f`: entries `2i` and `2i + 1` are the remainder of `f`
/// modulo `X^2 - zeta^ntt_root(i)`.
pub open spec fn ntt_seq(f: Seq<int>) -> Seq<int> {
    Seq::new(256, |t: int| ntt_sum(f, t % 2, ntt_root(t / 2), 128) % q())
}

/// The sum over `i < n` of `g[2i + parity] * zeta^(-ntt_root(i) * j)`, the
/// negative exponent written as `(256 - ntt_root(i)) * j`.
pub open spec fn inv_sum(g: Seq<int>, parity: int, j: int, n: nat) -> int
    decreases n,
{
    if n == 0 {
        0
    } else {
        inv_sum(g, parity, j, (n - 1) as nat) + g[2 * (n - 1) + parity] * zeta_pow(
            ((256 - ntt_root(n - 1)) * j) as nat,
        )
    }
}

/// The inverse of 128 modulo `q`.
pub open spec fn inv_128() -> int {
    3303
}

/// The inverse transform of `g`, scaled by `128^-1`.
pub open spec fn intt_seq(g: Seq<int>) -> Seq<int> {
    Seq::new(256, |t: int| (inv_128() * inv_sum(g, t % 2, t / 2, 128)) % q())
}

/// The constant coefficient of `(a0 + a1 X)(b0 + b1 X)` modulo `X^2 - z`.
pub open spec fn bcm_even(a0: int, a1: int, b0: int, b1: int, z: int) -> int {
    (a0 * b0 + a1 * b1 * z) % q()
}

/// The linear coefficient of `(a0 + a1 X)(b0 + b1 X)` modulo `X^2 - z`.
pub open spec fn bcm_odd(a0: int, a1: int, b0: int, b1: int) -> int {
    (a0 * b1 + a1 * b0) % q()
}

/// The product of two transforms: pair `i` of `a` times pair `i` of `b`
/// modulo `X^2 - zeta^ntt_root(i)`.
pub open spec fn bcm_seq(a: Seq<int>, b: Seq<int>) -> Seq<int> {
    Seq::new(
        256,
        |t: int|
            {
                let i = t / 2;
                if t % 2 == 0 {
                    bcm_even(
                        a[2 * i],
                        a[2 * i + 1],
                        b[2 * i],
                        b[2 * i + 1],
                        zeta_pow(ntt_root(i)),
                    )
                } else {
                    bcm_odd(a[2 * i], a[2 * i + 1], b[2 * i], b[2 * i + 1])
                }
            },
    )
}

/// The sum of the products of the first `m` components of two vectors of
/// transforms.
pub open spec fn bcm_dot_seq(a: Seq<Seq<int>>, b: Seq<Seq<int>>, m: nat) -> Seq<int>
    decreases m,
{
    if m == 0 {
        zero_seq(256)
    } else {
        add_seq(bcm_dot_seq(a, b, (m - 1) as nat), bcm_seq(a[m - 1], b[m - 1]))
    }
}

/// The product of a matrix and a vector of transforms: one dot product per
/// row.
pub open spec fn bcm_matrix_seq(m: Seq<Seq<Seq<int>>>, v: Seq<Seq<int>>) -> Seq<Seq<int>> {
    Seq::new(m.len(), |i: int| bcm_dot_seq(m[i], v, v.len()))
}

/// The transform of every component.
pub open spec fn ntt_vec_seq(v: Seq<Seq<int>>) -> Seq<Seq<int>> {
    Seq::new(v.len(), |i: int| ntt_seq(v[i]))
}

/// The inverse transform of every component.
pub open spec fn intt_vec_seq(v: Seq<Seq<int>>) -> Seq<Seq<int>> {
    Seq::new(v.len(), |i: int| intt_seq(v[i]))
}

/// Powers of `zeta` are canonical representatives.
pub proof fn lemma_zeta_pow_reduced(k: nat)
    ensures
        is_reduced(zeta_pow(k)),
{
    if k > 0 {
        lemma_mod_bound(17 * zeta_pow((k - 1) as nat), q());
    }
}

/// `zeta^(a + b) = zeta^a * zeta^b`.
pub proof fn lemma_zeta_pow_add(a: nat, b: nat)
    ensures
        zeta_pow(a + b) == (zeta_pow(a) * zeta_pow(b)) % q(),
    decreases b,
{
    lemma_zeta_pow_reduced(a);
    if b == 0 {
        lemma_small_mod(zeta_pow(a) as nat, q() as nat);
    } else {
        let za = zeta_pow(a);
        let zb1 = zeta_pow((b - 1) as nat);
        lemma_zeta_pow_add(a, (b - 1) as nat);
        assert(zeta_pow(a + b) == (17 * zeta_pow((a + b - 1) as nat)) % q());
        lemma_mul_mod_noop_right(17, za * zb1, q());
        lemma_mul_mod_noop_right(za, 17 * zb1, q());
        assert(17 * (za * zb1) == za * (17 * zb1)) by (nonlinear_arith);
    }
}

/// `zeta^(2k)` is the square of `zeta^k`.
proof fn lemma_zeta_pow_double(k: nat, v: int)
    requires
        zeta_pow(k) == v,
    ensures
        zeta_pow(2 * k) == (v * v) % q(),
{
    lemma_zeta_pow_add(k, k);
}

/// `zeta` has order 256: `zeta^128 = -1` and `zeta^256 = 1`.
pub proof fn lemma_zeta_order()
    ensures
        zeta_pow(128) == q() - 1,
        zeta_pow(256) == 1,
{
    assert(zeta_pow(1) == 17) by {
        assert(zeta_pow(0) == 1);
    }
    lemma_zeta_pow_double(1, 17);
    assert(zeta_pow(2) == 289);
    lemma_zeta_pow_double(2, 289);
    assert(zeta_pow(4) == 296);
    lemma_zeta_pow_double(4, 296);
    assert(zeta_pow(8) == 1062);
    lemma_zeta_pow_double(8, 1062);
    assert(zeta_pow(16) == 2642);
    lemma_zeta_pow_double(16, 2642);
    assert(zeta_pow(32) == 2580);
    lemma_zeta_pow_double(32, 2580);
    assert(zeta_pow(64) == 1729);
    lemma_zeta_pow_double(64, 1729);
    assert(zeta_pow(128) == 3328);
    lemma_zeta_pow_double(128, 3328);
}

/// Exponents of `zeta` count modulo 256.
pub proof fn lemma_zeta_pow_periodic(k: nat)
    ensures
        zeta_pow(k) == zeta_pow(k % 256),
    decreases k,
{
    if k >= 256 {
        let r = (k - 256) as nat;
        lemma_zeta_pow_periodic(r);
        lemma_zeta_pow_add(r, 256);
        lemma_zeta_order();
        lemma_zeta_pow_reduced(r);
        lemma_small_mod(zeta_pow(r) as nat, q() as nat);
        assert(zeta_pow(r) * 1 == zeta_pow(r));
        assert(k % 256 == r % 256);
    }
}

/// The powers `zeta^0, ..., zeta^255`.
pub fn zetas() -> (t: Vec<F3329>)
    ensures
        t@.len() == 256,
        forall|k: int| 0 <= k < 256 ==> (#[trigger] t@[k]).wf() && t@[k]@ == zeta_pow(k as nat),
{
    let mut t: Vec<F3329> = Vec::new();
    let zeta = F3329 { value: 17 };
    let mut z = F3329 { value: 1 };
    let mut k: usize = 0;
    while k < 256
        invariant
            k <= 256,
            t@.len() == k,
            zeta@ == 17,
            z.wf(),
            z@ == zeta_pow(k as nat),
            forall|i: int| 0 <= i < k ==> (#[trigger] t@[i]).wf() && t@[i]@ == zeta_pow(i as nat),
        decreases 256 - k,
    {
        t.push(z);
        z = zeta.mul(&z);
        k += 1;
    }
    t
}

/// The seven low bits of `i` in reverse order.
pub fn byte_rev(i: usize) -> (r: usize)
    requires
        i < 128,
    ensures
        r == bit_rev(7, i as int),
        r < 128,
{
    let x1: usize = i / 2;
    let x2: usize = x1 / 2;
    let x3: usize = x2 / 2;
    let x4: usize = x3 / 2;
    let x5: usize = x4 / 2;
    let x6: usize = x5 / 2;
    proof {
        lemma2_to64();
        assert(bit_rev(0, x6 as int / 2) == 0);
        assert(bit_rev(1, x6 as int) == x6 % 2);
        assert(bit_rev(2, x5 as int) == (x5 % 2) * 2 + bit_rev(1, x6 as int));
        assert(bit_rev(3, x4 as int) == (x4 % 2) * 4 + bit_rev(2, x5 as int));
        assert(bit_rev(4, x3 as int) == (x3 % 2) * 8 + bit_rev(3, x4 as int));
        assert(bit_rev(5, x2 as int) == (x2 % 2) * 16 + bit_rev(4, x3 as int));
        assert(bit_rev(6, x1 as int) == (x1 % 2) * 32 + bit_rev(5, x2 as int));
        assert(bit_rev(7, i as int) == (i % 2) * 64 + bit_rev(6, x1 as int));
    }
    (i % 2) * 64 + (x1 % 2) * 32 + (x2 % 2) * 16 + (x3 % 2) * 8 + (x4 % 2) * 4 + (x5 % 2) * 2 + x6
        % 2
}

/// One term joins a sum that is held reduced.
proof fn lemma_sum_step(s: int, c: int, z: int)
    ensures
        ((s % q()) + ((c * z) % q())) % q() == (s + c * z) % q(),
{
    lemma_add_mod_noop(s, c * z, q());
}

/// The transform of `p`: for every pair `i`, the remainder of `p` modulo
/// `X^2 - zeta^(2 br(i) + 1)`, computed by direct summation.
pub fn base_ntt(p: &Poly3329) -> (r: Poly3329)
    requires
        is_ring_elem(p@),
    ensures
        is_ring_elem(r@),
        r@ == ntt_seq(p@),
{
    let table = zetas();
    let mut out: Vec<F3329> = Vec::new();
    let mut i: usize = 0;
    while i < 128
        invariant
            i <= 128,
            is_ring_elem(p@),
            table@.len() == 256,
            forall|k: int|
                0 <= k < 256 ==> (#[trigger] table@[k]).wf() && table@[k]@ == zeta_pow(k as nat),
            out@.len() == 2 * i,
            forall|t: int|
                0 <= t < 2 * i ==> (#[trigger] out@[t]).wf() && out@[t]@ == ntt_sum(
                    p@,
                    t % 2,
                    ntt_root(t / 2),
                    128,
                ) % q(),
        decreases 128 - i,
    {
        let root: usize = 2 * byte_rev(i) + 1;
        let mut even = F3329 { value: 0 };
        let mut odd = F3329 { value: 0 };
        let mut j: usize = 0;
        while j < 128
            invariant
                j <= 128,
                i < 128,
                root == ntt_root(i as int),
                root < 256,
                is_ring_elem(p@),
                table@.len() == 256,
                forall|k: int|
                    0 <= k < 256 ==> (#[trigger] table@[k]).wf() && table@[k]@ == zeta_pow(
                        k as nat,
                    ),
                even.wf(),
                odd.wf(),
                even@ == ntt_sum(p@, 0, root as nat, j as nat) % q(),
                odd@ == ntt_sum(p@, 1, root as nat, j as nat) % q(),
            decreases 128 - j,
        {
            assert(root * j < 256 * 128) by (nonlinear_arith)
                requires
                    root < 256,
                    j < 128,
            ;
            let index: usize = (root * j) % 256;
            let zeta = table[index];
            proof {
                lemma_zeta_pow_periodic((root * j) as nat);
                lemma_sum_step(
                    ntt_sum(p@, 0, root as nat, j as nat),
                    p@[2 * j + 0],
                    zeta_pow((root * j) as nat),
                );
                lemma_sum_step(
                    ntt_sum(p@, 1, root as nat, j as nat),
                    p@[2 * j + 1],
                    zeta_pow((root * j) as nat),
                );
            }
            let c0 = p.get(2 * j).mul(&zeta);
            let c1 = p.get(2 * j + 1).mul(&zeta);
            even = even.add(&c0);
            odd = odd.add(&c1);
            j += 1;
        }
        out.push(even);
        out.push(odd);
        i += 1;
    }
    let r = Poly3329 { coefficients: out };
    assert(r@ =~= ntt_seq(p@));
    r
}

/// The inverse transform of `p_hat`, with the scaling by `128^-1`.
pub fn rev_ntt(p_hat: &Poly3329) -> (r: Poly3329)
    requires
        is_ring_elem(p_hat@),
    ensures
        is_ring_elem(r@),
        r@ == intt_seq(p_hat@),
{
    let table = zetas();
    let scale = F3329 { value: 3303 };
    let mut out: Vec<F3329> = Vec::new();
    let mut j: usize = 0;
    while j < 128
        invariant
            j <= 128,
            is_ring_elem(p_hat@),
            scale@ == inv_128(),
            table@.len() == 256,
            forall|k: int|
                0 <= k < 256 ==> (#[trigger] table@[k]).wf() && table@[k]@ == zeta_pow(k as nat),
            out@.len() == 2 * j,
            forall|t: int|
                0 <= t < 2 * j ==> (#[trigger] out@[t]).wf() && out@[t]@ == (inv_128() * inv_sum(
                    p_hat@,
                    t % 2,
                    t / 2,
                    128,
                )) % q(),
        decreases 128 - j,
    {
        let mut even = F3329 { value: 0 };
        let mut odd = F3329 { value: 0 };
        let mut i: usize = 0;
        while i < 128
            invariant
                i <= 128,
                j < 128,
                is_ring_elem(p_hat@),
                table@.len() == 256,
                forall|k: int|
                    0 <= k < 256 ==> (#[trigger] table@[k]).wf() && table@[k]@ == zeta_pow(
                        k as nat,
                    ),
                even.wf(),
                odd.wf(),
                even@ == inv_sum(p_hat@, 0, j as int, i as nat) % q(),
                odd@ == inv_sum(p_hat@, 1, j as int, i as nat) % q(),
            decreases 128 - i,
        {
            let back: usize = 256 - (2 * byte_rev(i) + 1);
            assert(back * j < 256 * 128) by (nonlinear_arith)
                requires
                    back < 256,
                    j < 128,
            ;
            let index: usize = (back * j) % 256;
            let zeta = table[index];
            proof {
                lemma_zeta_pow_periodic((back * j) as nat);
                lemma_sum_step(
                    inv_sum(p_hat@, 0, j as int, i as nat),
                    p_hat@[2 * i + 0],
                    zeta_pow((back * j) as nat),
                );
                lemma_sum_step(
                    inv_sum(p_hat@, 1, j as int, i as nat),
                    p_hat@[2 * i + 1],
                    zeta_pow((back * j) as nat),
                );
            }
            let c0 = p_hat.get(2 * i).mul(&zeta);
            let c1 = p_hat.get(2 * i + 1).mul(&zeta);
            even = even.add(&c0);
            odd = odd.add(&c1);
            i += 1;
        }
        proof {
            lemma_mul_mod_noop_right(inv_128(), inv_sum(p_hat@, 0, j as int, 128), q());
            lemma_mul_mod_noop_right(inv_128(), inv_sum(p_hat@, 1, j as int, 128), q());
        }
        out.push(scale.mul(&even));
        out.push(scale.mul(&odd));
        j += 1;
    }
    let r = Poly3329 { coefficients: out };
    assert(r@ =~= intt_seq(p_hat@));
    r
}

/// The product of two transforms, pair by pair: pair `i` of `a` times pair
/// `i` of `b` modulo `X^2 - zeta^(2 br(i) + 1)`.
pub fn bcm(a: &Poly3329, b: &Poly3329) -> (r: Poly3329)
    requires
        is_ring_elem(a@),
        is_ring_elem(b@),
    ensures
        is_ring_elem(r@),
        r@ == bcm_seq(a@, b@),
{
    let table = zetas();
    let mut out: Vec<F3329> = Vec::new();
    let mut i: usize = 0;
    while i < 128
        invariant
            i <= 128,
            is_ring_elem(a@),
            is_ring_elem(b@),
            table@.len() == 256,
            forall|k: int|
                0 <= k < 256 ==> (#[trigger] table@[k]).wf() && table@[k]@ == zeta_pow(k as nat),
            out@.len() == 2 * i,
            forall|t: int|
                0 <= t < 2 * i ==> (#[trigger] out@[t]).wf() && out@[t]@ == bcm_seq(a@, b@)[t],
        decreases 128 - i,
    {
        let zeta = table[2 * byte_rev(i) + 1];
        let a0 = a.get(2 * i);
        let a1 = a.get(2 * i + 1);
        let b0 = b.get(2 * i);
        let b1 = b.get(2 * i + 1);
        let low_direct = a0.mul(&b0);
        let low_wrapped = a1.mul(&b1).mul(&zeta);
        let high_first = a0.mul(&b1);
        let high_second = a1.mul(&b0);
        proof {
            lemma_mul_mod_noop_left(a1@ * b1@, zeta@, q());
            lemma_add_mod_noop(a0@ * b0@, a1@ * b1@ * zeta@, q());
            lemma_add_mod_noop(a0@ * b1@, a1@ * b0@, q());
            assert((2 * i) / 2 == i && (2 * i + 1) / 2 == i);
        }
        out.push(low_direct.add(&low_wrapped));
        out.push(high_first.add(&high_second));
        i += 1;
    }
    let r = Poly3329 { coefficients: out };
    assert(r@ =~= bcm_seq(a@, b@));
    r
}

/// The dot product of two vectors of transforms: the sum of the products of
/// the components.
pub fn bcm_vec(a: &PolyVec3329, b: &PolyVec3329) -> (r: Poly3329)
    requires
        a.wf(),
        b.wf(),
        a@.len() == b@.len(),
    ensures
        is_ring_elem(r@),
        r@ == bcm_dot_seq(a@, b@, a@.len()),
{
    let l: usize = a.dimension();
    let mut p = Poly3329::init(256);
    let mut i: usize = 0;
    while i < l
        invariant
            i <= l,
            l == a@.len(),
            l == b@.len(),
            a.wf(),
            b.wf(),
            is_ring_elem(p@),
            p@ == bcm_dot_seq(a@, b@, i as nat),
        decreases l - i,
    {
        p = p.add(&bcm(&a.get(i), &b.get(i)));
        i += 1;
    }
    p
}

/// The product of a matrix and a vector of transforms: the dot product of
/// every row of `a` with `b`.
pub fn bcm_matrix_vec(a: &PolyMatrix3329, b: &PolyVec3329) -> (r: PolyVec3329)
    requires
        a.wf(),
        b.wf(),
        a@.len() > 0 ==> width_seq(a@) == b@.len(),
    ensures
        r.wf(),
        r@ == bcm_matrix_seq(a@, b@),
{
    let (x, y) = a.dimensions();
    let mut rows: Vec<Poly3329> = Vec::new();
    let mut i: usize = 0;
    while i < y
        invariant
            i <= y,
            y == a@.len(),
            a.wf(),
            b.wf(),
            a@.len() > 0 ==> width_seq(a@) == b@.len(),
            rows@.len() == i,
            forall|k: int|
                0 <= k < i ==> is_ring_elem((#[trigger] rows@[k])@) && rows@[k]@ == bcm_dot_seq(
                    a@[k],
                    b@,
                    b@.len(),
                ),
        decreases y - i,
    {
        rows.push(bcm_vec(&a.row(i), b));
        i += 1;
    }
    let r = PolyVec3329::from_vec(rows);
    assert(r@ =~= bcm_matrix_seq(a@, b@));
    r
}

/// The inverse transform of the product of two transforms: for the
/// transforms of `a` and `b`, the product of `a` and `b` in R_q.
pub fn ntt_product(a_hat: &Poly3329, b_hat: &Poly3329) -> (r: Poly3329)
    requires
        is_ring_elem(a_hat@),
        is_ring_elem(b_hat@),
    ensures
        is_ring_elem(r@),
        r@ == intt_seq(bcm_seq(a_hat@, b_hat@)),
{
    rev_ntt(&bcm(a_hat, b_hat))
}

/// The inverse transform of the dot product of two vectors of transforms.
pub fn ntt_product_vec(a_hat: &PolyVec3329, b_hat: &PolyVec3329) -> (r: Poly3329)
    requires
        a_hat.wf(),
        b_hat.wf(),
        a_hat@.len() == b_hat@.len(),
    ensures
        is_ring_elem(r@),
        r@ == intt_seq(bcm_dot_seq(a_hat@, b_hat@, a_hat@.len())),
{
    rev_ntt(&bcm_vec(a_hat, b_hat))
}

/// The inverse transform, row by row, of the product of a matrix and a
/// vector of transforms.
pub fn ntt_product_matvec(a_hat: &PolyMatrix3329, b_hat: &PolyVec3329) -> (r: PolyVec3329)
    requires
        a_hat.wf(),
        b_hat.wf(),
        a_hat@.len() > 0 ==> width_seq(a_hat@) == b_hat@.len(),
    ensures
        r.wf(),
        r@ == intt_vec_seq(bcm_matrix_seq(a_hat@, b_hat@)),
{
    rev_ntt_vec(&bcm_matrix_vec(a_hat, b_hat))
}

/// The transform of every component.
pub fn ntt_vec(p: &PolyVec3329) -> (r: PolyVec3329)
    requires
        p.wf(),
    ensures
        r.wf(),
        r@ == ntt_vec_seq(p@),
{
    let n: usize = p.dimension();
    let mut c: Vec<Poly3329> = Vec::new();
    let mut i: usize = 0;
    while i < n
        invariant
            i <= n,
            n == p@.len(),
            p.wf(),
            c@.len() == i,
            forall|k: int|
                0 <= k < i ==> is_ring_elem((#[trigger] c@[k])@) && c@[k]@ == ntt_seq(p@[k]),
        decreases n - i,
    {
        c.push(base_ntt(&p.get(i)));
        i += 1;
    }
    let r = PolyVec3329::from_vec(c);
    assert(r@ =~= ntt_vec_seq(p@));
    r
}

/// The inverse transform of every component.
pub fn rev_ntt_vec(p_hat: &PolyVec3329) -> (r: PolyVec3329)
    requires
        p_hat.wf(),
    ensures
        r.wf(),
        r@ == intt_vec_seq(p_hat@),
{
    let n: usize = p_hat.dimension();
    let mut c: Vec<Poly3329> = Vec::new();
    let mut i: usize = 0;
    while i < n
        invariant
            i <= n,
            n == p_hat@.len(),
            p_hat.wf(),
            c@.len() == i,
            forall|k: int|
                0 <= k < i ==> is_ring_elem((#[trigger] c@[k])@) && c@[k]@ == intt_seq(p_hat@[k]),
        decreases n - i,
    {
        c.push(rev_ntt(&p_hat.get(i)));
        i += 1;
    }
    let r = PolyVec3329::from_vec(c);
    assert(r@ =~= intt_vec_seq(p_hat@));
    r
}

} // verus!
