//! Multiplication in the image of the transform is multiplication in R_q.

use vstd::prelude::*;
use vstd::arithmetic::power2::lemma2_to64;
use vstd::arithmetic::div_mod::lemma_mod_bound;
use crate::congruence::{
    cong, lemma_cong_add, lemma_cong_mul, lemma_cong_mod, lemma_cong_multiple, lemma_cong_reduced,
};
use crate::field::{q, is_reduced};
use crate::inversion::lemma_ntt_inverse;
use crate::ntt::{
    zeta_pow, ntt_root, ntt_sum, ntt_seq, intt_seq, bcm_seq, lemma_zeta_pow_add,
    lemma_zeta_pow_periodic, lemma_zeta_order,
};
use crate::orthogonality::lemma_bit_rev_bound;
use crate::poly::{mul_seq, negacyclic_sum, negacyclic_term};
use crate::polyvec::is_ring_elem;

verus! {

/// `X^u * b` in Z[X]/(X^256 + 1): the coefficients of `b` moved up by `u`
/// places, those that pass the top coming back at the bottom with the sign
/// changed.
pub open spec fn shifted(b: Seq<int>, u: int) -> Seq<int> {
    Seq::new(256, |t: int| if u <= t { b[t - u] } else { -b[t - u + 256] })
}

/// `X * c` in Z[X]/(X^256 + 1).
pub open spec fn times_x(c: Seq<int>) -> Seq<int> {
    Seq::new(256, |t: int| if t == 0 { -c[255] } else { c[t - 1] })
}

/// Moving up by one more place is multiplying by `X`.
proof fn lemma_shifted_next(b: Seq<int>, u: int)
    requires
        0 <= u < 255,
    ensures
        shifted(b, u + 1) == times_x(shifted(b, u)),
{
    assert(shifted(b, u + 1) =~= times_x(shifted(b, u)));
}

/// The odd half of the transform of `X * c` is the even half of that of `c`.
proof fn lemma_times_x_odd(c: Seq<int>, e: nat, n: nat)
    requires
        n <= 128,
    ensures
        ntt_sum(times_x(c), 1, e, n) == ntt_sum(c, 0, e, n),
    decreases n,
{
    if n > 0 {
        lemma_times_x_odd(c, e, (n - 1) as nat);
    }
}

/// `zeta^(e (n + 1)) = zeta^e * zeta^(e n)` modulo `q`.
proof fn lemma_zeta_next(e: nat, n: nat)
    ensures
        cong(zeta_pow(e * (n + 1)), zeta_pow(e) * zeta_pow(e * n)),
{
    assert(e * (n + 1) == e + e * n) by (nonlinear_arith);
    lemma_zeta_pow_add(e, e * n);
    lemma_cong_mod(zeta_pow(e) * zeta_pow(e * n));
}

/// The even half of the transform of `X * c`, summed over the first `n`
/// pairs, is `-c[255]` plus `zeta^e` times the odd half of that of `c`
/// summed over one pair fewer.
proof fn lemma_times_x_even_partial(c: Seq<int>, e: nat, n: nat)
    requires
        1 <= n <= 128,
    ensures
        cong(
            ntt_sum(times_x(c), 0, e, n),
            -c[255] + zeta_pow(e) * ntt_sum(c, 1, e, (n - 1) as nat),
        ),
    decreases n,
{
    let x = times_x(c);
    let ze = zeta_pow(e);
    if n == 1 {
        assert(ntt_sum(x, 0, e, 0) == 0);
        assert(e * 0 == 0) by (nonlinear_arith);
        assert(zeta_pow(0) == 1);
        assert(ntt_sum(x, 0, e, 1) == x[0] * 1);
        assert(ntt_sum(c, 1, e, 0) == 0);
        assert(ze * 0 == 0);
    } else {
        let m: nat = (n - 1) as nat;
        let k: nat = (n - 2) as nat;
        lemma_times_x_even_partial(c, e, m);
        // new term on the left: x[2m] zeta^(e m) = c[2m - 1] zeta^(e m)
        // new term on the right: zeta^e c[2k + 1] zeta^(e k)
        let coeff = c[2 * m - 1];
        assert(x[2 * (m as int)] == coeff);
        assert(c[2 * (k as int) + 1] == coeff);
        lemma_zeta_next(e, k);
        assert(e * (k + 1) == e * m) by (nonlinear_arith)
            requires
                k + 1 == m,
        ;
        let zm = zeta_pow(e * m);
        let zk = zeta_pow(e * k);
        assert(zeta_pow((e * (m as int)) as nat) == zm);
        assert(zeta_pow((e * (k as int)) as nat) == zk);
        lemma_cong_mul(coeff, coeff, zm, ze * zk);
        lemma_cong_add(
            ntt_sum(x, 0, e, m),
            -c[255] + ze * ntt_sum(c, 1, e, k),
            coeff * zm,
            coeff * (ze * zk),
        );
        assert(ntt_sum(x, 0, e, n) == ntt_sum(x, 0, e, m) + coeff * zm);
        assert(ntt_sum(c, 1, e, m) == ntt_sum(c, 1, e, k) + coeff * zk);
        assert(-c[255] + ze * ntt_sum(c, 1, e, k) + coeff * (ze * zk) == -c[255] + ze * ntt_sum(
            c,
            1,
            e,
            m,
        )) by (nonlinear_arith)
            requires
                ntt_sum(c, 1, e, m) == ntt_sum(c, 1, e, k) + coeff * zk,
        ;
    }
}

/// For an odd exponent `e`, `zeta^(128 e) = -1`.
proof fn lemma_half_turn(e: nat)
    requires
        e % 2 == 1,
    ensures
        zeta_pow(128 * e) == q() - 1,
{
    lemma_zeta_order();
    lemma_zeta_pow_periodic(128 * e);
    assert((128 * e) % 256 == 128);
}

/// The even half of the transform of `X * c` is `zeta^e` times the odd half
/// of that of `c`, for an odd exponent `e`.
proof fn lemma_times_x_even(c: Seq<int>, e: nat)
    requires
        e % 2 == 1,
    ensures
        cong(ntt_sum(times_x(c), 0, e, 128), zeta_pow(e) * ntt_sum(c, 1, e, 128)),
{
    let ze = zeta_pow(e);
    let low = ntt_sum(c, 1, e, 127);
    let z127 = zeta_pow(e * 127);
    lemma_times_x_even_partial(c, e, 128);
    assert(ntt_sum(c, 1, e, 128) == low + c[255] * zeta_pow((e * 127) as nat));
    // zeta^e zeta^(127 e) = zeta^(128 e) = -1
    lemma_zeta_next(e, 127);
    assert(e * (127 + 1) == 128 * e) by (nonlinear_arith);
    lemma_half_turn(e);
    assert(cong(q() - 1, ze * z127));
    lemma_cong_multiple(1);
    lemma_cong_add(q() * 1, 0, -1, -1);
    assert(cong(-1, ze * z127));
    lemma_cong_mul(c[255], c[255], -1, ze * z127);
    lemma_cong_add(ze * low, ze * low, c[255] * (-1), c[255] * (ze * z127));
    assert(ze * low + c[255] * (-1) == -c[255] + ze * low) by (nonlinear_arith);
    assert(ze * low + c[255] * (ze * z127) == ze * (low + c[255] * z127)) by (nonlinear_arith);
}

/// What `X^u * b` contributes to the even half of a transform with
/// exponent `e`, where `b0` and `b1` are the two halves of the transform of
/// `b`: `X^(2h) = zeta^(e h)` and `X^(2h + 1) = zeta^(e h) X` modulo
/// `X^2 - zeta^e`.
pub open spec fn image_even(e: nat, b0: int, b1: int, u: int) -> int {
    if u % 2 == 0 {
        zeta_pow((e * (u / 2)) as nat) * b0
    } else {
        zeta_pow((e * ((u + 1) / 2)) as nat) * b1
    }
}

/// What `X^u * b` contributes to the odd half.
pub open spec fn image_odd(e: nat, b0: int, b1: int, u: int) -> int {
    if u % 2 == 0 {
        zeta_pow((e * (u / 2)) as nat) * b1
    } else {
        zeta_pow((e * ((u - 1) / 2)) as nat) * b0
    }
}

/// The transform of `X^u * b`, in terms of the transform of `b`.
proof fn lemma_shift_image(b: Seq<int>, e: nat, u: int)
    requires
        b.len() == 256,
        e % 2 == 1,
        0 <= u <= 255,
    ensures
        cong(
            ntt_sum(shifted(b, u), 0, e, 128),
            image_even(e, ntt_sum(b, 0, e, 128), ntt_sum(b, 1, e, 128), u),
        ),
        cong(
            ntt_sum(shifted(b, u), 1, e, 128),
            image_odd(e, ntt_sum(b, 0, e, 128), ntt_sum(b, 1, e, 128), u),
        ),
    decreases u,
{
    let b0 = ntt_sum(b, 0, e, 128);
    let b1 = ntt_sum(b, 1, e, 128);
    if u == 0 {
        assert(shifted(b, 0) =~= b);
        assert(e * 0 == 0) by (nonlinear_arith);
        assert(zeta_pow(0) == 1);
        assert(1 * b0 == b0 && 1 * b1 == b1);
    } else {
        let v = u - 1;
        let s = shifted(b, v);
        lemma_shift_image(b, e, v);
        lemma_shifted_next(b, v);
        lemma_times_x_even(s, e);
        lemma_times_x_odd(s, e, 128);
        let ze = zeta_pow(e);
        // even half: zeta^e * image_odd(v) = image_even(u)
        lemma_cong_mul(ze, ze, ntt_sum(s, 1, e, 128), image_odd(e, b0, b1, v));
        if v % 2 == 0 {
            let h = (v / 2) as nat;
            assert((u + 1) / 2 == h + 1 && (u - 1) / 2 == h);
            lemma_zeta_next(e, h);
            lemma_cong_mul(zeta_pow(e * (h + 1)), ze * zeta_pow(e * h), b1, b1);
            assert(ze * (zeta_pow(e * h) * b1) == (ze * zeta_pow(e * h)) * b1)
                by (nonlinear_arith);
            assert(zeta_pow((e * ((v / 2) as int)) as nat) == zeta_pow(e * h));
            assert(zeta_pow((e * (((u + 1) / 2) as int)) as nat) == zeta_pow(e * (h + 1)));
            assert(zeta_pow((e * (((u - 1) / 2) as int)) as nat) == zeta_pow(e * h));
        } else {
            let h = ((v - 1) / 2) as nat;
            assert(u / 2 == h + 1 && (v + 1) / 2 == h + 1);
            lemma_zeta_next(e, h);
            lemma_cong_mul(zeta_pow(e * (h + 1)), ze * zeta_pow(e * h), b0, b0);
            assert(ze * (zeta_pow(e * h) * b0) == (ze * zeta_pow(e * h)) * b0)
                by (nonlinear_arith);
            assert(zeta_pow((e * (((v - 1) / 2) as int)) as nat) == zeta_pow(e * h));
            assert(zeta_pow((e * ((u / 2) as int)) as nat) == zeta_pow(e * (h + 1)));
            assert(zeta_pow((e * (((v + 1) / 2) as int)) as nat) == zeta_pow(e * (h + 1)));
        }
    }
}

/// The product of `a` and `b` with only the first `upto` coefficients of
/// `a` taken into account, before reduction modulo `q`.
pub open spec fn partial_product(a: Seq<int>, b: Seq<int>, upto: nat) -> Seq<int> {
    Seq::new(256, |t: int| negacyclic_sum(a, b, t, upto))
}

/// With no coefficient of `a` taken into account, the transform is zero.
proof fn lemma_partial_zero(a: Seq<int>, b: Seq<int>, parity: int, e: nat, n: nat)
    requires
        n <= 128,
        parity == 0 || parity == 1,
    ensures
        ntt_sum(partial_product(a, b, 0), parity, e, n) == 0,
    decreases n,
{
    if n > 0 {
        lemma_partial_zero(a, b, parity, e, (n - 1) as nat);
        let z = zeta_pow((e * (n - 1)) as nat);
        assert(partial_product(a, b, 0)[2 * (n - 1) + parity] == 0);
        assert(0 * z == 0);
    }
}

/// One more coefficient of `a` adds that coefficient times the transform of
/// the shifted `b`.
proof fn lemma_partial_linear(a: Seq<int>, b: Seq<int>, parity: int, e: nat, upto: nat, n: nat)
    requires
        a.len() == 256,
        upto < 256,
        n <= 128,
        parity == 0 || parity == 1,
    ensures
        ntt_sum(partial_product(a, b, upto + 1), parity, e, n) == ntt_sum(
            partial_product(a, b, upto),
            parity,
            e,
            n,
        ) + a[upto as int] * ntt_sum(shifted(b, upto as int), parity, e, n),
    decreases n,
{
    let more = partial_product(a, b, upto + 1);
    let less = partial_product(a, b, upto);
    let sh = shifted(b, upto as int);
    let au = a[upto as int];
    if n == 0 {
        assert(au * 0 == 0);
    } else {
        let m = (n - 1) as nat;
        lemma_partial_linear(a, b, parity, e, upto, m);
        let t = 2 * (n - 1) + parity;
        let z = zeta_pow((e * (n - 1)) as nat);
        assert(more[t] == less[t] + negacyclic_term(a, b, t, upto as int));
        assert(negacyclic_term(a, b, t, upto as int) == au * sh[t]) by {
            if upto <= t {
                assert(sh[t] == b[t - upto]);
            } else {
                assert(sh[t] == -b[t - upto + 256]);
                assert(-(au * b[t - upto + 256]) == au * (-b[t - upto + 256]))
                    by (nonlinear_arith);
            }
        }
        assert((less[t] + au * sh[t]) * z == less[t] * z + au * (sh[t] * z)) by (nonlinear_arith);
        assert(au * ntt_sum(sh, parity, e, m) + au * (sh[t] * z) == au * (ntt_sum(sh, parity, e, m)
            + sh[t] * z)) by (nonlinear_arith);
    }
}

/// The sum over `u < upto` of `a[u]` times what `X^u * b` contributes to
/// one half of the transform.
pub open spec fn image_sum(a: Seq<int>, e: nat, b0: int, b1: int, parity: int, upto: nat) -> int
    decreases upto,
{
    if upto == 0 {
        0
    } else {
        image_sum(a, e, b0, b1, parity, (upto - 1) as nat) + a[upto - 1] * (if parity == 0 {
            image_even(e, b0, b1, upto - 1)
        } else {
            image_odd(e, b0, b1, upto - 1)
        })
    }
}

/// The transform of a partial product is the sum of the contributions.
proof fn lemma_partial_image(a: Seq<int>, b: Seq<int>, parity: int, e: nat, upto: nat)
    requires
        a.len() == 256,
        b.len() == 256,
        e % 2 == 1,
        upto <= 256,
        parity == 0 || parity == 1,
    ensures
        cong(
            ntt_sum(partial_product(a, b, upto), parity, e, 128),
            image_sum(a, e, ntt_sum(b, 0, e, 128), ntt_sum(b, 1, e, 128), parity, upto),
        ),
    decreases upto,
{
    let b0 = ntt_sum(b, 0, e, 128);
    let b1 = ntt_sum(b, 1, e, 128);
    if upto == 0 {
        lemma_partial_zero(a, b, parity, e, 128);
    } else {
        let u = (upto - 1) as nat;
        lemma_partial_image(a, b, parity, e, u);
        lemma_partial_linear(a, b, parity, e, u, 128);
        lemma_shift_image(b, e, u as int);
        let au = a[u as int];
        let sh = ntt_sum(shifted(b, u as int), parity, e, 128);
        let im = if parity == 0 {
            image_even(e, b0, b1, u as int)
        } else {
            image_odd(e, b0, b1, u as int)
        };
        lemma_cong_mul(au, au, sh, im);
        lemma_cong_add(
            ntt_sum(partial_product(a, b, u), parity, e, 128),
            image_sum(a, e, b0, b1, parity, u),
            au * sh,
            au * im,
        );
    }
}

/// The even contributions of the first `2 * half` coefficients of `a` sum
/// to `a0 * b0 + zeta^e * a1 * b1`, where `a0` and `a1` are the halves of
/// the transform of `a` over `half` pairs.
proof fn lemma_image_closed_even(a: Seq<int>, e: nat, b0: int, b1: int, half: nat)
    ensures
        cong(
            image_sum(a, e, b0, b1, 0, 2 * half),
            ntt_sum(a, 0, e, half) * b0 + zeta_pow(e) * (ntt_sum(a, 1, e, half) * b1),
        ),
    decreases half,
{
    let ze = zeta_pow(e);
    if half == 0 {
        assert(0 * b0 + ze * (0 * b1) == 0) by (nonlinear_arith);
    } else {
        let h = (half - 1) as nat;
        let hi: int = half - 1;
        lemma_image_closed_even(a, e, b0, b1, h);
        let x0 = a[2 * hi];
        let x1 = a[2 * hi + 1];
        let zh = zeta_pow(e * h);
        let zn = zeta_pow(e * (h + 1));
        let a0 = ntt_sum(a, 0, e, h);
        let a1 = ntt_sum(a, 1, e, h);
        assert(zeta_pow((e * (h as int)) as nat) == zh);
        assert((2 * hi) % 2 == 0 && (2 * hi) / 2 == hi);
        assert((2 * hi + 1) % 2 == 1 && (2 * hi + 1 + 1) / 2 == hi + 1);
        assert(image_even(e, b0, b1, 2 * hi) == zh * b0);
        assert(image_even(e, b0, b1, 2 * hi + 1) == zn * b1) by {
            assert(zeta_pow((e * ((h + 1) as int)) as nat) == zn);
        }
        assert(image_sum(a, e, b0, b1, 0, 2 * half) == image_sum(a, e, b0, b1, 0, (2 * h) as nat)
            + x0 * (zh * b0) + x1 * (zn * b1)) by {
            assert(image_sum(a, e, b0, b1, 0, 2 * half) == image_sum(
                a,
                e,
                b0,
                b1,
                0,
                (2 * h + 1) as nat,
            ) + a[2 * half - 1] * image_even(e, b0, b1, 2 * half - 1));
            assert(image_sum(a, e, b0, b1, 0, (2 * h + 1) as nat) == image_sum(
                a,
                e,
                b0,
                b1,
                0,
                (2 * h) as nat,
            ) + a[2 * hi] * image_even(e, b0, b1, 2 * hi));
        }
        lemma_zeta_next(e, h);
        lemma_cong_mul(zn, ze * zh, b1, b1);
        lemma_cong_mul(x1, x1, zn * b1, (ze * zh) * b1);
        lemma_cong_add(
            image_sum(a, e, b0, b1, 0, (2 * h) as nat),
            a0 * b0 + ze * (a1 * b1),
            x0 * (zh * b0),
            x0 * (zh * b0),
        );
        lemma_cong_add(
            image_sum(a, e, b0, b1, 0, (2 * h) as nat) + x0 * (zh * b0),
            a0 * b0 + ze * (a1 * b1) + x0 * (zh * b0),
            x1 * (zn * b1),
            x1 * ((ze * zh) * b1),
        );
        let t1 = x1 * zh;
        assert((a0 + x0 * zh) * b0 == a0 * b0 + x0 * (zh * b0)) by (nonlinear_arith);
        assert((a1 + t1) * b1 == a1 * b1 + t1 * b1) by (nonlinear_arith);
        assert(ze * (a1 * b1 + t1 * b1) == ze * (a1 * b1) + ze * (t1 * b1)) by (nonlinear_arith);
        assert(ze * (t1 * b1) == x1 * ((ze * zh) * b1)) by (nonlinear_arith)
            requires
                t1 == x1 * zh,
        ;
    }
}

/// The odd contributions of the first `2 * half` coefficients of `a` sum to
/// `a0 * b1 + a1 * b0`.
proof fn lemma_image_closed_odd(a: Seq<int>, e: nat, b0: int, b1: int, half: nat)
    ensures
        image_sum(a, e, b0, b1, 1, 2 * half) == ntt_sum(a, 0, e, half) * b1 + ntt_sum(
            a,
            1,
            e,
            half,
        ) * b0,
    decreases half,
{
    if half == 0 {
        assert(0 * b1 + 0 * b0 == 0) by (nonlinear_arith);
    } else {
        let h = (half - 1) as nat;
        let hi: int = half - 1;
        lemma_image_closed_odd(a, e, b0, b1, h);
        let x0 = a[2 * hi];
        let x1 = a[2 * hi + 1];
        let zh = zeta_pow(e * h);
        let a0 = ntt_sum(a, 0, e, h);
        let a1 = ntt_sum(a, 1, e, h);
        assert(zeta_pow((e * (h as int)) as nat) == zh);
        assert((2 * hi) % 2 == 0 && (2 * hi) / 2 == hi);
        assert((2 * hi + 1) % 2 == 1 && (2 * hi + 1 - 1) / 2 == hi);
        assert(image_odd(e, b0, b1, 2 * hi) == zh * b1);
        assert(image_odd(e, b0, b1, 2 * hi + 1) == zh * b0);
        assert(image_sum(a, e, b0, b1, 1, 2 * half) == image_sum(a, e, b0, b1, 1, (2 * h) as nat)
            + x0 * (zh * b1) + x1 * (zh * b0)) by {
            assert(image_sum(a, e, b0, b1, 1, 2 * half) == image_sum(
                a,
                e,
                b0,
                b1,
                1,
                (2 * h + 1) as nat,
            ) + a[2 * half - 1] * image_odd(e, b0, b1, 2 * half - 1));
            assert(image_sum(a, e, b0, b1, 1, (2 * h + 1) as nat) == image_sum(
                a,
                e,
                b0,
                b1,
                1,
                (2 * h) as nat,
            ) + a[2 * hi] * image_odd(e, b0, b1, 2 * hi));
        }
        assert(a0 * b1 + a1 * b0 + x0 * (zh * b1) + x1 * (zh * b0) == (a0 + x0 * zh) * b1 + (a1
            + x1 * zh) * b0) by (nonlinear_arith);
    }
}

/// Sequences that agree modulo `q` have transforms that agree modulo `q`.
proof fn lemma_ntt_sum_cong(x: Seq<int>, y: Seq<int>, parity: int, e: nat, n: nat)
    requires
        n <= 128,
        parity == 0 || parity == 1,
        forall|t: int| 0 <= t < 256 ==> cong(#[trigger] x[t], y[t]),
    ensures
        cong(ntt_sum(x, parity, e, n), ntt_sum(y, parity, e, n)),
    decreases n,
{
    if n > 0 {
        lemma_ntt_sum_cong(x, y, parity, e, (n - 1) as nat);
        let t = 2 * (n - 1) + parity;
        let z = zeta_pow((e * (n - 1)) as nat);
        assert(cong(x[t], y[t]));
        lemma_cong_mul(x[t], y[t], z, z);
        lemma_cong_add(
            ntt_sum(x, parity, e, (n - 1) as nat),
            ntt_sum(y, parity, e, (n - 1) as nat),
            x[t] * z,
            y[t] * z,
        );
    }
}

/// The transform is multiplicative: the transform of a product in R_q is
/// the pairwise product of the transforms.
pub proof fn lemma_ntt_multiplicative(a: Seq<int>, b: Seq<int>)
    requires
        is_ring_elem(a),
        is_ring_elem(b),
    ensures
        ntt_seq(mul_seq(a, b)) == bcm_seq(ntt_seq(a), ntt_seq(b)),
{
    let c = mul_seq(a, b);
    let whole = partial_product(a, b, 256);
    let left = ntt_seq(c);
    let right = bcm_seq(ntt_seq(a), ntt_seq(b));
    assert forall|t: int| 0 <= t < 256 implies cong(#[trigger] c[t], whole[t]) by {
        lemma_cong_mod(negacyclic_sum(a, b, t, 256));
    }
    assert forall|t: int| 0 <= t < 256 implies left[t] == right[t] by {
        let parity = t % 2;
        let i = t / 2;
        let e = ntt_root(i);
        lemma_bit_rev_bound(7, i);
        lemma2_to64();
        assert(e % 2 == 1);
        let a0 = ntt_sum(a, 0, e, 128);
        let a1 = ntt_sum(a, 1, e, 128);
        let b0 = ntt_sum(b, 0, e, 128);
        let b1 = ntt_sum(b, 1, e, 128);
        let ze = zeta_pow(e);
        lemma_ntt_sum_cong(c, whole, parity, e, 128);
        lemma_partial_image(a, b, parity, e, 256);
        assert((2 * i) % 2 == 0 && (2 * i) / 2 == i && (2 * i + 1) % 2 == 1 && (2 * i + 1) / 2
            == i);
        assert(ntt_seq(a)[2 * i] == a0 % q() && ntt_seq(a)[2 * i + 1] == a1 % q());
        assert(ntt_seq(b)[2 * i] == b0 % q() && ntt_seq(b)[2 * i + 1] == b1 % q());
        lemma_cong_mod(a0);
        lemma_cong_mod(a1);
        lemma_cong_mod(b0);
        lemma_cong_mod(b1);
        if parity == 0 {
            lemma_image_closed_even(a, e, b0, b1, 128);
            // the right side: (a0' b0' + a1' b1' zeta^e) % q
            lemma_cong_mul(a0 % q(), a0, b0 % q(), b0);
            lemma_cong_mul(a1 % q(), a1, b1 % q(), b1);
            lemma_cong_mul((a1 % q()) * (b1 % q()), a1 * b1, ze, ze);
            lemma_cong_add(
                (a0 % q()) * (b0 % q()),
                a0 * b0,
                (a1 % q()) * (b1 % q()) * ze,
                a1 * b1 * ze,
            );
            assert(a1 * b1 * ze == ze * (a1 * b1)) by (nonlinear_arith);
            let r = (a0 % q()) * (b0 % q()) + (a1 % q()) * (b1 % q()) * ze;
            assert(right[t] == r % q());
            lemma_cong_mod(r);
            lemma_cong_mod(ntt_sum(c, 0, e, 128));
            lemma_mod_bound(r, q());
            lemma_mod_bound(ntt_sum(c, 0, e, 128), q());
            lemma_cong_reduced(left[t], right[t]);
        } else {
            lemma_image_closed_odd(a, e, b0, b1, 128);
            lemma_cong_mul(a0 % q(), a0, b1 % q(), b1);
            lemma_cong_mul(a1 % q(), a1, b0 % q(), b0);
            lemma_cong_add(
                (a0 % q()) * (b1 % q()),
                a0 * b1,
                (a1 % q()) * (b0 % q()),
                a1 * b0,
            );
            let r = (a0 % q()) * (b1 % q()) + (a1 % q()) * (b0 % q());
            assert(right[t] == r % q());
            lemma_cong_mod(r);
            lemma_cong_mod(ntt_sum(c, 1, e, 128));
            lemma_mod_bound(r, q());
            lemma_mod_bound(ntt_sum(c, 1, e, 128), q());
            lemma_cong_reduced(left[t], right[t]);
        }
    }
    assert(left =~= right);
}

/// A product in R_q is an element of R_q.
pub proof fn lemma_mul_seq_ring_elem(a: Seq<int>, b: Seq<int>)
    requires
        a.len() == 256,
    ensures
        is_ring_elem(mul_seq(a, b)),
{
    assert forall|t: int| 0 <= t < 256 implies is_reduced(#[trigger] mul_seq(a, b)[t]) by {
        lemma_mod_bound(negacyclic_sum(a, b, t, 256), q());
    }
}

/// Transforming two elements of R_q, multiplying the transforms pair by
/// pair and transforming back gives their product modulo `X^256 + 1`.
pub proof fn lemma_ntt_product(a: Seq<int>, b: Seq<int>)
    requires
        is_ring_elem(a),
        is_ring_elem(b),
    ensures
        intt_seq(bcm_seq(ntt_seq(a), ntt_seq(b))) == mul_seq(a, b),
{
    lemma_ntt_multiplicative(a, b);
    lemma_mul_seq_ring_elem(a, b);
    lemma_ntt_inverse(mul_seq(a, b));
}

} // verus!
