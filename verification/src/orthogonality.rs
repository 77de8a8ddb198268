//! The roots of the transform are orthogonal: summed over all 128 pairs,
//! the powers that link coefficient `k` of the input with coefficient `j` of
//! the output cancel unless `k = j`.

use vstd::prelude::*;
use vstd::arithmetic::power2::{pow2, lemma2_to64, lemma_pow2_unfold};
use vstd::arithmetic::div_mod::{lemma_fundamental_div_mod_converse, lemma_mod_multiples_vanish};
use crate::congruence::{cong, lemma_cong_add, lemma_cong_mul, lemma_cong_mod, lemma_cong_multiple};
use crate::field::q;
use crate::ntt::{
    zeta_pow, bit_rev, ntt_root, lemma_zeta_pow_add, lemma_zeta_pow_periodic, lemma_zeta_order,
};

verus! {

/// The sum over `i < m` of `zeta^(c + br_n(i) * s)`, where `br_n` reverses
/// `n` bits.
pub open spec fn rev_sum(n: nat, c: nat, s: nat, m: nat) -> int
    decreases m,
{
    if m == 0 {
        0
    } else {
        rev_sum(n, c, s, (m - 1) as nat) + zeta_pow((c + bit_rev(n, m - 1) * s) as nat)
    }
}

/// Reversed bits are not negative.
pub proof fn lemma_bit_rev_bound(n: nat, i: int)
    ensures
        0 <= bit_rev(n, i) < pow2(n),
    decreases n,
{
    lemma2_to64();
    if n > 0 {
        lemma_bit_rev_bound((n - 1) as nat, i / 2);
        lemma_pow2_unfold(n);
    }
}

/// The sum over the first `2m` indices of `n + 1` bits splits by the lowest
/// bit, which reversal makes the highest.
proof fn lemma_rev_sum_pairs(n: nat, c: nat, s: nat, m: nat)
    ensures
        rev_sum(n + 1, c, s, 2 * m) == rev_sum(n, c, s, m) + rev_sum(n, c + pow2(n) * s, s, m),
    decreases m,
{
    if m > 0 {
        let p: int = m - 1;
        lemma_rev_sum_pairs(n, c, s, p as nat);
        let b = bit_rev(n, p);
        lemma_bit_rev_bound(n, p);
        assert(bit_rev(n + 1, 2 * p) == b) by {
            assert((2 * p) / 2 == p && (2 * p) % 2 == 0);
        }
        assert(bit_rev(n + 1, 2 * p + 1) == pow2(n) + b) by {
            assert((2 * p + 1) / 2 == p && (2 * p + 1) % 2 == 1);
        }
        assert(c + (pow2(n) + b) * s == c + pow2(n) * s + b * s) by (nonlinear_arith);
        assert(rev_sum(n + 1, c, s, 2 * m) == rev_sum(n + 1, c, s, (2 * m - 1) as nat) + zeta_pow(
            (c + bit_rev(n + 1, 2 * m - 1) * s) as nat,
        ));
        assert(rev_sum(n + 1, c, s, (2 * m - 1) as nat) == rev_sum(n + 1, c, s, (2 * p) as nat)
            + zeta_pow((c + bit_rev(n + 1, 2 * p) * s) as nat));
    }
}

/// Shifting the base exponent by `d` multiplies the sum by `zeta^d`.
proof fn lemma_rev_sum_factor(n: nat, c: nat, d: nat, s: nat, m: nat)
    ensures
        cong(rev_sum(n, c + d, s, m), zeta_pow(d) * rev_sum(n, c, s, m)),
    decreases m,
{
    if m == 0 {
        assert(zeta_pow(d) * 0 == 0);
    } else {
        let p = (m - 1) as nat;
        lemma_rev_sum_factor(n, c, d, s, p);
        lemma_bit_rev_bound(n, p as int);
        let e = bit_rev(n, p as int) * s;
        assert(e >= 0) by (nonlinear_arith)
            requires
                bit_rev(n, p as int) >= 0,
                s >= 0,
                e == bit_rev(n, p as int) * s,
        ;
        lemma_zeta_pow_add(d, (c + e) as nat);
        assert(d + (c + e) == c + d + e);
        lemma_cong_mod(zeta_pow(d) * zeta_pow((c + e) as nat));
        lemma_cong_add(
            rev_sum(n, c + d, s, p),
            zeta_pow(d) * rev_sum(n, c, s, p),
            zeta_pow((c + d + e) as nat),
            zeta_pow(d) * zeta_pow((c + e) as nat),
        );
        assert(zeta_pow(d) * rev_sum(n, c, s, p) + zeta_pow(d) * zeta_pow((c + e) as nat)
            == zeta_pow(d) * rev_sum(n, c, s, m)) by (nonlinear_arith)
            requires
                rev_sum(n, c, s, m) == rev_sum(n, c, s, p) + zeta_pow((c + e) as nat),
        ;
    }
}

/// Where some `zeta^(2^t * s)` with `t < n` is `-1`, the sum over all
/// indices of `n` bits vanishes.
proof fn lemma_rev_sum_vanishes(n: nat, c: nat, s: nat, t: nat)
    requires
        t < n,
        zeta_pow(pow2(t) * s) == q() - 1,
    ensures
        cong(rev_sum(n, c, s, pow2(n)), 0),
    decreases n,
{
    let h = (n - 1) as nat;
    let half = pow2(h);
    let d = pow2(h) * s;
    lemma_pow2_unfold(n);
    lemma_rev_sum_pairs(h, c, s, half);
    lemma_rev_sum_factor(h, c, d, s, half);
    let x = rev_sum(h, c, s, half);
    let y = rev_sum(h, c + d, s, half);
    assert(rev_sum(n, c, s, pow2(n)) == x + y);
    // x + y = (1 + zeta^d) x modulo q
    lemma_cong_add(x, x, y, zeta_pow(d) * x);
    assert(x + zeta_pow(d) * x == (1 + zeta_pow(d)) * x) by (nonlinear_arith);
    if t == h {
        assert((1 + zeta_pow(d)) * x == q() * x) by (nonlinear_arith)
            requires
                zeta_pow(d) == q() - 1,
        ;
        lemma_cong_multiple(x);
    } else {
        lemma_rev_sum_vanishes(h, c, s, t);
        lemma_cong_mul(1 + zeta_pow(d), 1 + zeta_pow(d), x, 0);
        assert((1 + zeta_pow(d)) * 0 == 0);
    }
}

/// At an odd multiple of 128, `zeta` takes the value `-1`.
proof fn lemma_minus_one_at(e: nat, h: nat)
    requires
        e == 256 * h + 128,
    ensures
        zeta_pow(e) == q() - 1,
{
    lemma_zeta_order();
    lemma_fundamental_div_mod_converse(e as int, 256, h as int, 128);
    lemma_zeta_pow_periodic(e);
}

/// For an even `s` strictly between 0 and 256 some doubling of `s` below
/// `2^7 s` is an odd multiple of 128, where `zeta` takes the value `-1`.
proof fn lemma_some_doubling_is_minus_one(s: nat) -> (t: nat)
    requires
        0 < s < 256,
        s % 2 == 0,
    ensures
        t < 7,
        zeta_pow(pow2(t) * s) == q() - 1,
{
    assert(pow2(0) == 1 && pow2(1) == 2 && pow2(2) == 4 && pow2(3) == 8 && pow2(4) == 16 && pow2(5)
        == 32 && pow2(6) == 64) by {
        lemma2_to64();
    }
    if s % 4 == 2 {
        let h = s / 4;
        assert(64 * s == 256 * h + 128);
        lemma_minus_one_at(64 * s, h);
        6
    } else if s % 8 == 4 {
        let h = s / 8;
        assert(32 * s == 256 * h + 128);
        lemma_minus_one_at(32 * s, h);
        5
    } else if s % 16 == 8 {
        let h = s / 16;
        assert(16 * s == 256 * h + 128);
        lemma_minus_one_at(16 * s, h);
        4
    } else if s % 32 == 16 {
        let h = s / 32;
        assert(8 * s == 256 * h + 128);
        lemma_minus_one_at(8 * s, h);
        3
    } else if s % 64 == 32 {
        let h = s / 64;
        assert(4 * s == 256 * h + 128);
        lemma_minus_one_at(4 * s, h);
        2
    } else if s % 128 == 64 {
        let h = s / 128;
        assert(2 * s == 256 * h + 128);
        lemma_minus_one_at(2 * s, h);
        1
    } else {
        assert(s == 128);
        assert(1 * s == 256 * 0 + 128);
        lemma_minus_one_at(1 * s, 0);
        0
    }
}

/// With `s = 0` every term of the sum is `zeta^c`.
proof fn lemma_rev_sum_constant(n: nat, c: nat, m: nat)
    ensures
        rev_sum(n, c, 0, m) == m * zeta_pow(c),
    decreases m,
{
    if m == 0 {
        assert(0 * zeta_pow(c) == 0);
    } else {
        lemma_rev_sum_constant(n, c, (m - 1) as nat);
        assert(bit_rev(n, m - 1) * 0 == 0);
        assert((m - 1) * zeta_pow(c) + zeta_pow(c) == m * zeta_pow(c)) by (nonlinear_arith);
    }
}

/// The exponent of `zeta` that takes pair `i` of a transform back.
pub open spec fn back_root(i: int) -> nat {
    (256 - ntt_root(i)) as nat
}

/// The sum over the pairs `i < n` of `zeta^(root(i) * k - root(i) * j)`,
/// the negative part written as `back_root(i) * j`.
pub open spec fn cross(n: nat, k: int, j: int) -> int
    decreases n,
{
    if n == 0 {
        0
    } else {
        cross((n - 1) as nat, k, j) + zeta_pow((ntt_root(n - 1) * k + back_root(n - 1) * j) as nat)
    }
}

/// The step between consecutive exponents of `cross`: `2 (k - j)` modulo
/// 256.
pub open spec fn cross_step(k: int, j: int) -> nat {
    if k >= j {
        (2 * (k - j)) as nat
    } else {
        (256 - 2 * (j - k)) as nat
    }
}

/// `cross` is a sum over reversed indices.
proof fn lemma_cross_is_rev_sum(n: nat, k: int, j: int)
    requires
        n <= 128,
        0 <= k < 128,
        0 <= j < 128,
    ensures
        cross(n, k, j) == rev_sum(7, (k + 255 * j) as nat, cross_step(k, j), n),
    decreases n,
{
    if n > 0 {
        let i = n - 1;
        lemma_cross_is_rev_sum(i as nat, k, j);
        lemma_bit_rev_bound(7, i);
        lemma2_to64();
        let b = bit_rev(7, i);
        let s = cross_step(k, j);
        let e1 = ntt_root(i) * k + back_root(i) * j;
        let e2 = k + 255 * j + b * s;
        assert(e1 == k + 255 * j + 2 * (b * k) - 2 * (b * j)) by (nonlinear_arith)
            requires
                e1 == (2 * b + 1) * k + (256 - (2 * b + 1)) * j,
        ;
        assert(e1 >= 0 && e2 >= 0) by (nonlinear_arith)
            requires
                e1 == (2 * b + 1) * k + (255 - 2 * b) * j,
                e2 == k + 255 * j + b * s,
                0 <= b < 128,
                0 <= k,
                0 <= j,
                s >= 0,
        ;
        if k >= j {
            assert(e2 == e1) by (nonlinear_arith)
                requires
                    e1 == k + 255 * j + 2 * (b * k) - 2 * (b * j),
                    e2 == k + 255 * j + b * s,
                    s == 2 * (k - j),
            ;
        } else {
            assert(e2 == 256 * b + e1) by (nonlinear_arith)
                requires
                    e1 == k + 255 * j + 2 * (b * k) - 2 * (b * j),
                    e2 == k + 255 * j + b * s,
                    s == 256 - 2 * (j - k),
            ;
            lemma_mod_multiples_vanish(b, e1, 256);
            lemma_zeta_pow_periodic(e1 as nat);
            lemma_zeta_pow_periodic(e2 as nat);
        }
    }
}

/// Orthogonality: summed over all 128 pairs, the powers that link
/// coefficient `k` with coefficient `j` give 128 where `k = j` and cancel
/// where `k != j`.
pub proof fn lemma_orthogonal(k: int, j: int)
    requires
        0 <= k < 128,
        0 <= j < 128,
    ensures
        cong(cross(128, k, j), if k == j { 128int } else { 0int }),
{
    lemma2_to64();
    lemma_cross_is_rev_sum(128, k, j);
    let c = (k + 255 * j) as nat;
    let s = cross_step(k, j);
    if k == j {
        lemma_rev_sum_constant(7, c, 128);
        lemma_zeta_pow_periodic(c);
        assert(c % 256 == 0);
        assert(zeta_pow(0) == 1);
        assert(128 * 1 == 128);
    } else {
        let t = lemma_some_doubling_is_minus_one(s);
        lemma_rev_sum_vanishes(7, c, s, t);
    }
}

/// The sum over `j < m` of `zeta^(c + j * s)`.
pub open spec fn nat_sum(c: nat, s: nat, m: nat) -> int
    decreases m,
{
    if m == 0 {
        0
    } else {
        nat_sum(c, s, (m - 1) as nat) + zeta_pow(c + (m - 1) as nat * s)
    }
}

/// A sum over `m + r` indices is the sum over the first `m` plus the sum
/// over the next `r`, which starts `m * s` further on.
proof fn lemma_nat_sum_split(c: nat, s: nat, m: nat, r: nat)
    ensures
        nat_sum(c, s, m + r) == nat_sum(c, s, m) + nat_sum(c + m * s, s, r),
    decreases r,
{
    if r > 0 {
        let p = (r - 1) as nat;
        lemma_nat_sum_split(c, s, m, p);
        assert(c + (m + p) * s == c + m * s + p * s) by (nonlinear_arith);
        assert(nat_sum(c, s, m + r) == nat_sum(c, s, m + p) + zeta_pow(c + (m + p) * s));
    }
}

/// Shifting the base exponent by `d` multiplies the sum by `zeta^d`.
proof fn lemma_nat_sum_factor(c: nat, d: nat, s: nat, m: nat)
    ensures
        cong(nat_sum(c + d, s, m), zeta_pow(d) * nat_sum(c, s, m)),
    decreases m,
{
    if m == 0 {
        assert(zeta_pow(d) * 0 == 0);
    } else {
        let p = (m - 1) as nat;
        lemma_nat_sum_factor(c, d, s, p);
        let e = p * s;
        lemma_zeta_pow_add(d, c + e);
        assert(d + (c + e) == c + d + e);
        lemma_cong_mod(zeta_pow(d) * zeta_pow(c + e));
        lemma_cong_add(
            nat_sum(c + d, s, p),
            zeta_pow(d) * nat_sum(c, s, p),
            zeta_pow(c + d + e),
            zeta_pow(d) * zeta_pow(c + e),
        );
        assert(zeta_pow(d) * nat_sum(c, s, p) + zeta_pow(d) * zeta_pow(c + e) == zeta_pow(d)
            * nat_sum(c, s, m)) by (nonlinear_arith)
            requires
                nat_sum(c, s, m) == nat_sum(c, s, p) + zeta_pow(c + e),
        ;
    }
}

/// Where some `zeta^(2^t * s)` with `t < n` is `-1`, the sum over `2^n`
/// indices vanishes.
proof fn lemma_nat_sum_vanishes(n: nat, c: nat, s: nat, t: nat)
    requires
        t < n,
        zeta_pow(pow2(t) * s) == q() - 1,
    ensures
        cong(nat_sum(c, s, pow2(n)), 0),
    decreases n,
{
    let h = (n - 1) as nat;
    let half = pow2(h);
    let d = half * s;
    lemma_pow2_unfold(n);
    lemma_nat_sum_split(c, s, half, half);
    lemma_nat_sum_factor(c, d, s, half);
    let x = nat_sum(c, s, half);
    let y = nat_sum(c + d, s, half);
    assert(nat_sum(c, s, pow2(n)) == x + y);
    lemma_cong_add(x, x, y, zeta_pow(d) * x);
    assert(x + zeta_pow(d) * x == (1 + zeta_pow(d)) * x) by (nonlinear_arith);
    if t == h {
        assert((1 + zeta_pow(d)) * x == q() * x) by (nonlinear_arith)
            requires
                zeta_pow(d) == q() - 1,
        ;
        lemma_cong_multiple(x);
    } else {
        lemma_nat_sum_vanishes(h, c, s, t);
        lemma_cong_mul(1 + zeta_pow(d), 1 + zeta_pow(d), x, 0);
        assert((1 + zeta_pow(d)) * 0 == 0);
    }
}

/// With `s = 0` every term of the sum is `zeta^c`.
proof fn lemma_nat_sum_constant(c: nat, m: nat)
    ensures
        nat_sum(c, 0, m) == m * zeta_pow(c),
    decreases m,
{
    if m == 0 {
        assert(0 * zeta_pow(c) == 0);
    } else {
        lemma_nat_sum_constant(c, (m - 1) as nat);
        assert((m - 1) as nat * 0 == 0);
        assert((m - 1) * zeta_pow(c) + zeta_pow(c) == m * zeta_pow(c)) by (nonlinear_arith);
    }
}

/// Reversing seven bits written out bit by bit.
proof fn lemma_bit_rev_bits(i: int)
    requires
        0 <= i < 128,
    ensures
        bit_rev(7, i) == (i % 2) * 64 + ((i / 2) % 2) * 32 + ((i / 4) % 2) * 16 + ((i / 8) % 2) * 8
            + ((i / 16) % 2) * 4 + ((i / 32) % 2) * 2 + (i / 64) % 2,
        i == (i % 2) + ((i / 2) % 2) * 2 + ((i / 4) % 2) * 4 + ((i / 8) % 2) * 8 + ((i / 16) % 2)
            * 16 + ((i / 32) % 2) * 32 + ((i / 64) % 2) * 64,
{
    lemma2_to64();
    let x1 = i / 2;
    let x2 = x1 / 2;
    let x3 = x2 / 2;
    let x4 = x3 / 2;
    let x5 = x4 / 2;
    let x6 = x5 / 2;
    assert(bit_rev(0, x6 / 2) == 0);
    assert(bit_rev(1, x6) == x6 % 2);
    assert(bit_rev(2, x5) == (x5 % 2) * 2 + bit_rev(1, x6));
    assert(bit_rev(3, x4) == (x4 % 2) * 4 + bit_rev(2, x5));
    assert(bit_rev(4, x3) == (x3 % 2) * 8 + bit_rev(3, x4));
    assert(bit_rev(5, x2) == (x2 % 2) * 16 + bit_rev(4, x3));
    assert(bit_rev(6, x1) == (x1 % 2) * 32 + bit_rev(5, x2));
    assert(bit_rev(7, i) == (i % 2) * 64 + bit_rev(6, x1));
}

/// The bits of `64 b0 + 32 b1 + 16 b2 + 8 b3 + 4 b4 + 2 b5 + b6`, lowest
/// first, are `b6`, `b5`, …, `b0`.
proof fn lemma_bits_of_sum(b0: int, b1: int, b2: int, b3: int, b4: int, b5: int, b6: int)
    requires
        0 <= b0 <= 1,
        0 <= b1 <= 1,
        0 <= b2 <= 1,
        0 <= b3 <= 1,
        0 <= b4 <= 1,
        0 <= b5 <= 1,
        0 <= b6 <= 1,
    ensures
        ({
            let r = 64 * b0 + 32 * b1 + 16 * b2 + 8 * b3 + 4 * b4 + 2 * b5 + b6;
            &&& r % 2 == b6
            &&& (r / 2) % 2 == b5
            &&& (r / 4) % 2 == b4
            &&& (r / 8) % 2 == b3
            &&& (r / 16) % 2 == b2
            &&& (r / 32) % 2 == b1
            &&& (r / 64) % 2 == b0
        }),
{
    let r = 64 * b0 + 32 * b1 + 16 * b2 + 8 * b3 + 4 * b4 + 2 * b5 + b6;
    lemma_fundamental_div_mod_converse(r, 2, 32 * b0 + 16 * b1 + 8 * b2 + 4 * b3 + 2 * b4 + b5, b6);
    lemma_fundamental_div_mod_converse(
        r,
        4,
        16 * b0 + 8 * b1 + 4 * b2 + 2 * b3 + b4,
        2 * b5 + b6,
    );
    lemma_fundamental_div_mod_converse(r, 8, 8 * b0 + 4 * b1 + 2 * b2 + b3, 4 * b4 + 2 * b5 + b6);
    lemma_fundamental_div_mod_converse(
        r,
        16,
        4 * b0 + 2 * b1 + b2,
        8 * b3 + 4 * b4 + 2 * b5 + b6,
    );
    lemma_fundamental_div_mod_converse(
        r,
        32,
        2 * b0 + b1,
        16 * b2 + 8 * b3 + 4 * b4 + 2 * b5 + b6,
    );
    lemma_fundamental_div_mod_converse(
        r,
        64,
        b0,
        32 * b1 + 16 * b2 + 8 * b3 + 4 * b4 + 2 * b5 + b6,
    );
    lemma_fundamental_div_mod_converse(32 * b0 + 16 * b1 + 8 * b2 + 4 * b3 + 2 * b4 + b5, 2, 16
        * b0 + 8 * b1 + 4 * b2 + 2 * b3 + b4, b5);
    lemma_fundamental_div_mod_converse(16 * b0 + 8 * b1 + 4 * b2 + 2 * b3 + b4, 2, 8 * b0 + 4 * b1
        + 2 * b2 + b3, b4);
    lemma_fundamental_div_mod_converse(8 * b0 + 4 * b1 + 2 * b2 + b3, 2, 4 * b0 + 2 * b1 + b2, b3);
    lemma_fundamental_div_mod_converse(4 * b0 + 2 * b1 + b2, 2, 2 * b0 + b1, b2);
    lemma_fundamental_div_mod_converse(2 * b0 + b1, 2, b0, b1);
    lemma_fundamental_div_mod_converse(b0, 2, 0, b0);
}

/// The seven bits of `i` can be read back from its reversal: reversing is
/// its own inverse.
proof fn lemma_bit_rev_back(i: int)
    requires
        0 <= i < 128,
    ensures
        ({
            let r = bit_rev(7, i);
            i == (r % 2) * 64 + ((r / 2) % 2) * 32 + ((r / 4) % 2) * 16 + ((r / 8) % 2) * 8 + ((r
                / 16) % 2) * 4 + ((r / 32) % 2) * 2 + (r / 64) % 2
        }),
{
    lemma_bit_rev_bits(i);
    lemma_bits_of_sum(
        i % 2,
        (i / 2) % 2,
        (i / 4) % 2,
        (i / 8) % 2,
        (i / 16) % 2,
        (i / 32) % 2,
        (i / 64) % 2,
    );
}

/// Reversing seven bits is one to one.
pub proof fn lemma_bit_rev_injective(i: int, k: int)
    requires
        0 <= i < 128,
        0 <= k < 128,
        bit_rev(7, i) == bit_rev(7, k),
    ensures
        i == k,
{
    lemma_bit_rev_back(i);
    lemma_bit_rev_back(k);
}

/// The sum over `j < m` of `zeta^((root(i) - root(k)) * j)`, the negative
/// part written as `back_root(k) * j`.
pub open spec fn pair_sum(i: int, k: int, m: nat) -> int
    decreases m,
{
    if m == 0 {
        0
    } else {
        pair_sum(i, k, (m - 1) as nat) + zeta_pow(((ntt_root(i) + back_root(k)) * (m - 1)) as nat)
    }
}

/// `pair_sum` is a sum over consecutive multiples of one step.
proof fn lemma_pair_is_nat_sum(i: int, k: int, m: nat)
    requires
        0 <= i < 128,
        0 <= k < 128,
    ensures
        pair_sum(i, k, m) == nat_sum(0, cross_step(bit_rev(7, i), bit_rev(7, k)), m),
    decreases m,
{
    if m > 0 {
        let j = (m - 1) as nat;
        lemma_pair_is_nat_sum(i, k, j);
        lemma_bit_rev_bound(7, i);
        lemma_bit_rev_bound(7, k);
        lemma2_to64();
        let bi = bit_rev(7, i);
        let bk = bit_rev(7, k);
        let s = cross_step(bi, bk);
        let e1 = (ntt_root(i) + back_root(k)) * j;
        let e2 = j * s;
        assert(ntt_root(i) + back_root(k) == 256 + 2 * bi - 2 * bk);
        if bi >= bk {
            assert(e1 == 256 * j + e2) by (nonlinear_arith)
                requires
                    e1 == (256 + 2 * bi - 2 * bk) * j,
                    e2 == j * s,
                    s == 2 * (bi - bk),
            ;
            lemma_mod_multiples_vanish(j as int, e2 as int, 256);
            lemma_zeta_pow_periodic(e1 as nat);
            lemma_zeta_pow_periodic(e2);
        } else {
            assert(e1 == e2) by (nonlinear_arith)
                requires
                    e1 == (256 + 2 * bi - 2 * bk) * j,
                    e2 == j * s,
                    s == 256 - 2 * (bk - bi),
            ;
        }
        assert(zeta_pow(0 + j * s) == zeta_pow(e2));
    }
}

/// Orthogonality over the coefficients: summed over all 128 coefficient
/// pairs, the powers that link pair `i` of a transform with pair `k` give
/// 128 where `i = k` and cancel where `i != k`.
pub proof fn lemma_orthogonal_pairs(i: int, k: int)
    requires
        0 <= i < 128,
        0 <= k < 128,
    ensures
        cong(pair_sum(i, k, 128), if i == k { 128int } else { 0int }),
{
    lemma2_to64();
    lemma_pair_is_nat_sum(i, k, 128);
    lemma_bit_rev_bound(7, i);
    lemma_bit_rev_bound(7, k);
    let s = cross_step(bit_rev(7, i), bit_rev(7, k));
    if i == k {
        lemma_nat_sum_constant(0, 128);
        assert(zeta_pow(0) == 1);
        assert(128 * 1 == 128);
    } else {
        if bit_rev(7, i) == bit_rev(7, k) {
            lemma_bit_rev_injective(i, k);
        }
        let t = lemma_some_doubling_is_minus_one(s);
        lemma_nat_sum_vanishes(7, 0, s, t);
    }
}

} // verus!
