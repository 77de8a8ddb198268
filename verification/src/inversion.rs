//! The inverse transform undoes the transform.

use vstd::prelude::*;
use vstd::arithmetic::power2::lemma2_to64;
use crate::congruence::{
    cong, lemma_cong_add, lemma_cong_mul, lemma_cong_mod, lemma_cong_multiple, lemma_cong_reduced,
};
use crate::field::q;
use crate::ntt::{
    zeta_pow, ntt_root, ntt_sum, ntt_seq, inv_sum, intt_seq, inv_128, lemma_zeta_pow_add,
};
use crate::orthogonality::{
    back_root, cross, pair_sum, lemma_orthogonal, lemma_orthogonal_pairs, lemma_bit_rev_bound,
};
use crate::polyvec::is_ring_elem;

verus! {

/// The sum over `k < m` of `f[2k + parity]` times the `cross` sum over the
/// first `n` pairs: what the inverse transform of the transform of `f` is
/// before the order of summation is exchanged back.
pub open spec fn spread(f: Seq<int>, parity: int, j: int, n: nat, m: nat) -> int
    decreases m,
{
    if m == 0 {
        0
    } else {
        spread(f, parity, j, n, (m - 1) as nat) + f[2 * (m - 1) + parity] * cross(n, m - 1, j)
    }
}

/// Over no pairs, the sum is zero.
proof fn lemma_spread_empty(f: Seq<int>, parity: int, j: int, m: nat)
    ensures
        spread(f, parity, j, 0, m) == 0,
    decreases m,
{
    if m > 0 {
        lemma_spread_empty(f, parity, j, (m - 1) as nat);
        assert(f[2 * (m - 1) + parity] * 0 == 0);
    }
}

/// One more pair adds that pair's transform coefficient times its power of
/// `zeta`.
proof fn lemma_spread_step(f: Seq<int>, parity: int, j: int, n: nat, m: nat)
    requires
        0 <= j,
        n < 128,
    ensures
        cong(
            spread(f, parity, j, n + 1, m),
            spread(f, parity, j, n, m) + ntt_sum(f, parity, ntt_root(n as int), m) * zeta_pow(
                back_root(n as int) * j as nat,
            ),
        ),
    decreases m,
{
    let e = ntt_root(n as int);
    let zb = zeta_pow(back_root(n as int) * j as nat);
    if m == 0 {
        assert(0 * zb == 0);
    } else {
        let k: int = m - 1;
        lemma_spread_step(f, parity, j, n, k as nat);
        let fk = f[2 * k + parity];
        let zk = zeta_pow((e * k) as nat);
        let both = zeta_pow((e * k + back_root(n as int) * j) as nat);
        assert(e * k >= 0 && back_root(n as int) * j >= 0) by (nonlinear_arith)
            requires
                k >= 0,
                j >= 0,
        ;
        lemma_zeta_pow_add((e * k) as nat, back_root(n as int) * j as nat);
        lemma_cong_mod(zk * zb);
        lemma_cong_mul(fk, fk, both, zk * zb);
        let s_new = spread(f, parity, j, n + 1, k as nat);
        let s_old = spread(f, parity, j, n, k as nat);
        let t_old = ntt_sum(f, parity, e, k as nat);
        let c_old = cross(n, k, j);
        assert(cross(n + 1, k, j) == c_old + both);
        lemma_cong_add(s_new, s_old + t_old * zb, fk * c_old, fk * c_old);
        lemma_cong_add(
            s_new + fk * c_old,
            s_old + t_old * zb + fk * c_old,
            fk * both,
            fk * (zk * zb),
        );
        assert(spread(f, parity, j, n + 1, m) == s_new + fk * c_old + fk * both)
            by (nonlinear_arith)
            requires
                spread(f, parity, j, n + 1, m) == s_new + fk * (c_old + both),
        ;
        assert(s_old + t_old * zb + fk * c_old + fk * (zk * zb) == (s_old + fk * c_old) + (t_old
            + fk * zk) * zb) by (nonlinear_arith);
    }
}

/// The inverse sum over the first `n` pairs of a transform is, modulo `q`,
/// the double sum with the order of summation exchanged.
proof fn lemma_inverse_sum_exchanged(f: Seq<int>, parity: int, j: int, n: nat)
    requires
        0 <= j,
        n <= 128,
        parity == 0 || parity == 1,
    ensures
        cong(inv_sum(ntt_seq(f), parity, j, n), spread(f, parity, j, n, 128)),
    decreases n,
{
    let g = ntt_seq(f);
    if n == 0 {
        lemma_spread_empty(f, parity, j, 128);
    } else {
        let i: int = n - 1;
        lemma_inverse_sum_exchanged(f, parity, j, i as nat);
        lemma_spread_step(f, parity, j, i as nat, 128);
        lemma_bit_rev_bound(7, i);
        lemma2_to64();
        let e = ntt_root(i);
        let zb = zeta_pow(back_root(i) * j as nat);
        let coeff = ntt_sum(f, parity, e, 128);
        assert((2 * i + parity) % 2 == parity && (2 * i + parity) / 2 == i);
        assert(g[2 * i + parity] == coeff % q());
        assert(((256 - ntt_root(i)) * j) as nat == back_root(i) * j as nat) by (nonlinear_arith)
            requires
                back_root(i) == 256 - ntt_root(i),
                j >= 0,
                back_root(i) >= 0,
        ;
        lemma_cong_mod(coeff);
        lemma_cong_mul(coeff % q(), coeff, zb, zb);
        lemma_cong_add(
            inv_sum(g, parity, j, i as nat),
            spread(f, parity, j, i as nat, 128),
            g[2 * i + parity] * zb,
            coeff * zb,
        );
    }
}

/// With all 128 pairs summed, only coefficient `j` is left, 128 times.
proof fn lemma_spread_collapses(f: Seq<int>, parity: int, j: int, m: nat)
    requires
        0 <= j < 128,
        m <= 128,
    ensures
        cong(
            spread(f, parity, j, 128, m),
            if j < m {
                128 * f[2 * j + parity]
            } else {
                0
            },
        ),
    decreases m,
{
    if m > 0 {
        let k: int = m - 1;
        lemma_spread_collapses(f, parity, j, k as nat);
        lemma_orthogonal(k, j);
        let fk = f[2 * k + parity];
        let before = if j < k {
            128 * f[2 * j + parity]
        } else {
            0
        };
        let delta = if k == j {
            128int
        } else {
            0int
        };
        lemma_cong_mul(fk, fk, cross(128, k, j), delta);
        lemma_cong_add(spread(f, parity, j, 128, k as nat), before, fk * cross(128, k, j), fk * delta);
        assert(fk * 128 == 128 * fk && fk * 0 == 0) by (nonlinear_arith);
    }
}

/// The inverse transform of the transform of an element of R_q is that
/// element.
pub proof fn lemma_ntt_inverse(f: Seq<int>)
    requires
        is_ring_elem(f),
    ensures
        intt_seq(ntt_seq(f)) == f,
{
    let g = ntt_seq(f);
    let back = intt_seq(g);
    assert forall|t: int| 0 <= t < 256 implies back[t] == f[t] by {
        let parity = t % 2;
        let j = t / 2;
        assert(2 * j + parity == t);
        let s = inv_sum(g, parity, j, 128);
        lemma_inverse_sum_exchanged(f, parity, j, 128);
        lemma_spread_collapses(f, parity, j, 128);
        // s = 128 f[t], so 3303 s = (127 q + 1) f[t] = f[t]
        assert(cong(s, 128 * f[t]));
        lemma_cong_mul(inv_128(), inv_128(), s, 128 * f[t]);
        assert(inv_128() * (128 * f[t]) == q() * (127 * f[t]) + f[t]) by (nonlinear_arith)
            requires
                inv_128() == 3303,
                q() == 3329,
        ;
        lemma_cong_multiple(127 * f[t]);
        lemma_cong_add(q() * (127 * f[t]), 0, f[t], f[t]);
        lemma_cong_mod(inv_128() * s);
        assert(back[t] == (inv_128() * s) % q());
        vstd::arithmetic::div_mod::lemma_mod_bound(inv_128() * s, q());
        lemma_cong_reduced(back[t], f[t]);
    }
    assert(back =~= f);
}

/// The sum over the pairs `k < n` of `g[2k + parity]` times the `pair_sum`
/// over the first `m` coefficients: what the transform of the inverse
/// transform of `g` is before the order of summation is exchanged back.
pub open spec fn gather(g: Seq<int>, parity: int, i: int, m: nat, n: nat) -> int
    decreases n,
{
    if n == 0 {
        0
    } else {
        gather(g, parity, i, m, (n - 1) as nat) + g[2 * (n - 1) + parity] * pair_sum(i, n - 1, m)
    }
}

/// Over no coefficients, the sum is zero.
proof fn lemma_gather_empty(g: Seq<int>, parity: int, i: int, n: nat)
    ensures
        gather(g, parity, i, 0, n) == 0,
    decreases n,
{
    if n > 0 {
        lemma_gather_empty(g, parity, i, (n - 1) as nat);
        assert(g[2 * (n - 1) + parity] * 0 == 0);
    }
}

/// One more coefficient adds that coefficient's inverse sum times its power
/// of `zeta`.
proof fn lemma_gather_step(g: Seq<int>, parity: int, i: int, m: nat, n: nat)
    requires
        0 <= i < 128,
        n <= 128,
    ensures
        cong(
            gather(g, parity, i, m + 1, n),
            gather(g, parity, i, m, n) + inv_sum(g, parity, m as int, n) * zeta_pow(
                ntt_root(i) * m,
            ),
        ),
    decreases n,
{
    let e = ntt_root(i);
    let ze = zeta_pow(e * m);
    if n == 0 {
        assert(0 * ze == 0);
    } else {
        let k: int = n - 1;
        lemma_gather_step(g, parity, i, m, k as nat);
        lemma_bit_rev_bound(7, k);
        lemma2_to64();
        let gk = g[2 * k + parity];
        let b = back_root(k);
        let zb = zeta_pow(b * m);
        let both = zeta_pow(((e + b) * m) as nat);
        assert((e + b) * m == b * m + e * m) by (nonlinear_arith);
        lemma_zeta_pow_add(b * m, e * m);
        lemma_cong_mod(zb * ze);
        lemma_cong_mul(gk, gk, both, zb * ze);
        assert(zeta_pow(((256 - ntt_root(k)) * (m as int)) as nat) == zb) by {
            assert((256 - ntt_root(k)) * (m as int) == b * m) by (nonlinear_arith)
                requires
                    b == 256 - ntt_root(k),
            ;
        }
        let g_new = gather(g, parity, i, m + 1, k as nat);
        let g_old = gather(g, parity, i, m, k as nat);
        let s_old = inv_sum(g, parity, m as int, k as nat);
        let p_old = pair_sum(i, k, m);
        assert(pair_sum(i, k, m + 1) == p_old + both);
        lemma_cong_add(g_new, g_old + s_old * ze, gk * p_old, gk * p_old);
        lemma_cong_add(
            g_new + gk * p_old,
            g_old + s_old * ze + gk * p_old,
            gk * both,
            gk * (zb * ze),
        );
        assert(gather(g, parity, i, m + 1, n) == g_new + gk * p_old + gk * both)
            by (nonlinear_arith)
            requires
                gather(g, parity, i, m + 1, n) == g_new + gk * (p_old + both),
        ;
        assert(g_old + s_old * ze + gk * p_old + gk * (zb * ze) == (g_old + gk * p_old) + (s_old
            + gk * zb) * ze) by (nonlinear_arith);
    }
}

/// The transform sum over the first `m` coefficients of an inverse
/// transform is, modulo `q`, the scaled double sum with the order of
/// summation exchanged.
proof fn lemma_forward_sum_exchanged(g: Seq<int>, parity: int, i: int, m: nat)
    requires
        0 <= i < 128,
        m <= 128,
        parity == 0 || parity == 1,
    ensures
        cong(
            ntt_sum(intt_seq(g), parity, ntt_root(i), m),
            inv_128() * gather(g, parity, i, m, 128),
        ),
    decreases m,
{
    let h = intt_seq(g);
    let e = ntt_root(i);
    if m == 0 {
        lemma_gather_empty(g, parity, i, 128);
        assert(inv_128() * 0 == 0);
    } else {
        let j: int = m - 1;
        lemma_forward_sum_exchanged(g, parity, i, j as nat);
        lemma_gather_step(g, parity, i, j as nat, 128);
        let ze = zeta_pow(e * (j as nat));
        let inner = inv_sum(g, parity, j, 128);
        let before = gather(g, parity, i, j as nat, 128);
        assert((2 * j + parity) % 2 == parity && (2 * j + parity) / 2 == j);
        assert(h[2 * j + parity] == (inv_128() * inner) % q());
        assert(zeta_pow((e * j) as nat) == ze);
        lemma_cong_mod(inv_128() * inner);
        lemma_cong_mul(h[2 * j + parity], inv_128() * inner, ze, ze);
        lemma_cong_add(
            ntt_sum(h, parity, e, j as nat),
            inv_128() * before,
            h[2 * j + parity] * ze,
            (inv_128() * inner) * ze,
        );
        assert(inv_128() * before + (inv_128() * inner) * ze == inv_128() * (before + inner * ze))
            by (nonlinear_arith);
        lemma_cong_mul(
            inv_128(),
            inv_128(),
            gather(g, parity, i, m, 128),
            before + inner * ze,
        );
    }
}

/// With all 128 coefficients summed, only pair `i` is left, 128 times.
proof fn lemma_gather_collapses(g: Seq<int>, parity: int, i: int, n: nat)
    requires
        0 <= i < 128,
        n <= 128,
    ensures
        cong(
            gather(g, parity, i, 128, n),
            if i < n {
                128 * g[2 * i + parity]
            } else {
                0
            },
        ),
    decreases n,
{
    if n > 0 {
        let k: int = n - 1;
        lemma_gather_collapses(g, parity, i, k as nat);
        lemma_orthogonal_pairs(i, k);
        let gk = g[2 * k + parity];
        let before = if i < k {
            128 * g[2 * i + parity]
        } else {
            0
        };
        let delta = if i == k {
            128int
        } else {
            0int
        };
        lemma_cong_mul(gk, gk, pair_sum(i, k, 128), delta);
        lemma_cong_add(gather(g, parity, i, 128, k as nat), before, gk * pair_sum(i, k, 128), gk
            * delta);
        assert(gk * 128 == 128 * gk && gk * 0 == 0) by (nonlinear_arith);
    }
}

/// The transform of the inverse transform of an element of R_q is that
/// element.
pub proof fn lemma_intt_inverse(g: Seq<int>)
    requires
        is_ring_elem(g),
    ensures
        ntt_seq(intt_seq(g)) == g,
{
    let h = intt_seq(g);
    let back = ntt_seq(h);
    assert forall|t: int| 0 <= t < 256 implies back[t] == g[t] by {
        let parity = t % 2;
        let i = t / 2;
        assert(2 * i + parity == t);
        let s = ntt_sum(h, parity, ntt_root(i), 128);
        let w = gather(g, parity, i, 128, 128);
        lemma_forward_sum_exchanged(g, parity, i, 128);
        lemma_gather_collapses(g, parity, i, 128);
        lemma_cong_mul(inv_128(), inv_128(), w, 128 * g[t]);
        assert(inv_128() * (128 * g[t]) == q() * (127 * g[t]) + g[t]) by (nonlinear_arith)
            requires
                inv_128() == 3303,
                q() == 3329,
        ;
        lemma_cong_multiple(127 * g[t]);
        lemma_cong_add(q() * (127 * g[t]), 0, g[t], g[t]);
        lemma_cong_mod(s);
        assert(back[t] == s % q());
        vstd::arithmetic::div_mod::lemma_mod_bound(s, q());
        lemma_cong_reduced(back[t], g[t]);
    }
    assert(back =~= g);
}

} // verus!
