//! Lossy compression of integers modulo `q`, of polynomials and of vectors.

use vstd::prelude::*;
use vstd::arithmetic::power2::{pow2, lemma_pow2_pos};
use crate::arith::pow2_exec;
use crate::field::F3329;
use crate::poly::Poly3329;
use crate::polyvec::{PolyVec3329, is_ring_elem};

verus! {

/// `num / den` rounded to the nearest integer, halves upwards.
pub open spec fn round_half_up(num: int, den: int) -> int {
    (2 * num + den) / (2 * den)
}

/// `x` scaled from `[0, q)` to `[0, 2^d)`: `round(2^d * x / q) mod 2^d`.
pub open spec fn compress_int(x: int, d: nat, q: int) -> int {
    round_half_up(x * pow2(d), q) % (pow2(d) as int)
}

/// `y` scaled from `[0, 2^d)` back to `[0, q)`: `round(q * y / 2^d)`.
pub open spec fn decompress_int(y: int, d: nat, q: int) -> int {
    round_half_up(q * y, pow2(d) as int)
}

/// The distance between the residues of `a` and `b` modulo `q`, around the
/// circle: the smaller of `(a - b) mod q` and `(b - a) mod q`.
pub open spec fn residue_distance(a: int, b: int, q: int) -> int {
    if (a - b) % q <= (b - a) % q {
        (a - b) % q
    } else {
        (b - a) % q
    }
}

/// `ceil(q / 2^(d+1))`.
pub open spec fn compress_radius(d: nat, q: int) -> int {
    (q + 2 * pow2(d) - 1) / (2 * pow2(d) as int)
}

/// `compress_int` coefficient by coefficient, each result taken modulo 3329.
pub open spec fn compress_seq(a: Seq<int>, d: nat, q: int) -> Seq<int> {
    Seq::new(a.len(), |i: int| compress_int(a[i], d, q) % crate::field::q())
}

/// `decompress_int` coefficient by coefficient, each result taken modulo 3329.
pub open spec fn decompress_seq(a: Seq<int>, d: nat, q: int) -> Seq<int> {
    Seq::new(a.len(), |i: int| decompress_int(a[i], d, q) % crate::field::q())
}

/// `compress_seq` component by component.
pub open spec fn compress_vec_seq(v: Seq<Seq<int>>, d: nat, q: int) -> Seq<Seq<int>> {
    Seq::new(v.len(), |i: int| compress_seq(v[i], d, q))
}

/// `decompress_seq` component by component.
pub open spec fn decompress_vec_seq(v: Seq<Seq<int>>, d: nat, q: int) -> Seq<Seq<int>> {
    Seq::new(v.len(), |i: int| decompress_seq(v[i], d, q))
}

/// Compresses `x` to `d` bits: `round(2^d * x / q) mod 2^d`.
pub fn compress_integer(x: usize, d: usize, q: usize) -> (r: usize)
    requires
        d < 32,
        q > 0,
    ensures
        r == compress_int(x as int, d as nat, q as int),
        r < pow2(d as nat),
{
    let m: u64 = pow2_exec(d);
    assert(x as u128 * m as u128 <= 0xffff_ffff_ffff_ffff * 0x8000_0000) by (nonlinear_arith)
        requires
            x <= 0xffff_ffff_ffff_ffff,
            m <= 0x8000_0000,
    ;
    let num: u128 = x as u128 * m as u128;
    let y: u128 = (2 * num + q as u128) / (2 * q as u128);
    let r: u128 = y % (m as u128);
    r as usize
}

/// Expands `x` from `d` bits: `round(q * x / 2^d)`.
pub fn decompress_integer(x: usize, d: usize, q: usize) -> (r: usize)
    requires
        d < 32,
        decompress_int(x as int, d as nat, q as int) <= usize::MAX,
    ensures
        r == decompress_int(x as int, d as nat, q as int),
{
    let m: u64 = pow2_exec(d);
    assert(q as u128 * x as u128 <= 0xffff_ffff_ffff_ffff * 0xffff_ffff_ffff_ffff)
        by (nonlinear_arith)
        requires
            x <= 0xffff_ffff_ffff_ffff,
            q <= 0xffff_ffff_ffff_ffff,
    ;
    let num: u128 = q as u128 * x as u128;
    // (2 * num + m) / (2 * m), written so that no intermediate exceeds 128 bits
    let whole: u128 = num / (m as u128);
    let rest: u128 = num % (m as u128);
    let up: u128 = if 2 * rest >= m as u128 { 1 } else { 0 };
    proof {
        lemma_round_split(num as int, m as int);
    }
    (whole + up) as usize
}

/// Rounding to nearest splits into the quotient and a test on the remainder.
proof fn lemma_round_split(num: int, m: int)
    requires
        num >= 0,
        m > 0,
    ensures
        round_half_up(num, m) == num / m + (if 2 * (num % m) >= m { 1int } else { 0int }),
{
    let w = num / m;
    let r = num % m;
    vstd::arithmetic::div_mod::lemma_fundamental_div_mod(num, m);
    if 2 * r >= m {
        assert(2 * num + m == (2 * m) * (w + 1) + (2 * r - m)) by (nonlinear_arith)
            requires
                num == m * w + r,
        ;
        vstd::arithmetic::div_mod::lemma_fundamental_div_mod_converse(
            2 * num + m,
            2 * m,
            w + 1,
            2 * r - m,
        );
    } else {
        assert(2 * num + m == (2 * m) * w + (2 * r + m)) by (nonlinear_arith)
            requires
                num == m * w + r,
        ;
        vstd::arithmetic::div_mod::lemma_fundamental_div_mod_converse(
            2 * num + m,
            2 * m,
            w,
            2 * r + m,
        );
    }
}

/// Compresses every coefficient of `x` to `d` bits.
pub fn compress_poly(x: Poly3329, d: usize, q: usize) -> (r: Poly3329)
    requires
        x.wf(),
        d < 32,
        q > 0,
    ensures
        r.wf(),
        r@ == compress_seq(x@, d as nat, q as int),
{
    let n: usize = x.dimension();
    let mut coeffs: Vec<F3329> = Vec::new();
    let mut i: usize = 0;
    while i < n
        invariant
            i <= n,
            n == x@.len(),
            x.wf(),
            d < 32,
            q > 0,
            coeffs@.len() == i,
            forall|j: int|
                0 <= j < i ==> (#[trigger] coeffs@[j]).wf() && coeffs@[j]@ == compress_int(
                    x@[j],
                    d as nat,
                    q as int,
                ) % crate::field::q(),
        decreases n - i,
    {
        let xi = x.get(i);
        coeffs.push(F3329::from_int(compress_integer(xi.to_int(), d, q)));
        i += 1;
    }
    let r = Poly3329::from_vec(coeffs, n);
    assert(r@ =~= compress_seq(x@, d as nat, q as int));
    r
}

/// Expands every coefficient of `x` from `d` bits.
pub fn decompress_poly(x: Poly3329, d: usize, q: usize) -> (r: Poly3329)
    requires
        x.wf(),
        d < 32,
        3328 * q <= usize::MAX,
    ensures
        r.wf(),
        r@ == decompress_seq(x@, d as nat, q as int),
{
    let n: usize = x.dimension();
    let mut coeffs: Vec<F3329> = Vec::new();
    let mut i: usize = 0;
    while i < n
        invariant
            i <= n,
            n == x@.len(),
            x.wf(),
            d < 32,
            3328 * q <= usize::MAX,
            coeffs@.len() == i,
            forall|j: int|
                0 <= j < i ==> (#[trigger] coeffs@[j]).wf() && coeffs@[j]@ == decompress_int(
                    x@[j],
                    d as nat,
                    q as int,
                ) % crate::field::q(),
        decreases n - i,
    {
        let xi = x.get(i);
        proof {
            lemma_decompress_small(xi@, d as nat, q as int);
        }
        coeffs.push(F3329::from_int(decompress_integer(xi.to_int(), d, q)));
        i += 1;
    }
    let r = Poly3329::from_vec(coeffs, n);
    assert(r@ =~= decompress_seq(x@, d as nat, q as int));
    r
}

/// Expanding a canonical coefficient gives at most `3328 * q`.
proof fn lemma_decompress_small(y: int, d: nat, q: int)
    requires
        0 <= y < 3329,
        0 <= q,
    ensures
        0 <= decompress_int(y, d, q) <= 3328 * q,
{
    lemma_pow2_pos(d);
    let m = pow2(d) as int;
    assert(0 <= q * y <= 3328 * q) by (nonlinear_arith)
        requires
            0 <= y < 3329,
            0 <= q,
    ;
    let num = q * y;
    assert(0 <= (2 * num + m) / (2 * m) <= num) by (nonlinear_arith)
        requires
            num >= 0,
            m >= 1,
    ;
}

/// Compresses every coefficient of every component of `x` to `d` bits.
pub fn compress_polyvec(x: PolyVec3329, d: usize, q: usize) -> (r: PolyVec3329)
    requires
        x.wf(),
        d < 32,
        q > 0,
    ensures
        r.wf(),
        r@ == compress_vec_seq(x@, d as nat, q as int),
{
    let k: usize = x.dimension();
    let mut coeffs: Vec<Poly3329> = Vec::new();
    let mut i: usize = 0;
    while i < k
        invariant
            i <= k,
            k == x@.len(),
            x.wf(),
            d < 32,
            q > 0,
            coeffs@.len() == i,
            forall|j: int|
                0 <= j < i ==> is_ring_elem((#[trigger] coeffs@[j])@) && coeffs@[j]@
                    == compress_seq(x@[j], d as nat, q as int),
        decreases k - i,
    {
        let xi = x.get(i);
        coeffs.push(compress_poly(xi, d, q));
        i += 1;
    }
    let r = PolyVec3329::from_vec(coeffs);
    assert(r@ =~= compress_vec_seq(x@, d as nat, q as int));
    r
}

/// Expands every coefficient of every component of `x` from `d` bits.
pub fn decompress_polyvec(x: PolyVec3329, d: usize, q: usize) -> (r: PolyVec3329)
    requires
        x.wf(),
        d < 32,
        3328 * q <= usize::MAX,
    ensures
        r.wf(),
        r@ == decompress_vec_seq(x@, d as nat, q as int),
{
    let k: usize = x.dimension();
    let mut coeffs: Vec<Poly3329> = Vec::new();
    let mut i: usize = 0;
    while i < k
        invariant
            i <= k,
            k == x@.len(),
            x.wf(),
            d < 32,
            3328 * q <= usize::MAX,
            coeffs@.len() == i,
            forall|j: int|
                0 <= j < i ==> is_ring_elem((#[trigger] coeffs@[j])@) && coeffs@[j]@
                    == decompress_seq(x@[j], d as nat, q as int),
        decreases k - i,
    {
        let xi = x.get(i);
        coeffs.push(decompress_poly(xi, d, q));
        i += 1;
    }
    let r = PolyVec3329::from_vec(coeffs);
    assert(r@ =~= decompress_vec_seq(x@, d as nat, q as int));
    r
}

/// Compression followed by decompression moves a canonical representative
/// by at most `ceil(q / 2^(d+1))`, measured around the circle of residues
/// modulo `q`.
proof fn lemma_close_for_canonical(x: int, d: nat, q: int)
    requires
        0 <= x < q,
    ensures
        residue_distance(decompress_int(compress_int(x, d, q), d, q), x, q) <= compress_radius(
            d,
            q,
        ),
{
    lemma_pow2_pos(d);
    let m = pow2(d) as int;
    let p = x * m;
    let y0 = (2 * p + q) / (2 * q);
    let r0 = (2 * p + q) % (2 * q);
    let b = compress_radius(d, q);
    let r2 = (q + 2 * m - 1) % (2 * m);
    vstd::arithmetic::div_mod::lemma_fundamental_div_mod(2 * p + q, 2 * q);
    vstd::arithmetic::div_mod::lemma_fundamental_div_mod(q + 2 * m - 1, 2 * m);
    assert(0 <= p <= (q - 1) * m) by (nonlinear_arith)
        requires
            0 <= x <= q - 1,
            m >= 1,
            p == x * m,
    ;
    assert(0 <= y0 <= m) by (nonlinear_arith)
        requires
            2 * p + q == (2 * q) * y0 + r0,
            0 <= r0 < 2 * q,
            0 <= p <= (q - 1) * m,
            m >= 1,
            q >= 1,
    ;
    assert(2 * (m * b) >= q) by (nonlinear_arith)
        requires
            q + 2 * m - 1 == (2 * m) * b + r2,
            0 <= r2 < 2 * m,
    ;
    if y0 < m {
        vstd::arithmetic::div_mod::lemma_small_mod(y0 as nat, m as nat);
        let y = compress_int(x, d, q);
        assert(y == y0);
        let big_y = q * y;
        let x1 = (2 * big_y + m) / (2 * m);
        let r1 = (2 * big_y + m) % (2 * m);
        assert(x1 == decompress_int(y, d, q));
        vstd::arithmetic::div_mod::lemma_fundamental_div_mod(2 * big_y + m, 2 * m);
        assert(2 * big_y == 2 * p + q - r0) by (nonlinear_arith)
            requires
                2 * p + q == (2 * q) * y0 + r0,
                big_y == q * y0,
        ;
        assert(x1 - x <= b && x - x1 <= b) by (nonlinear_arith)
            requires
                2 * big_y + m == (2 * m) * x1 + r1,
                0 <= r1 < 2 * m,
                2 * big_y == 2 * p + q - r0,
                0 <= r0 < 2 * q,
                p == x * m,
                2 * (m * b) >= q,
                m >= 1,
        ;
        if x1 >= x {
            vstd::arithmetic::div_mod::lemma_mod_decreases((x1 - x) as nat, q as nat);
        } else {
            vstd::arithmetic::div_mod::lemma_mod_decreases((x - x1) as nat, q as nat);
        }
    } else {
        assert(y0 == m);
        assert(m % m == 0) by (nonlinear_arith)
            requires
                m >= 1,
        ;
        let y = compress_int(x, d, q);
        assert(y == 0);
        assert(q * 0 == 0);
        assert((2 * 0 + m) / (2 * m) == 0) by (nonlinear_arith)
            requires
                m >= 1,
        ;
        assert(decompress_int(y, d, q) == 0);
        assert(q - x <= b && x > 0) by (nonlinear_arith)
            requires
                2 * p + q == (2 * q) * m + r0,
                0 <= r0 < 2 * q,
                p == x * m,
                2 * (m * b) >= q,
                m >= 1,
                0 <= x < q,
        ;
        vstd::arithmetic::div_mod::lemma_fundamental_div_mod_converse(-x, q, -1, q - x);
        assert((0 - x) % q == q - x);
    }
}

/// Compression depends on the residue of `x` modulo `q` alone.
pub proof fn lemma_compress_of_residue(x: int, d: nat, q: int)
    requires
        0 <= x,
        0 < q,
    ensures
        compress_int(x, d, q) == compress_int(x % q, d, q),
{
    lemma_pow2_pos(d);
    let m = pow2(d) as int;
    let t = x / q;
    let r = x % q;
    vstd::arithmetic::div_mod::lemma_fundamental_div_mod(x, q);
    assert(t >= 0) by (nonlinear_arith)
        requires
            x == q * t + r,
            0 <= r < q,
            x >= 0,
    ;
    let low = 2 * (r * m) + q;
    assert(2 * (x * m) + q == low + (t * m) * (2 * q)) by (nonlinear_arith)
        requires
            x == q * t + r,
            low == 2 * (r * m) + q,
    ;
    vstd::arithmetic::div_mod::lemma_hoist_over_denominator(low, t * m, (2 * q) as nat);
    let a = low / (2 * q);
    assert(round_half_up(x * m, q) == a + t * m);
    assert(round_half_up(r * m, q) == a);
    vstd::arithmetic::div_mod::lemma_mod_multiples_vanish(t, a, m);
    assert(m * t + a == a + t * m) by (nonlinear_arith);
}

/// Compression followed by decompression moves a value by at most
/// `ceil(q / 2^(d+1))`, measured around the circle of residues modulo `q`.
pub proof fn lemma_compress_decompress_close(x: int, d: nat, q: int)
    requires
        0 <= x,
        0 < q,
    ensures
        residue_distance(decompress_int(compress_int(x, d, q), d, q), x, q) <= compress_radius(
            d,
            q,
        ),
{
    let r = x % q;
    let t = x / q;
    let y = decompress_int(compress_int(x, d, q), d, q);
    vstd::arithmetic::div_mod::lemma_fundamental_div_mod(x, q);
    vstd::arithmetic::div_mod::lemma_mod_bound(x, q);
    lemma_compress_of_residue(x, d, q);
    lemma_close_for_canonical(r, d, q);
    // the distance to x is the distance to its residue
    vstd::arithmetic::div_mod::lemma_mod_multiples_vanish(-t, y - r, q);
    vstd::arithmetic::div_mod::lemma_mod_multiples_vanish(t, r - y, q);
    assert(q * (-t) + (y - r) == y - x && q * t + (r - y) == x - y) by (nonlinear_arith)
        requires
            x == q * t + r,
    ;
}

} // verus!
