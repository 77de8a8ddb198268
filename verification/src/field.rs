//! The prime field F_q with q = 3329.

use vstd::prelude::*;
use vstd::arithmetic::div_mod::{
    lemma_fundamental_div_mod, lemma_fundamental_div_mod_converse, lemma_mul_mod_noop_right,
    lemma_mul_mod_noop_left, lemma_mul_mod_noop, lemma_sub_mod_noop, lemma_small_mod, lemma_mod_bound,
};
use crate::error::KyberError;

verus! {

/// The field modulus as an executable constant.
pub const Q: u32 = 3329;

/// The field modulus as a mathematical integer.
pub open spec fn q() -> int {
    3329
}

/// `x` is a canonical representative: it lies in `[0, q)`.
pub open spec fn is_reduced(x: int) -> bool {
    0 <= x < q()
}

/// An element of F_q, held as its canonical representative.
#[derive(Clone, Copy, Debug, PartialEq, Eq, Structural)]
pub struct F3329 {
    pub value: u32,
}

impl View for F3329 {
    type V = int;

    open spec fn view(&self) -> int {
        self.value as int
    }
}

impl Default for F3329 {
    fn default() -> (r: Self)
        ensures
            r@ == 0,
            r.wf(),
    {
        F3329 { value: 0 }
    }
}

impl F3329 {
    /// The representative is fully reduced.
    pub open spec fn wf(&self) -> bool {
        is_reduced(self@)
    }

    /// The residue class of `x`.
    pub fn from_int(x: usize) -> (r: Self)
        ensures
            r.wf(),
            r@ == x as int % q(),
    {
        F3329 { value: (x % 3329) as u32 }
    }

    /// The canonical representative.
    pub fn to_int(&self) -> (r: usize)
        ensures
            r as int == self@,
    {
        self.value as usize
    }

    /// Whether this is the additive identity.
    pub fn is_zero(&self) -> (r: bool)
        ensures
            r == (self@ == 0),
    {
        self.value == 0
    }

    /// The additive identity.
    pub fn zero(&self) -> (r: Self)
        ensures
            r@ == 0,
            r.wf(),
    {
        F3329 { value: 0 }
    }

    /// The multiplicative identity.
    pub fn one(&self) -> (r: Self)
        ensures
            r@ == 1,
            r.wf(),
    {
        F3329 { value: 1 }
    }

    /// The additive inverse.
    pub fn neg(&self) -> (r: Self)
        requires
            self.wf(),
        ensures
            r.wf(),
            r@ == (-self@) % q(),
    {
        if self.value == 0 {
            F3329 { value: 0 }
        } else {
            F3329 { value: Q - self.value }
        }
    }

    /// The sum in F_q.
    pub fn add(&self, other: &Self) -> (r: Self)
        requires
            self.wf(),
            other.wf(),
        ensures
            r.wf(),
            r@ == (self@ + other@) % q(),
    {
        F3329 { value: (self.value + other.value) % Q }
    }

    /// The difference in F_q.
    pub fn sub(&self, other: &Self) -> (r: Self)
        requires
            self.wf(),
            other.wf(),
        ensures
            r.wf(),
            r@ == (self@ - other@) % q(),
    {
        F3329 { value: (self.value + (Q - other.value)) % Q }
    }

    /// The product in F_q.
    pub fn mul(&self, other: &Self) -> (r: Self)
        requires
            self.wf(),
            other.wf(),
        ensures
            r.wf(),
            r@ == (self@ * other@) % q(),
    {
        assert(self.value * other.value <= 3328 * 3328) by (nonlinear_arith)
            requires
                self.value <= 3328,
                other.value <= 3328,
        ;
        F3329 { value: (self.value * other.value) % Q }
    }
}

/// 3329 is prime: nothing between 1 and itself divides it.
pub proof fn lemma_q_prime(d: int)
    requires
        1 < d < q(),
    ensures
        q() % d != 0,
{
    let e = d as u16;
    assert(1 < e < 3329 ==> 3329u16 % e != 0) by (bit_vector);
}

/// Bezout: for `a` and `b` not both zero there are `s`, `t` with
/// `s a + t b = g`, where `g > 0` divides both: `a = g u` and `b = g v`.
/// Returns `(s, t, g, u, v)`.
proof fn lemma_bezout(a: nat, b: nat) -> (r: (int, int, int, int, int))
    requires
        a > 0 || b > 0,
    ensures
        r.2 > 0,
        r.0 * a + r.1 * b == r.2,
        a == r.2 * r.3,
        b == r.2 * r.4,
    decreases b,
{
    if b == 0 {
        assert(1 * a + 0 * b == a && a == a * 1 && b == a * 0) by (nonlinear_arith)
            requires
                b == 0,
        ;
        (1, 0, a as int, 1, 0)
    } else {
        let quot = a as int / b as int;
        let rem = a as int % b as int;
        lemma_fundamental_div_mod(a as int, b as int);
        let (s1, t1, g, u1, v1) = lemma_bezout(b, rem as nat);
        assert(t1 * a + (s1 - t1 * quot) * b == g && a == g * (u1 * quot + v1)) by (nonlinear_arith)
            requires
                s1 * b + t1 * rem == g,
                b == g * u1,
                rem == g * v1,
                a == b * quot + rem,
        ;
        (t1, s1 - t1 * quot, g, u1 * quot + v1, u1)
    }
}

/// Every non-zero residue is coprime to `q`: returns `(u, v)` with
/// `u q + v x = 1`.
proof fn lemma_coprime(x: int) -> (r: (int, int))
    requires
        0 < x < q(),
    ensures
        r.0 * q() + r.1 * x == 1,
{
    let (s, t, g, u, v) = lemma_bezout(q() as nat, x as nat);
    assert(g <= x && u > 0) by (nonlinear_arith)
        requires
            x == g * v,
            q() == g * u,
            g > 0,
            x > 0,
    ;
    if g > 1 {
        lemma_q_prime(g);
        lemma_fundamental_div_mod_converse(q(), g, u, 0);
    }
    (s, t)
}

/// Every non-zero residue has a multiplicative inverse.
pub proof fn lemma_inverse_exists(x: int) -> (y: int)
    requires
        0 < x < q(),
    ensures
        is_reduced(y),
        (x * y) % q() == 1,
{
    let (u, v) = lemma_coprime(x);
    let y = v % q();
    lemma_mod_bound(v, q());
    lemma_mul_mod_noop_right(x, v, q());
    assert(x * v == (-u) * q() + 1) by (nonlinear_arith)
        requires
            u * q() + v * x == 1,
    ;
    lemma_fundamental_div_mod_converse(x * v, q(), -u, 1);
    y
}

impl F3329 {
    /// The multiplicative inverse, or `DivisionByZero` for zero.
    pub fn inv(&self) -> (r: Result<Self, KyberError>)
        requires
            self.wf(),
        ensures
            self@ == 0 <==> r == Err::<Self, KyberError>(KyberError::DivisionByZero),
            self@ != 0 ==> r is Ok && r->Ok_0.wf() && (self@ * r->Ok_0@) % q() == 1,
    {
        if self.value == 0 {
            return Err(KyberError::DivisionByZero);
        }
        // Euclid's algorithm on (q, x), carrying t0, t1 with
        // t0 x = r0 and t1 x = r1 modulo q.
        let x = *self;
        let mut r0: u32 = Q;
        let mut r1: u32 = self.value;
        let mut t0 = F3329 { value: 0 };
        let mut t1 = F3329 { value: 1 };
        let ghost mut u: int;
        let ghost mut v: int;
        proof {
            let (cu, cv) = lemma_coprime(self@);
            u = cu;
            v = cv;
            assert(t0@ * x@ == 0 && t1@ * x@ == x@) by (nonlinear_arith)
                requires
                    t0@ == 0,
                    t1@ == 1,
            ;
        }
        while r1 != 0
            invariant
                x == *self,
                x.wf(),
                0 <= r1 < r0 <= q(),
                t0.wf(),
                t1.wf(),
                (t0@ * x@) % q() == r0 as int % q(),
                (t1@ * x@) % q() == r1 as int,
                u * r0 + v * r1 == 1,
            decreases r1,
        {
            let quot: u32 = r0 / r1;
            let r2: u32 = r0 % r1;
            let step = F3329::from_int(quot as usize);
            let t2 = t0.sub(&step.mul(&t1));
            proof {
                lemma_fundamental_div_mod(r0 as int, r1 as int);
                let ghost nu = u * quot + v;
                assert(nu * r1 + u * r2 == 1) by (nonlinear_arith)
                    requires
                        u * r0 + v * r1 == 1,
                        r0 == r1 * quot + r2,
                        nu == u * quot + v,
                ;
                lemma_step_residue(t0@, t1@, step@, quot as int, x@, r0 as int, r1 as int, r2 as int);
                v = u;
                u = nu;
            }
            r0 = r1;
            r1 = r2;
            t0 = t1;
            t1 = t2;
        }
        assert(r0 == 1) by (nonlinear_arith)
            requires
                u * r0 + v * r1 == 1,
                r1 == 0,
                0 < r0,
        ;
        proof {
            assert(self@ * t0@ == t0@ * x@) by (nonlinear_arith)
                requires
                    self@ == x@,
            ;
        }
        Ok(t0)
    }

    /// The quotient `self / other`, or `DivisionByZero` where `other` is
    /// zero.
    pub fn div(&self, other: &Self) -> (r: Result<Self, KyberError>)
        requires
            self.wf(),
            other.wf(),
        ensures
            other@ == 0 <==> r == Err::<Self, KyberError>(KyberError::DivisionByZero),
            other@ != 0 ==> r is Ok && r->Ok_0.wf() && (r->Ok_0@ * other@) % q() == self@,
    {
        match other.inv() {
            Ok(inverse) => {
                let r = self.mul(&inverse);
                proof {
                    // (a i % q) b = a (i b) = a (mod q)
                    let a = self@;
                    let b = other@;
                    let i = inverse@;
                    lemma_mul_mod_noop_left(a * i, b, q());
                    assert((a * i) * b == a * (b * i)) by (nonlinear_arith);
                    lemma_mul_mod_noop_right(a, b * i, q());
                    lemma_small_mod(a as nat, q() as nat);
                    assert(a * 1 == a);
                }
                Ok(r)
            },
            Err(e) => Err(e),
        }
    }
}

/// One step of Euclid's algorithm keeps `t x = r` modulo `q`:
/// from `t0 x = r0`, `t1 x = r1` and `r2 = r0 - quot r1` follows
/// `(t0 - step t1) x = r2` where `step = quot` modulo `q`.
proof fn lemma_step_residue(t0: int, t1: int, step: int, quot: int, x: int, r0: int, r1: int, r2: int)
    requires
        (t0 * x) % q() == r0 % q(),
        (t1 * x) % q() == r1,
        step == quot % q(),
        r0 == r1 * quot + r2,
        0 <= r2 < q(),
    ensures
        (((t0 - (step * t1) % q()) % q()) * x) % q() == r2,
{
    let m = q();
    // ((t0 - (step t1) % m) % m) x  ==  (t0 - step t1) x   (mod m)
    lemma_sub_mod_noop_right_local(t0, step * t1);
    lemma_mul_mod_noop_left(t0 - (step * t1) % m, x, m);
    lemma_mul_mod_noop_left(t0 - step * t1, x, m);
    // (t0 - step t1) x = t0 x - step (t1 x)
    assert((t0 - step * t1) * x == t0 * x - step * (t1 * x)) by (nonlinear_arith);
    lemma_sub_mod_noop(t0 * x, step * (t1 * x), m);
    // step (t1 x) = quot r1 (mod m)
    lemma_mul_mod_noop(step, t1 * x, m);
    lemma_mul_mod_noop(quot, r1, m);
    lemma_mod_bound(t1 * x, m);
    lemma_small_mod(r1 as nat, m as nat);
    lemma_mod_bound(quot, m);
    lemma_small_mod(step as nat, m as nat);
    assert((step * (t1 * x)) % m == (quot * r1) % m) by {
        vstd::arithmetic::div_mod::lemma_mod_twice(quot, m);
    }
    // r0 - quot r1 = r2
    lemma_sub_mod_noop(r0, quot * r1, m);
    assert(r0 - quot * r1 == r2) by (nonlinear_arith)
        requires
            r0 == r1 * quot + r2,
    ;
    lemma_small_mod(r2 as nat, m as nat);
}

/// `(a - b % q) % q == (a - b) % q`.
proof fn lemma_sub_mod_noop_right_local(a: int, b: int)
    ensures
        (a - b % q()) % q() == (a - b) % q(),
{
    vstd::arithmetic::div_mod::lemma_sub_mod_noop_right(a, b, q());
}

} // verus!
