//! Congruence modulo `q`, for the proofs about the transform.

use vstd::prelude::*;
use vstd::arithmetic::div_mod::{
    lemma_add_mod_noop, lemma_mul_mod_noop, lemma_mod_twice, lemma_small_mod,
    lemma_mod_multiples_basic,
};
use crate::field::{q, is_reduced};

verus! {

/// `a` and `b` leave the same remainder modulo `q`.
pub open spec fn cong(a: int, b: int) -> bool {
    a % q() == b % q()
}

/// Congruent summands give congruent sums.
pub proof fn lemma_cong_add(a: int, b: int, c: int, d: int)
    requires
        cong(a, b),
        cong(c, d),
    ensures
        cong(a + c, b + d),
{
    lemma_add_mod_noop(a, c, q());
    lemma_add_mod_noop(b, d, q());
}

/// Congruent factors give congruent products.
pub proof fn lemma_cong_mul(a: int, b: int, c: int, d: int)
    requires
        cong(a, b),
        cong(c, d),
    ensures
        cong(a * c, b * d),
{
    lemma_mul_mod_noop(a, c, q());
    lemma_mul_mod_noop(b, d, q());
}

/// A remainder is congruent to what it was taken of.
pub proof fn lemma_cong_mod(a: int)
    ensures
        cong(a % q(), a),
{
    lemma_mod_twice(a, q());
}

/// Congruent canonical representatives are equal.
pub proof fn lemma_cong_reduced(a: int, b: int)
    requires
        cong(a, b),
        is_reduced(a),
        is_reduced(b),
    ensures
        a == b,
{
    lemma_small_mod(a as nat, q() as nat);
    lemma_small_mod(b as nat, q() as nat);
}

/// A multiple of `q` is congruent to zero.
pub proof fn lemma_cong_multiple(k: int)
    ensures
        cong(q() * k, 0),
        cong(k * q(), 0),
{
    lemma_mod_multiples_basic(k, q());
    assert(q() * k == k * q()) by (nonlinear_arith);
}

} // verus!
