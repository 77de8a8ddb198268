//! Polynomials over F_q, held as their coefficient vectors.

use vstd::prelude::*;
use vstd::arithmetic::div_mod::{lemma_add_mod_noop, lemma_sub_mod_noop};
use crate::field::{F3329, q, is_reduced};

verus! {

/// Every entry of `s` is a canonical representative.
pub open spec fn all_reduced(s: Seq<int>) -> bool {
    forall|i: int| 0 <= i < s.len() ==> is_reduced(#[trigger] s[i])
}

/// The zero polynomial with `n` coefficients.
pub open spec fn zero_seq(n: nat) -> Seq<int> {
    Seq::new(n, |i: int| 0int)
}

/// Coefficient-wise sum.
pub open spec fn add_seq(a: Seq<int>, b: Seq<int>) -> Seq<int> {
    Seq::new(a.len(), |i: int| (a[i] + b[i]) % q())
}

/// Coefficient-wise difference.
pub open spec fn sub_seq(a: Seq<int>, b: Seq<int>) -> Seq<int> {
    Seq::new(a.len(), |i: int| (a[i] - b[i]) % q())
}

/// Coefficient-wise additive inverse.
pub open spec fn neg_seq(a: Seq<int>) -> Seq<int> {
    Seq::new(a.len(), |i: int| (-a[i]) % q())
}

/// Every coefficient multiplied by the scalar `c`.
pub open spec fn scale_seq(a: Seq<int>, c: int) -> Seq<int> {
    Seq::new(a.len(), |i: int| (a[i] * c) % q())
}

/// The first `n` entries of `s`, with zeros where `s` is shorter.
pub open spec fn pad_seq(s: Seq<int>, n: nat) -> Seq<int> {
    Seq::new(n, |i: int| if i < s.len() { s[i] } else { 0 })
}

/// The polynomial `1` with `n` coefficients.
pub open spec fn one_seq(n: nat) -> Seq<int> {
    Seq::new(n, |i: int| if i == 0 { 1int } else { 0int })
}

/// The monomial `X^pos` with `n` coefficients.
pub open spec fn basis_seq(n: nat, pos: int) -> Seq<int> {
    Seq::new(n, |i: int| if i == pos { 1int } else { 0int })
}

/// What `a[i]` contributes to the coefficient of `X^k` in the product of `a`
/// and `b` modulo `X^n + 1`, where `n` is the length of `a`: the partner of
/// `a[i]` is `b[k - i]`, or, since `X^n = -1`, `-b[k - i + n]` where `i > k`.
pub open spec fn negacyclic_term(a: Seq<int>, b: Seq<int>, k: int, i: int) -> int {
    if i <= k {
        a[i] * b[k - i]
    } else {
        -(a[i] * b[k - i + a.len()])
    }
}

/// The sum of the first `m` contributions to the coefficient of `X^k`.
pub open spec fn negacyclic_sum(a: Seq<int>, b: Seq<int>, k: int, m: nat) -> int
    decreases m,
{
    if m == 0 {
        0
    } else {
        negacyclic_sum(a, b, k, (m - 1) as nat) + negacyclic_term(a, b, k, m - 1)
    }
}

/// The product of `a` and `b` in Z_q[X]/(X^n + 1), `n` the length of `a`.
pub open spec fn mul_seq(a: Seq<int>, b: Seq<int>) -> Seq<int> {
    Seq::new(a.len(), |k: int| negacyclic_sum(a, b, k, a.len()) % q())
}

/// The sum of the products of the first `m` coefficients of `a` and `b`.
pub open spec fn inner_sum(a: Seq<int>, b: Seq<int>, m: nat) -> int
    decreases m,
{
    if m == 0 {
        0
    } else {
        inner_sum(a, b, (m - 1) as nat) + a[m - 1] * b[m - 1]
    }
}

/// `d` is the largest index of a non-zero coefficient of `a`.
pub open spec fn is_degree(a: Seq<int>, d: int) -> bool {
    &&& 0 <= d < a.len()
    &&& a[d] != 0
    &&& forall|i: int| d < i < a.len() ==> #[trigger] a[i] == 0
}

/// A polynomial over F_q; `coefficients[i]` belongs to `X^i`.
#[derive(Debug, PartialEq, Eq)]
pub struct Poly3329 {
    pub coefficients: Vec<F3329>,
}

impl View for Poly3329 {
    type V = Seq<int>;

    open spec fn view(&self) -> Seq<int> {
        Seq::new(self.coefficients@.len(), |i: int| self.coefficients@[i]@)
    }
}

impl Clone for Poly3329 {
    fn clone(&self) -> (r: Self)
        ensures
            r@ == self@,
            r.coefficients@ == self.coefficients@,
    {
        let mut c: Vec<F3329> = Vec::new();
        let n: usize = self.coefficients.len();
        let mut i: usize = 0;
        while i < n
            invariant
                i <= n,
                n == self.coefficients@.len(),
                c@.len() == i,
                forall|j: int| 0 <= j < i ==> c@[j] == self.coefficients@[j],
            decreases n - i,
        {
            c.push(self.coefficients[i]);
            i += 1;
        }
        assert(c@ =~= self.coefficients@);
        Poly3329 { coefficients: c }
    }
}

impl Poly3329 {
    /// Every coefficient is fully reduced.
    pub open spec fn wf(&self) -> bool {
        all_reduced(self@)
    }

    /// The polynomial with `n` coefficients that starts with `coeffs` and is
    /// zero from there on; entries of `coeffs` past the first `n` are dropped.
    pub fn from_vec(coeffs: Vec<F3329>, n: usize) -> (r: Self)
        requires
            forall|i: int| 0 <= i < coeffs@.len() ==> (#[trigger] coeffs@[i]).wf(),
        ensures
            r.wf(),
            r@ == pad_seq(Seq::new(coeffs@.len(), |i: int| coeffs@[i]@), n as nat),
    {
        let mut c: Vec<F3329> = Vec::new();
        let mut i: usize = 0;
        while i < n
            invariant
                i <= n,
                c@.len() == i,
                forall|j: int| 0 <= j < i ==> (#[trigger] c@[j])@ == (if j < coeffs@.len() {
                    coeffs@[j]@
                } else {
                    0
                }),
                forall|j: int| 0 <= j < coeffs@.len() ==> (#[trigger] coeffs@[j]).wf(),
            decreases n - i,
        {
            if i < coeffs.len() {
                c.push(coeffs[i]);
            } else {
                c.push(F3329 { value: 0 });
            }
            i += 1;
        }
        let r = Poly3329 { coefficients: c };
        assert(r@ =~= pad_seq(Seq::new(coeffs@.len(), |i: int| coeffs@[i]@), n as nat));
        r
    }

    /// The zero polynomial with `n` coefficients.
    pub fn init(n: usize) -> (r: Self)
        ensures
            r.wf(),
            r@ == zero_seq(n as nat),
    {
        let mut c: Vec<F3329> = Vec::new();
        let mut i: usize = 0;
        while i < n
            invariant
                i <= n,
                c@.len() == i,
                forall|j: int| 0 <= j < i ==> (#[trigger] c@[j])@ == 0,
            decreases n - i,
        {
            c.push(F3329 { value: 0 });
            i += 1;
        }
        let r = Poly3329 { coefficients: c };
        assert(r@ =~= zero_seq(n as nat));
        r
    }

    /// The number of coefficients.
    pub fn dimension(&self) -> (r: usize)
        ensures
            r == self@.len(),
    {
        self.coefficients.len()
    }

    /// The coefficient of `X^i`.
    pub fn get(&self, i: usize) -> (r: F3329)
        requires
            i < self@.len(),
        ensures
            r@ == self@[i as int],
            self.wf() ==> r.wf(),
    {
        let r = self.coefficients[i];
        assert(r@ == self@[i as int]);
        r
    }

    /// Replaces the coefficient of `X^i` by `value`.
    pub fn set(&mut self, i: usize, value: F3329)
        requires
            i < old(self)@.len(),
        ensures
            final(self)@ == old(self)@.update(i as int, value@),
            old(self).wf() && value.wf() ==> final(self).wf(),
    {
        self.coefficients.set(i, value);
        assert(self@ =~= old(self)@.update(i as int, value@));
        assert(old(self).wf() && value.wf() ==> self.wf()) by {
            if old(self).wf() && value.wf() {
                assert forall|j: int| 0 <= j < self@.len() implies is_reduced(#[trigger] self@[j]) by {
                    if j != i as int {
                        assert(self@[j] == old(self)@[j]);
                    }
                }
            }
        }
    }

    /// Overwrites every coefficient with zero; the dimension stays.
    pub fn zeroize(&mut self)
        ensures
            final(self)@ == zero_seq(old(self)@.len()),
    {
        let n: usize = self.coefficients.len();
        let mut i: usize = 0;
        while i < n
            invariant
                i <= n,
                n == old(self)@.len(),
                self.coefficients@.len() == n,
                forall|j: int| 0 <= j < i ==> (#[trigger] self.coefficients@[j])@ == 0,
            decreases n - i,
        {
            self.coefficients.set(i, F3329 { value: 0 });
            i += 1;
        }
        assert(self@ =~= zero_seq(old(self)@.len()));
    }

    /// The zero polynomial of the same dimension.
    pub fn zero(&self) -> (r: Self)
        ensures
            r.wf(),
            r@ == zero_seq(self@.len()),
    {
        Poly3329::init(self.coefficients.len())
    }

    /// Whether every coefficient is zero.
    pub fn is_zero(&self) -> (r: bool)
        ensures
            r == (self@ == zero_seq(self@.len())),
    {
        let n: usize = self.coefficients.len();
        let mut i: usize = 0;
        while i < n
            invariant
                i <= n,
                n == self@.len(),
                forall|j: int| 0 <= j < i ==> #[trigger] self@[j] == 0,
            decreases n - i,
        {
            if self.coefficients[i].value != 0 {
                assert(self@[i as int] != 0);
                assert(zero_seq(self@.len())[i as int] == 0);
                return false;
            }
            i += 1;
        }
        assert(self@ =~= zero_seq(self@.len()));
        true
    }

    /// The largest index of a non-zero coefficient, or `None` for the zero
    /// polynomial.
    pub fn degree(&self) -> (r: Option<usize>)
        ensures
            match r {
                Some(d) => is_degree(self@, d as int),
                None => self@ == zero_seq(self@.len()),
            },
    {
        let n: usize = self.coefficients.len();
        let mut i: usize = n;
        while i > 0
            invariant
                i <= n,
                n == self@.len(),
                forall|j: int| i <= j < n ==> #[trigger] self@[j] == 0,
            decreases i,
        {
            i -= 1;
            if self.coefficients[i].value != 0 {
                assert(self@[i as int] != 0);
                return Some(i);
            }
        }
        assert(self@ =~= zero_seq(self@.len()));
        None
    }

    /// The coefficient-wise sum.
    pub fn add(&self, other: &Self) -> (r: Self)
        requires
            self.wf(),
            other.wf(),
            self@.len() == other@.len(),
        ensures
            r.wf(),
            r@ == add_seq(self@, other@),
    {
        let n: usize = self.coefficients.len();
        let mut c: Vec<F3329> = Vec::new();
        let mut i: usize = 0;
        while i < n
            invariant
                i <= n,
                n == self@.len(),
                n == other@.len(),
                self.wf(),
                other.wf(),
                c@.len() == i,
                forall|j: int| 0 <= j < i ==> (#[trigger] c@[j])@ == (self@[j] + other@[j]) % q(),
            decreases n - i,
        {
            let a = self.get(i);
            let b = other.get(i);
            c.push(a.add(&b));
            i += 1;
        }
        let r = Poly3329 { coefficients: c };
        assert(r@ =~= add_seq(self@, other@));
        r
    }

    /// The coefficient-wise difference.
    pub fn sub(&self, other: &Self) -> (r: Self)
        requires
            self.wf(),
            other.wf(),
            self@.len() == other@.len(),
        ensures
            r.wf(),
            r@ == sub_seq(self@, other@),
    {
        let n: usize = self.coefficients.len();
        let mut c: Vec<F3329> = Vec::new();
        let mut i: usize = 0;
        while i < n
            invariant
                i <= n,
                n == self@.len(),
                n == other@.len(),
                self.wf(),
                other.wf(),
                c@.len() == i,
                forall|j: int| 0 <= j < i ==> (#[trigger] c@[j])@ == (self@[j] - other@[j]) % q(),
            decreases n - i,
        {
            let a = self.get(i);
            let b = other.get(i);
            c.push(a.sub(&b));
            i += 1;
        }
        let r = Poly3329 { coefficients: c };
        assert(r@ =~= sub_seq(self@, other@));
        r
    }

    /// The coefficient-wise additive inverse.
    pub fn neg(&self) -> (r: Self)
        requires
            self.wf(),
        ensures
            r.wf(),
            r@ == neg_seq(self@),
    {
        let n: usize = self.coefficients.len();
        let mut c: Vec<F3329> = Vec::new();
        let mut i: usize = 0;
        while i < n
            invariant
                i <= n,
                n == self@.len(),
                self.wf(),
                c@.len() == i,
                forall|j: int| 0 <= j < i ==> (#[trigger] c@[j])@ == (-self@[j]) % q(),
            decreases n - i,
        {
            let a = self.get(i);
            c.push(a.neg());
            i += 1;
        }
        let r = Poly3329 { coefficients: c };
        assert(r@ =~= neg_seq(self@));
        r
    }

    /// Every coefficient multiplied by the field element `scalar`.
    pub fn mulf(&self, scalar: &F3329) -> (r: Self)
        requires
            self.wf(),
            scalar.wf(),
        ensures
            r.wf(),
            r@ == scale_seq(self@, scalar@),
    {
        let n: usize = self.coefficients.len();
        let mut c: Vec<F3329> = Vec::new();
        let mut i: usize = 0;
        while i < n
            invariant
                i <= n,
                n == self@.len(),
                self.wf(),
                scalar.wf(),
                c@.len() == i,
                forall|j: int| 0 <= j < i ==> (#[trigger] c@[j])@ == (self@[j] * scalar@) % q(),
            decreases n - i,
        {
            let a = self.get(i);
            c.push(a.mul(scalar));
            i += 1;
        }
        let r = Poly3329 { coefficients: c };
        assert(r@ =~= scale_seq(self@, scalar@));
        r
    }
}

impl Poly3329 {
    /// The polynomial `1` of the same dimension.
    pub fn one(&self) -> (r: Self)
        ensures
            r.wf(),
            r@ == one_seq(self@.len()),
    {
        let mut r = Poly3329::init(self.coefficients.len());
        if self.coefficients.len() > 0 {
            r.set(0, F3329 { value: 1 });
        }
        assert(r@ =~= one_seq(self@.len()));
        r
    }

    /// The monomial `X^position` of the same dimension.
    pub fn basis_vector(&self, position: usize) -> (r: Self)
        requires
            position < self@.len(),
        ensures
            r.wf(),
            r@ == basis_seq(self@.len(), position as int),
    {
        let mut r = Poly3329::init(self.coefficients.len());
        r.set(position, F3329 { value: 1 });
        assert(r@ =~= basis_seq(self@.len(), position as int));
        r
    }

    /// The inner product of the coefficient vectors, in F_q.
    pub fn dot(&self, other: &Self) -> (r: F3329)
        requires
            self.wf(),
            other.wf(),
            self@.len() == other@.len(),
        ensures
            r.wf(),
            r@ == inner_sum(self@, other@, self@.len()) % q(),
    {
        let n: usize = self.coefficients.len();
        let mut acc = F3329 { value: 0 };
        let mut i: usize = 0;
        while i < n
            invariant
                i <= n,
                n == self@.len(),
                n == other@.len(),
                self.wf(),
                other.wf(),
                acc.wf(),
                acc@ == inner_sum(self@, other@, i as nat) % q(),
            decreases n - i,
        {
            let a = self.get(i);
            let b = other.get(i);
            proof {
                lemma_add_mod_noop(inner_sum(self@, other@, i as nat), a@ * b@, q());
            }
            acc = acc.add(&a.mul(&b));
            i += 1;
        }
        acc
    }

    /// The product modulo `X^n + 1`, computed term by term.
    pub fn mul(&self, other: &Self) -> (r: Self)
        requires
            self.wf(),
            other.wf(),
            self@.len() == other@.len(),
        ensures
            r.wf(),
            r@ == mul_seq(self@, other@),
    {
        let n: usize = self.coefficients.len();
        let mut c: Vec<F3329> = Vec::new();
        let mut k: usize = 0;
        while k < n
            invariant
                k <= n,
                n == self@.len(),
                n == other@.len(),
                self.wf(),
                other.wf(),
                c@.len() == k,
                forall|j: int| 0 <= j < k ==> (#[trigger] c@[j])@ == negacyclic_sum(
                    self@,
                    other@,
                    j,
                    n as nat,
                ) % q(),
            decreases n - k,
        {
            let mut acc = F3329 { value: 0 };
            let mut i: usize = 0;
            while i < n
                invariant
                    i <= n,
                    k < n,
                    n == self@.len(),
                    n == other@.len(),
                    self.wf(),
                    other.wf(),
                    acc.wf(),
                    acc@ == negacyclic_sum(self@, other@, k as int, i as nat) % q(),
                decreases n - i,
            {
                let a = self.get(i);
                let ghost s = negacyclic_sum(self@, other@, k as int, i as nat);
                let ghost t = negacyclic_term(self@, other@, k as int, i as int);
                if i <= k {
                    let b = other.get(k - i);
                    let ab = a.mul(&b);
                    proof {
                        lemma_add_mod_noop(s, t, q());
                    }
                    acc = acc.add(&ab);
                } else {
                    let b = other.get(n - (i - k));
                    let ab = a.mul(&b);
                    proof {
                        lemma_sub_mod_noop(s, -t, q());
                    }
                    acc = acc.sub(&ab);
                }
                i += 1;
            }
            c.push(acc);
            k += 1;
        }
        let r = Poly3329 { coefficients: c };
        assert(r@ =~= mul_seq(self@, other@));
        r
    }
}

} // verus!
