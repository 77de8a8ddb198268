//! Vectors and matrices of polynomials over F_q.

use vstd::prelude::*;
use crate::poly::{Poly3329, all_reduced, zero_seq, one_seq, add_seq, sub_seq, neg_seq, mul_seq};

verus! {

/// `p` is an element of R_q: 256 canonical coefficients.
pub open spec fn is_ring_elem(p: Seq<int>) -> bool {
    p.len() == 256 && all_reduced(p)
}

/// Every component of `v` is an element of R_q.
pub open spec fn is_module_elem(v: Seq<Seq<int>>) -> bool {
    forall|i: int| 0 <= i < v.len() ==> is_ring_elem(#[trigger] v[i])
}

/// The zero vector with `k` components.
pub open spec fn zero_vec_seq(k: nat) -> Seq<Seq<int>> {
    Seq::new(k, |i: int| zero_seq(256))
}

/// The vector with `1` at `pos` and `0` elsewhere.
pub open spec fn basis_vec_seq(k: nat, pos: int) -> Seq<Seq<int>> {
    Seq::new(k, |i: int| if i == pos { one_seq(256) } else { zero_seq(256) })
}

/// Component-wise sum.
pub open spec fn add_vec_seq(a: Seq<Seq<int>>, b: Seq<Seq<int>>) -> Seq<Seq<int>> {
    Seq::new(a.len(), |i: int| add_seq(a[i], b[i]))
}

/// Component-wise difference.
pub open spec fn sub_vec_seq(a: Seq<Seq<int>>, b: Seq<Seq<int>>) -> Seq<Seq<int>> {
    Seq::new(a.len(), |i: int| sub_seq(a[i], b[i]))
}

/// Component-wise additive inverse.
pub open spec fn neg_vec_seq(a: Seq<Seq<int>>) -> Seq<Seq<int>> {
    Seq::new(a.len(), |i: int| neg_seq(a[i]))
}

/// Every component multiplied by the polynomial `p` in R_q.
pub open spec fn scale_vec_seq(a: Seq<Seq<int>>, p: Seq<int>) -> Seq<Seq<int>> {
    Seq::new(a.len(), |i: int| mul_seq(a[i], p))
}

/// The sum of the products of the first `m` components, in R_q.
pub open spec fn dot_seq(a: Seq<Seq<int>>, b: Seq<Seq<int>>, m: nat) -> Seq<int>
    decreases m,
{
    if m == 0 {
        zero_seq(256)
    } else {
        add_seq(dot_seq(a, b, (m - 1) as nat), mul_seq(a[m - 1], b[m - 1]))
    }
}

/// A vector of polynomials.
#[derive(Debug, PartialEq, Eq)]
pub struct PolyVec3329 {
    pub coefficients: Vec<Poly3329>,
}

impl View for PolyVec3329 {
    type V = Seq<Seq<int>>;

    open spec fn view(&self) -> Seq<Seq<int>> {
        Seq::new(self.coefficients@.len(), |i: int| self.coefficients@[i]@)
    }
}

impl Clone for PolyVec3329 {
    fn clone(&self) -> (r: Self)
        ensures
            r@ == self@,
    {
        let mut c: Vec<Poly3329> = Vec::new();
        let n: usize = self.coefficients.len();
        let mut i: usize = 0;
        while i < n
            invariant
                i <= n,
                n == self.coefficients@.len(),
                c@.len() == i,
                forall|j: int| 0 <= j < i ==> (#[trigger] c@[j])@ == self.coefficients@[j]@,
            decreases n - i,
        {
            c.push(self.coefficients[i].clone());
            i += 1;
        }
        let r = PolyVec3329 { coefficients: c };
        assert(r@ =~= self@);
        r
    }
}

impl PolyVec3329 {
    /// Every component is an element of R_q.
    pub open spec fn wf(&self) -> bool {
        is_module_elem(self@)
    }

    /// The vector whose components are `coeffs`, in order.
    pub fn from_vec(coeffs: Vec<Poly3329>) -> (r: Self)
        ensures
            r.coefficients == coeffs,
            r@ == Seq::new(coeffs@.len(), |i: int| coeffs@[i]@),
    {
        PolyVec3329 { coefficients: coeffs }
    }

    /// The zero vector with `k` components.
    pub fn init(k: usize) -> (r: Self)
        ensures
            r.wf(),
            r@ == zero_vec_seq(k as nat),
    {
        let mut c: Vec<Poly3329> = Vec::new();
        let mut i: usize = 0;
        while i < k
            invariant
                i <= k,
                c@.len() == i,
                forall|j: int| 0 <= j < i ==> (#[trigger] c@[j])@ == zero_seq(256),
            decreases k - i,
        {
            c.push(Poly3329::init(256));
            i += 1;
        }
        let r = PolyVec3329 { coefficients: c };
        assert(r@ =~= zero_vec_seq(k as nat));
        r
    }

    /// The number of components.
    pub fn dimension(&self) -> (r: usize)
        ensures
            r == self@.len(),
    {
        self.coefficients.len()
    }

    /// A copy of component `i`.
    pub fn get(&self, i: usize) -> (r: Poly3329)
        requires
            i < self@.len(),
        ensures
            r@ == self@[i as int],
            self.wf() ==> r.wf() && r@.len() == 256,
    {
        let r = self.coefficients[i].clone();
        assert(r@ == self@[i as int]);
        r
    }

    /// Replaces component `i` by `value`.
    pub fn set(&mut self, i: usize, value: Poly3329)
        requires
            i < old(self)@.len(),
        ensures
            final(self)@ == old(self)@.update(i as int, value@),
            old(self).wf() && is_ring_elem(value@) ==> final(self).wf(),
    {
        let ghost v = value@;
        self.coefficients.set(i, value);
        assert(self@ =~= old(self)@.update(i as int, v));
        assert(old(self).wf() && is_ring_elem(v) ==> self.wf()) by {
            if old(self).wf() && is_ring_elem(v) {
                assert forall|j: int| 0 <= j < self@.len() implies is_ring_elem(
                    #[trigger] self@[j],
                ) by {
                    if j != i as int {
                        assert(self@[j] == old(self)@[j]);
                    }
                }
            }
        }
    }

    /// The zero vector of the same dimension.
    pub fn zero(&self) -> (r: Self)
        ensures
            r.wf(),
            r@ == zero_vec_seq(self@.len()),
    {
        PolyVec3329::init(self.coefficients.len())
    }

    /// Whether every component is the zero polynomial.
    pub fn is_zero(&self) -> (r: bool)
        ensures
            r == (forall|i: int| 0 <= i < self@.len() ==> #[trigger] self@[i] == zero_seq(
                self@[i].len(),
            )),
    {
        let n: usize = self.coefficients.len();
        let mut i: usize = 0;
        while i < n
            invariant
                i <= n,
                n == self@.len(),
                forall|j: int| 0 <= j < i ==> #[trigger] self@[j] == zero_seq(self@[j].len()),
            decreases n - i,
        {
            if !self.coefficients[i].is_zero() {
                assert(self@[i as int] == self.coefficients@[i as int]@);
                return false;
            }
            assert(self@[i as int] == self.coefficients@[i as int]@);
            i += 1;
        }
        true
    }

    /// The component-wise sum.
    pub fn add(&self, other: &Self) -> (r: Self)
        requires
            self.wf(),
            other.wf(),
            self@.len() == other@.len(),
        ensures
            r.wf(),
            r@ == add_vec_seq(self@, other@),
    {
        let n: usize = self.coefficients.len();
        let mut c: Vec<Poly3329> = Vec::new();
        let mut i: usize = 0;
        while i < n
            invariant
                i <= n,
                n == self@.len(),
                n == other@.len(),
                self.wf(),
                other.wf(),
                c@.len() == i,
                forall|j: int| 0 <= j < i ==> (#[trigger] c@[j])@ == add_seq(self@[j], other@[j]),
            decreases n - i,
        {
            let a = self.get(i);
            let b = other.get(i);
            c.push(a.add(&b));
            i += 1;
        }
        let r = PolyVec3329 { coefficients: c };
        assert(r@ =~= add_vec_seq(self@, other@));
        assert(r.wf()) by {
            assert forall|j: int| 0 <= j < r@.len() implies is_ring_elem(#[trigger] r@[j]) by {
                assert(is_ring_elem(self@[j]) && is_ring_elem(other@[j]));
            }
        }
        r
    }

    /// The component-wise difference.
    pub fn sub(&self, other: &Self) -> (r: Self)
        requires
            self.wf(),
            other.wf(),
            self@.len() == other@.len(),
        ensures
            r.wf(),
            r@ == sub_vec_seq(self@, other@),
    {
        let n: usize = self.coefficients.len();
        let mut c: Vec<Poly3329> = Vec::new();
        let mut i: usize = 0;
        while i < n
            invariant
                i <= n,
                n == self@.len(),
                n == other@.len(),
                self.wf(),
                other.wf(),
                c@.len() == i,
                forall|j: int| 0 <= j < i ==> (#[trigger] c@[j])@ == sub_seq(self@[j], other@[j]),
            decreases n - i,
        {
            let a = self.get(i);
            let b = other.get(i);
            c.push(a.sub(&b));
            i += 1;
        }
        let r = PolyVec3329 { coefficients: c };
        assert(r@ =~= sub_vec_seq(self@, other@));
        assert(r.wf()) by {
            assert forall|j: int| 0 <= j < r@.len() implies is_ring_elem(#[trigger] r@[j]) by {
                assert(is_ring_elem(self@[j]) && is_ring_elem(other@[j]));
            }
        }
        r
    }

    /// The component-wise additive inverse.
    pub fn neg(&self) -> (r: Self)
        requires
            self.wf(),
        ensures
            r.wf(),
            r@ == neg_vec_seq(self@),
    {
        let n: usize = self.coefficients.len();
        let mut c: Vec<Poly3329> = Vec::new();
        let mut i: usize = 0;
        while i < n
            invariant
                i <= n,
                n == self@.len(),
                self.wf(),
                c@.len() == i,
                forall|j: int| 0 <= j < i ==> (#[trigger] c@[j])@ == neg_seq(self@[j]),
            decreases n - i,
        {
            let a = self.get(i);
            c.push(a.neg());
            i += 1;
        }
        let r = PolyVec3329 { coefficients: c };
        assert(r@ =~= neg_vec_seq(self@));
        assert(r.wf()) by {
            assert forall|j: int| 0 <= j < r@.len() implies is_ring_elem(#[trigger] r@[j]) by {
                assert(is_ring_elem(self@[j]));
            }
        }
        r
    }

    /// Every component multiplied by the polynomial `scalar` in R_q.
    pub fn mulf(&self, scalar: &Poly3329) -> (r: Self)
        requires
            self.wf(),
            is_ring_elem(scalar@),
        ensures
            r.wf(),
            r@ == scale_vec_seq(self@, scalar@),
    {
        let n: usize = self.coefficients.len();
        let mut c: Vec<Poly3329> = Vec::new();
        let mut i: usize = 0;
        while i < n
            invariant
                i <= n,
                n == self@.len(),
                self.wf(),
                is_ring_elem(scalar@),
                c@.len() == i,
                forall|j: int| 0 <= j < i ==> (#[trigger] c@[j])@ == mul_seq(self@[j], scalar@),
            decreases n - i,
        {
            let a = self.get(i);
            c.push(a.mul(scalar));
            i += 1;
        }
        let r = PolyVec3329 { coefficients: c };
        assert(r@ =~= scale_vec_seq(self@, scalar@));
        assert(r.wf()) by {
            assert forall|j: int| 0 <= j < r@.len() implies is_ring_elem(#[trigger] r@[j]) by {
                assert(is_ring_elem(self@[j]));
            }
        }
        r
    }

    /// The vector with `1` at `position` and `0` elsewhere.
    pub fn basis_vector(&self, position: usize) -> (r: Self)
        requires
            position < self@.len(),
        ensures
            r.wf(),
            r@ == basis_vec_seq(self@.len(), position as int),
    {
        let mut r = PolyVec3329::init(self.coefficients.len());
        let z = Poly3329::init(256);
        r.set(position, z.one());
        assert(r@ =~= basis_vec_seq(self@.len(), position as int));
        r
    }

    /// The sum of the component-wise products in R_q, each computed term by
    /// term.
    pub fn dot(&self, other: &Self) -> (r: Poly3329)
        requires
            self.wf(),
            other.wf(),
            self@.len() == other@.len(),
        ensures
            is_ring_elem(r@),
            r@ == dot_seq(self@, other@, self@.len()),
    {
        let n: usize = self.coefficients.len();
        let mut acc = Poly3329::init(256);
        let mut i: usize = 0;
        while i < n
            invariant
                i <= n,
                n == self@.len(),
                n == other@.len(),
                self.wf(),
                other.wf(),
                is_ring_elem(acc@),
                acc@ == dot_seq(self@, other@, i as nat),
            decreases n - i,
        {
            let a = self.get(i);
            let b = other.get(i);
            let ab = a.mul(&b);
            acc = acc.add(&ab);
            i += 1;
        }
        acc
    }
}

/// A matrix of polynomials, held row by row.
#[derive(Debug, PartialEq, Eq)]
pub struct PolyMatrix3329 {
    pub coefficients: Vec<PolyVec3329>,
}

/// The number of columns of `m`: the length of its first row.
pub open spec fn width_seq(m: Seq<Seq<Seq<int>>>) -> nat {
    if m.len() == 0 {
        0
    } else {
        m[0].len()
    }
}

/// All rows of `m` have the same length and hold elements of R_q.
pub open spec fn is_matrix(m: Seq<Seq<Seq<int>>>) -> bool {
    forall|i: int|
        0 <= i < m.len() ==> (#[trigger] m[i]).len() == width_seq(m) && is_module_elem(m[i])
}

/// Column `j` of `m`.
pub open spec fn column_seq(m: Seq<Seq<Seq<int>>>, j: int) -> Seq<Seq<int>> {
    Seq::new(m.len(), |i: int| m[i][j])
}

/// The transpose of `m`.
pub open spec fn transpose_seq(m: Seq<Seq<Seq<int>>>) -> Seq<Seq<Seq<int>>> {
    Seq::new(width_seq(m), |j: int| column_seq(m, j))
}

impl View for PolyMatrix3329 {
    type V = Seq<Seq<Seq<int>>>;

    open spec fn view(&self) -> Seq<Seq<Seq<int>>> {
        Seq::new(self.coefficients@.len(), |i: int| self.coefficients@[i]@)
    }
}

impl PolyMatrix3329 {
    /// The rows have one length and hold elements of R_q.
    pub open spec fn wf(&self) -> bool {
        is_matrix(self@)
    }

    /// The zero matrix with `rows` rows of `cols` polynomials each.
    pub fn init(cols: usize, rows: usize) -> (r: Self)
        ensures
            r.wf(),
            r@ == Seq::new(rows as nat, |i: int| zero_vec_seq(cols as nat)),
    {
        let mut c: Vec<PolyVec3329> = Vec::new();
        let mut i: usize = 0;
        while i < rows
            invariant
                i <= rows,
                c@.len() == i,
                forall|j: int| 0 <= j < i ==> (#[trigger] c@[j])@ == zero_vec_seq(cols as nat),
            decreases rows - i,
        {
            c.push(PolyVec3329::init(cols));
            i += 1;
        }
        let r = PolyMatrix3329 { coefficients: c };
        assert(r@ =~= Seq::new(rows as nat, |i: int| zero_vec_seq(cols as nat)));
        assert(r.wf()) by {
            assert forall|i: int| 0 <= i < r@.len() implies (#[trigger] r@[i]).len() == width_seq(
                r@,
            ) && is_module_elem(r@[i]) by {
                assert(r@[0] == zero_vec_seq(cols as nat));
                assert(r@[i] == zero_vec_seq(cols as nat));
                assert forall|j: int| 0 <= j < r@[i].len() implies is_ring_elem(
                    #[trigger] r@[i][j],
                ) by {
                    assert(r@[i][j] == zero_seq(256));
                }
            }
        }
        r
    }

    /// The length of a row, then the number of rows.
    pub fn dimensions(&self) -> (r: (usize, usize))
        ensures
            r.0 == width_seq(self@),
            r.1 == self@.len(),
    {
        let rows: usize = self.coefficients.len();
        if rows == 0 {
            (0, 0)
        } else {
            assert(self@[0] == self.coefficients@[0]@);
            (self.coefficients[0].dimension(), rows)
        }
    }

    /// A copy of the entry in row `i` and column `j`.
    pub fn get(&self, i: usize, j: usize) -> (r: Poly3329)
        requires
            i < self@.len(),
            j < self@[i as int].len(),
        ensures
            r@ == self@[i as int][j as int],
            self.wf() ==> is_ring_elem(r@),
    {
        assert(self@[i as int] == self.coefficients@[i as int]@);
        self.coefficients[i].get(j)
    }

    /// Replaces the entry in row `i` and column `j` by `value`.
    pub fn set(&mut self, i: usize, j: usize, value: Poly3329)
        requires
            i < old(self)@.len(),
            j < old(self)@[i as int].len(),
        ensures
            final(self)@ == old(self)@.update(
                i as int,
                old(self)@[i as int].update(j as int, value@),
            ),
            old(self).wf() && is_ring_elem(value@) ==> final(self).wf(),
    {
        let ghost v = value@;
        assert(self@[i as int] == self.coefficients@[i as int]@);
        let mut row = self.coefficients[i].clone();
        row.set(j, value);
        let ghost new_row = row@;
        self.coefficients.set(i, row);
        assert(self@ =~= old(self)@.update(i as int, old(self)@[i as int].update(j as int, v)));
        assert(old(self).wf() && is_ring_elem(v) ==> self.wf()) by {
            if old(self).wf() && is_ring_elem(v) {
                assert(old(self)@[0].len() == width_seq(old(self)@));
                assert(old(self)@[i as int].len() == width_seq(old(self)@));
                assert(is_module_elem(old(self)@[i as int]));
                assert(width_seq(self@) == width_seq(old(self)@));
                assert forall|k: int| 0 <= k < self@.len() implies (#[trigger] self@[k]).len()
                    == width_seq(self@) && is_module_elem(self@[k]) by {
                    if k != i as int {
                        assert(self@[k] == old(self)@[k]);
                    } else {
                        assert forall|l: int| 0 <= l < new_row.len() implies is_ring_elem(
                            #[trigger] new_row[l],
                        ) by {
                            if l != j as int {
                                assert(new_row[l] == old(self)@[i as int][l]);
                            }
                        }
                    }
                }
            }
        }
    }

    /// A copy of row `i`.
    pub fn row(&self, i: usize) -> (r: PolyVec3329)
        requires
            i < self@.len(),
        ensures
            r@ == self@[i as int],
            self.wf() ==> r.wf() && r@.len() == width_seq(self@),
    {
        assert(self@[i as int] == self.coefficients@[i as int]@);
        self.coefficients[i].clone()
    }

    /// A copy of column `j`.
    pub fn column(&self, j: usize) -> (r: PolyVec3329)
        requires
            self.wf(),
            j < width_seq(self@),
        ensures
            r.wf(),
            r@ == column_seq(self@, j as int),
    {
        let rows: usize = self.coefficients.len();
        let mut c: Vec<Poly3329> = Vec::new();
        let mut i: usize = 0;
        while i < rows
            invariant
                i <= rows,
                rows == self@.len(),
                self.wf(),
                j < width_seq(self@),
                c@.len() == i,
                forall|k: int| 0 <= k < i ==> (#[trigger] c@[k])@ == self@[k][j as int],
            decreases rows - i,
        {
            assert(self@[i as int].len() == width_seq(self@));
            c.push(self.get(i, j));
            i += 1;
        }
        let r = PolyVec3329 { coefficients: c };
        assert(r@ =~= column_seq(self@, j as int));
        assert(r.wf()) by {
            assert forall|k: int| 0 <= k < r@.len() implies is_ring_elem(#[trigger] r@[k]) by {
                assert(self@[k].len() == width_seq(self@));
                assert(is_module_elem(self@[k]));
                assert(is_ring_elem(self@[k][j as int]));
            }
        }
        r
    }

    /// The transpose.
    pub fn transpose(&self) -> (r: Self)
        requires
            self.wf(),
        ensures
            r@ == transpose_seq(self@),
            r.wf(),
    {
        let (cols, rows) = self.dimensions();
        let mut c: Vec<PolyVec3329> = Vec::new();
        let mut j: usize = 0;
        while j < cols
            invariant
                j <= cols,
                cols == width_seq(self@),
                self.wf(),
                c@.len() == j,
                forall|k: int| 0 <= k < j ==> (#[trigger] c@[k])@ == column_seq(self@, k)
                    && is_module_elem(c@[k]@),
            decreases cols - j,
        {
            c.push(self.column(j));
            j += 1;
        }
        let r = PolyMatrix3329 { coefficients: c };
        assert(r@ =~= transpose_seq(self@));
        assert(r.wf()) by {
            if r@.len() > 0 {
                assert forall|k: int| 0 <= k < r@.len() implies (#[trigger] r@[k]).len()
                    == width_seq(r@) && is_module_elem(r@[k]) by {
                    assert(r@[k] == c@[k]@);
                    assert(r@[0] == c@[0]@);
                }
            }
        }
        r
    }
}

} // verus!
