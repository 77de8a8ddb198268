//! The algebraic interfaces that the concrete types of this library offer.
//!
//! Each trait states, besides its operations, when a value is well formed
//! (`valid`) and when two values can be combined (`compatible`); the
//! operations keep values well formed. The impls add what each operation
//! computes.

use vstd::prelude::*;
use crate::field::{F3329, q};
use crate::poly::{
    Poly3329, add_seq, basis_seq, inner_sum, mul_seq, neg_seq, one_seq, scale_seq, sub_seq,
    zero_seq,
};
use crate::polyvec::{
    PolyVec3329, add_vec_seq, basis_vec_seq, dot_seq, is_ring_elem, neg_vec_seq, scale_vec_seq,
    sub_vec_seq, zero_vec_seq,
};

verus! {

/// Finite Group element
pub trait FiniteGroup: Sized + Eq {
    /// The value is well formed.
    spec fn valid(&self) -> bool;

    /// The two values belong to the same group.
    spec fn compatible(&self, other: &Self) -> bool;

    /// Check if the element is the additive identity
    fn is_zero(&self) -> bool
        requires
            self.valid(),
    ;

    /// Returns the additive identity
    fn zero(&self) -> (r: Self)
        requires
            self.valid(),
        ensures
            r.valid(),
            self.compatible(&r),
    ;

    /// Returns the additive inverse of the element
    fn neg(&self) -> (r: Self)
        requires
            self.valid(),
        ensures
            r.valid(),
            self.compatible(&r),
    ;

    /// Defines the addition of two elements
    fn add(&self, other: &Self) -> (r: Self)
        requires
            self.valid(),
            other.valid(),
            self.compatible(other),
        ensures
            r.valid(),
            self.compatible(&r),
    ;

    /// Defines the subtraction of two elements
    fn sub(&self, other: &Self) -> (r: Self)
        requires
            self.valid(),
            other.valid(),
            self.compatible(other),
        ensures
            r.valid(),
            self.compatible(&r),
    ;
}

/// Finite Ring element
pub trait FiniteRing: Sized + Eq {
    /// The value is well formed.
    spec fn valid(&self) -> bool;

    /// Check if the element is the additive identity
    fn is_zero(&self) -> bool
        requires
            self.valid(),
    ;

    /// Returns the additive identity
    fn zero(&self) -> (r: Self)
        requires
            self.valid(),
        ensures
            r.valid(),
    ;

    /// Returns the additive inverse of the element
    fn neg(&self) -> (r: Self)
        requires
            self.valid(),
        ensures
            r.valid(),
    ;

    /// Defines the addition of two elements
    fn add(&self, other: &Self) -> (r: Self)
        requires
            self.valid(),
            other.valid(),
        ensures
            r.valid(),
    ;

    /// Defines the subtraction of two elements
    fn sub(&self, other: &Self) -> (r: Self)
        requires
            self.valid(),
            other.valid(),
        ensures
            r.valid(),
    ;

    /// Returns the multiplicative identity
    fn one(&self) -> (r: Self)
        requires
            self.valid(),
        ensures
            r.valid(),
    ;

    /// Defines the multiplication of two elements
    fn mul(&self, other: &Self) -> (r: Self)
        requires
            self.valid(),
            other.valid(),
        ensures
            r.valid(),
    ;
}

/// Finite field element
pub trait FiniteField: Sized + Eq {
    /// The value is well formed.
    spec fn valid(&self) -> bool;

    /// The value is the additive identity.
    spec fn is_zero_spec(&self) -> bool;

    /// The product of the two values is the multiplicative identity.
    spec fn inverts(&self, other: &Self) -> bool;

    /// The value times `denominator` is `numerator`.
    spec fn is_quotient(&self, numerator: &Self, denominator: &Self) -> bool;

    /// Check if the element is the additive identity
    fn is_zero(&self) -> (r: bool)
        requires
            self.valid(),
        ensures
            r == self.is_zero_spec(),
    ;

    /// Returns the additive identity
    fn zero(&self) -> (r: Self)
        requires
            self.valid(),
        ensures
            r.valid(),
            r.is_zero_spec(),
    ;

    /// Returns the additive inverse of the element
    fn neg(&self) -> (r: Self)
        requires
            self.valid(),
        ensures
            r.valid(),
    ;

    /// Defines the addition of two elements
    fn add(&self, other: &Self) -> (r: Self)
        requires
            self.valid(),
            other.valid(),
        ensures
            r.valid(),
    ;

    /// Defines the subtraction of two elements
    fn sub(&self, other: &Self) -> (r: Self)
        requires
            self.valid(),
            other.valid(),
        ensures
            r.valid(),
    ;

    /// Returns the multiplicative identity
    fn one(&self) -> (r: Self)
        requires
            self.valid(),
        ensures
            r.valid(),
    ;

    /// Defines the multiplication of two elements
    fn mul(&self, other: &Self) -> (r: Self)
        requires
            self.valid(),
            other.valid(),
        ensures
            r.valid(),
    ;

    /// Returns the dimension of the finite field
    fn dimension(&self) -> usize;

    /// Returns the multiplicative inverse of the element
    fn inv<'a>(&self) -> (r: Result<Self, &'a str>)
        requires
            self.valid(),
        ensures
            r is Err <==> self.is_zero_spec(),
            r is Ok ==> r->Ok_0.valid() && r->Ok_0.inverts(self),
    ;

    /// Defines the division of two elements
    fn div<'a>(&self, other: &Self) -> (r: Result<Self, &'a str>)
        requires
            self.valid(),
            other.valid(),
        ensures
            r is Err <==> other.is_zero_spec(),
            r is Ok ==> r->Ok_0.valid() && r->Ok_0.is_quotient(self, other),
    ;
}

/// The `Vector` trait describes the general properties of an element in a vector space.
pub trait VectorSpace<T: FiniteField> {
    /// The value is well formed.
    spec fn valid(&self) -> bool;

    /// The number of coordinates.
    spec fn dimension_spec(&self) -> nat;

    /// Check if the element is the additive identity
    fn is_zero(&self) -> bool
        requires
            self.valid(),
    ;

    /// Returns the additive identity
    fn zero(&self) -> (r: Self) where Self: Sized
        requires
            self.valid(),
        ensures
            r.valid(),
            r.dimension_spec() == self.dimension_spec(),
    ;

    /// Returns the additive inverse of the element
    fn neg(&self) -> (r: Self) where Self: Sized
        requires
            self.valid(),
        ensures
            r.valid(),
            r.dimension_spec() == self.dimension_spec(),
    ;

    /// Defines the addition of two elements
    fn add(&self, other: &Self) -> (r: Self) where Self: Sized
        requires
            self.valid(),
            other.valid(),
            self.dimension_spec() == other.dimension_spec(),
        ensures
            r.valid(),
            r.dimension_spec() == self.dimension_spec(),
    ;

    /// Defines the subtraction of two elements
    fn sub(&self, other: &Self) -> (r: Self) where Self: Sized
        requires
            self.valid(),
            other.valid(),
            self.dimension_spec() == other.dimension_spec(),
        ensures
            r.valid(),
            r.dimension_spec() == self.dimension_spec(),
    ;

    /// Returns the vector's dimension
    fn dimension(&self) -> (r: usize)
        ensures
            r == self.dimension_spec(),
    ;

    /// Initialise vector type
    fn init(dimension: usize) -> (r: Self) where Self: Sized
        ensures
            r.valid(),
            r.dimension_spec() == dimension,
    ;

    /// Scalar multiplication
    fn mulf(&self, other: &T) -> (r: Self) where Self: Sized
        requires
            self.valid(),
            other.valid(),
        ensures
            r.valid(),
            r.dimension_spec() == self.dimension_spec(),
    ;

    /// Basis vector
    fn basis_vector(&self, position: usize) -> (r: Self) where Self: Sized
        requires
            position < self.dimension_spec(),
        ensures
            r.valid(),
            r.dimension_spec() == self.dimension_spec(),
    ;

    /// Set coefficient
    fn set(&mut self, position: usize, value: T)
        requires
            old(self).valid(),
            value.valid(),
            position < old(self).dimension_spec(),
        ensures
            final(self).valid(),
            final(self).dimension_spec() == old(self).dimension_spec(),
    ;

    /// Get coefficient
    fn get(&self, position: usize) -> (r: T)
        requires
            self.valid(),
            position < self.dimension_spec(),
        ensures
            r.valid(),
    ;

    /// Dot product
    fn dot(&self, other: &Self) -> (r: T)
        requires
            self.valid(),
            other.valid(),
            self.dimension_spec() == other.dimension_spec(),
        ensures
            r.valid(),
    ;
}

/// The `Vector` trait describes the general properties of an element in a module.
pub trait RingModule<T: FiniteRing> {
    /// The value is well formed.
    spec fn valid(&self) -> bool;

    /// The number of coordinates.
    spec fn dimension_spec(&self) -> nat;

    /// Check if the element is the additive identity
    fn is_zero(&self) -> bool
        requires
            self.valid(),
    ;

    /// Returns the additive identity
    fn zero(&self) -> (r: Self) where Self: Sized
        requires
            self.valid(),
        ensures
            r.valid(),
            r.dimension_spec() == self.dimension_spec(),
    ;

    /// Returns the additive inverse of the element
    fn neg(&self) -> (r: Self) where Self: Sized
        requires
            self.valid(),
        ensures
            r.valid(),
            r.dimension_spec() == self.dimension_spec(),
    ;

    /// Defines the addition of two elements
    fn add(&self, other: &Self) -> (r: Self) where Self: Sized
        requires
            self.valid(),
            other.valid(),
            self.dimension_spec() == other.dimension_spec(),
        ensures
            r.valid(),
            r.dimension_spec() == self.dimension_spec(),
    ;

    /// Defines the subtraction of two elements
    fn sub(&self, other: &Self) -> (r: Self) where Self: Sized
        requires
            self.valid(),
            other.valid(),
            self.dimension_spec() == other.dimension_spec(),
        ensures
            r.valid(),
            r.dimension_spec() == self.dimension_spec(),
    ;

    /// Returns the vector's dimension
    fn dimension(&self) -> (r: usize)
        ensures
            r == self.dimension_spec(),
    ;

    /// Initialise vector type
    fn init(dimension: usize) -> (r: Self) where Self: Sized
        ensures
            r.valid(),
            r.dimension_spec() == dimension,
    ;

    /// Scalar multiplication
    fn mulf(&self, other: &T) -> (r: Self) where Self: Sized
        requires
            self.valid(),
            other.valid(),
        ensures
            r.valid(),
            r.dimension_spec() == self.dimension_spec(),
    ;

    /// Basis vector
    fn basis_vector(&self, position: usize) -> (r: Self) where Self: Sized
        requires
            position < self.dimension_spec(),
        ensures
            r.valid(),
            r.dimension_spec() == self.dimension_spec(),
    ;

    /// Set coefficient
    fn set(&mut self, position: usize, value: T)
        requires
            old(self).valid(),
            value.valid(),
            position < old(self).dimension_spec(),
        ensures
            final(self).valid(),
            final(self).dimension_spec() == old(self).dimension_spec(),
    ;

    /// Get coefficient
    fn get(&self, position: usize) -> (r: T)
        requires
            self.valid(),
            position < self.dimension_spec(),
        ensures
            r.valid(),
    ;

    /// Dot product
    fn dot(&self, other: &Self) -> (r: T)
        requires
            self.valid(),
            other.valid(),
            self.dimension_spec() == other.dimension_spec(),
        ensures
            r.valid(),
    ;
}

impl FiniteGroup for F3329 {
    open spec fn valid(&self) -> bool {
        self.wf()
    }

    open spec fn compatible(&self, other: &Self) -> bool {
        true
    }

    fn is_zero(&self) -> (r: bool)
        ensures
            r == (self@ == 0),
    {
        F3329::is_zero(self)
    }

    fn zero(&self) -> (r: Self)
        ensures
            r@ == 0,
    {
        F3329::zero(self)
    }

    fn neg(&self) -> (r: Self)
        ensures
            r@ == (-self@) % q(),
    {
        F3329::neg(self)
    }

    fn add(&self, other: &Self) -> (r: Self)
        ensures
            r@ == (self@ + other@) % q(),
    {
        F3329::add(self, other)
    }

    fn sub(&self, other: &Self) -> (r: Self)
        ensures
            r@ == (self@ - other@) % q(),
    {
        F3329::sub(self, other)
    }
}

impl FiniteRing for F3329 {
    open spec fn valid(&self) -> bool {
        self.wf()
    }

    fn is_zero(&self) -> (r: bool)
        ensures
            r == (self@ == 0),
    {
        F3329::is_zero(self)
    }

    fn zero(&self) -> (r: Self)
        ensures
            r@ == 0,
    {
        F3329::zero(self)
    }

    fn neg(&self) -> (r: Self)
        ensures
            r@ == (-self@) % q(),
    {
        F3329::neg(self)
    }

    fn add(&self, other: &Self) -> (r: Self)
        ensures
            r@ == (self@ + other@) % q(),
    {
        F3329::add(self, other)
    }

    fn sub(&self, other: &Self) -> (r: Self)
        ensures
            r@ == (self@ - other@) % q(),
    {
        F3329::sub(self, other)
    }

    fn one(&self) -> (r: Self)
        ensures
            r@ == 1,
    {
        F3329::one(self)
    }

    fn mul(&self, other: &Self) -> (r: Self)
        ensures
            r@ == (self@ * other@) % q(),
    {
        F3329::mul(self, other)
    }
}

impl FiniteField for F3329 {
    open spec fn valid(&self) -> bool {
        self.wf()
    }

    open spec fn is_zero_spec(&self) -> bool {
        self@ == 0
    }

    open spec fn inverts(&self, other: &Self) -> bool {
        (other@ * self@) % q() == 1
    }

    open spec fn is_quotient(&self, numerator: &Self, denominator: &Self) -> bool {
        (self@ * denominator@) % q() == numerator@
    }

    fn is_zero(&self) -> (r: bool) {
        F3329::is_zero(self)
    }

    fn zero(&self) -> (r: Self) {
        F3329::zero(self)
    }

    fn neg(&self) -> (r: Self)
        ensures
            r@ == (-self@) % q(),
    {
        F3329::neg(self)
    }

    fn add(&self, other: &Self) -> (r: Self)
        ensures
            r@ == (self@ + other@) % q(),
    {
        F3329::add(self, other)
    }

    fn sub(&self, other: &Self) -> (r: Self)
        ensures
            r@ == (self@ - other@) % q(),
    {
        F3329::sub(self, other)
    }

    fn one(&self) -> (r: Self)
        ensures
            r@ == 1,
    {
        F3329::one(self)
    }

    fn mul(&self, other: &Self) -> (r: Self)
        ensures
            r@ == (self@ * other@) % q(),
    {
        F3329::mul(self, other)
    }

    /// The degree of the field over its prime field: 1.
    fn dimension(&self) -> (r: usize)
        ensures
            r == 1,
    {
        1
    }

    fn inv<'a>(&self) -> (r: Result<Self, &'a str>) {
        match F3329::inv(self) {
            Ok(inverse) => Ok(inverse),
            Err(e) => Err(e.message()),
        }
    }

    fn div<'a>(&self, other: &Self) -> (r: Result<Self, &'a str>) {
        match F3329::div(self, other) {
            Ok(quotient) => Ok(quotient),
            Err(e) => Err(e.message()),
        }
    }
}

impl FiniteGroup for Poly3329 {
    open spec fn valid(&self) -> bool {
        self.wf()
    }

    open spec fn compatible(&self, other: &Self) -> bool {
        self@.len() == other@.len()
    }

    fn is_zero(&self) -> (r: bool)
        ensures
            r == (self@ == zero_seq(self@.len())),
    {
        Poly3329::is_zero(self)
    }

    fn zero(&self) -> (r: Self)
        ensures
            r@ == zero_seq(self@.len()),
    {
        Poly3329::zero(self)
    }

    fn neg(&self) -> (r: Self)
        ensures
            r@ == neg_seq(self@),
    {
        Poly3329::neg(self)
    }

    fn add(&self, other: &Self) -> (r: Self)
        ensures
            r@ == add_seq(self@, other@),
    {
        Poly3329::add(self, other)
    }

    fn sub(&self, other: &Self) -> (r: Self)
        ensures
            r@ == sub_seq(self@, other@),
    {
        Poly3329::sub(self, other)
    }
}

impl FiniteRing for Poly3329 {
    open spec fn valid(&self) -> bool {
        is_ring_elem(self@)
    }

    fn is_zero(&self) -> (r: bool)
        ensures
            r == (self@ == zero_seq(256)),
    {
        Poly3329::is_zero(self)
    }

    fn zero(&self) -> (r: Self)
        ensures
            r@ == zero_seq(256),
    {
        Poly3329::zero(self)
    }

    fn neg(&self) -> (r: Self)
        ensures
            r@ == neg_seq(self@),
    {
        Poly3329::neg(self)
    }

    fn add(&self, other: &Self) -> (r: Self)
        ensures
            r@ == add_seq(self@, other@),
    {
        Poly3329::add(self, other)
    }

    fn sub(&self, other: &Self) -> (r: Self)
        ensures
            r@ == sub_seq(self@, other@),
    {
        Poly3329::sub(self, other)
    }

    fn one(&self) -> (r: Self)
        ensures
            r@ == one_seq(256),
    {
        Poly3329::one(self)
    }

    fn mul(&self, other: &Self) -> (r: Self)
        ensures
            r@ == mul_seq(self@, other@),
    {
        Poly3329::mul(self, other)
    }
}

impl VectorSpace<F3329> for Poly3329 {
    open spec fn valid(&self) -> bool {
        self.wf()
    }

    open spec fn dimension_spec(&self) -> nat {
        self@.len()
    }

    fn is_zero(&self) -> (r: bool)
        ensures
            r == (self@ == zero_seq(self@.len())),
    {
        Poly3329::is_zero(self)
    }

    fn zero(&self) -> (r: Self)
        ensures
            r@ == zero_seq(self@.len()),
    {
        Poly3329::zero(self)
    }

    fn neg(&self) -> (r: Self)
        ensures
            r@ == neg_seq(self@),
    {
        Poly3329::neg(self)
    }

    fn add(&self, other: &Self) -> (r: Self)
        ensures
            r@ == add_seq(self@, other@),
    {
        Poly3329::add(self, other)
    }

    fn sub(&self, other: &Self) -> (r: Self)
        ensures
            r@ == sub_seq(self@, other@),
    {
        Poly3329::sub(self, other)
    }

    fn dimension(&self) -> (r: usize) {
        Poly3329::dimension(self)
    }

    fn init(dimension: usize) -> (r: Self)
        ensures
            r@ == zero_seq(dimension as nat),
    {
        Poly3329::init(dimension)
    }

    fn mulf(&self, other: &F3329) -> (r: Self)
        ensures
            r@ == scale_seq(self@, other@),
    {
        Poly3329::mulf(self, other)
    }

    fn basis_vector(&self, position: usize) -> (r: Self)
        ensures
            r@ == basis_seq(self@.len(), position as int),
    {
        Poly3329::basis_vector(self, position)
    }

    fn set(&mut self, position: usize, value: F3329)
        ensures
            final(self)@ == old(self)@.update(position as int, value@),
    {
        Poly3329::set(self, position, value)
    }

    fn get(&self, position: usize) -> (r: F3329)
        ensures
            r@ == self@[position as int],
    {
        Poly3329::get(self, position)
    }

    fn dot(&self, other: &Self) -> (r: F3329)
        ensures
            r@ == inner_sum(self@, other@, self@.len()) % q(),
    {
        Poly3329::dot(self, other)
    }
}

impl RingModule<Poly3329> for PolyVec3329 {
    open spec fn valid(&self) -> bool {
        self.wf()
    }

    open spec fn dimension_spec(&self) -> nat {
        self@.len()
    }

    fn is_zero(&self) -> (r: bool)
        ensures
            r == (forall|i: int| 0 <= i < self@.len() ==> #[trigger] self@[i] == zero_seq(256)),
    {
        PolyVec3329::is_zero(self)
    }

    fn zero(&self) -> (r: Self)
        ensures
            r@ == zero_vec_seq(self@.len()),
    {
        PolyVec3329::zero(self)
    }

    fn neg(&self) -> (r: Self)
        ensures
            r@ == neg_vec_seq(self@),
    {
        PolyVec3329::neg(self)
    }

    fn add(&self, other: &Self) -> (r: Self)
        ensures
            r@ == add_vec_seq(self@, other@),
    {
        PolyVec3329::add(self, other)
    }

    fn sub(&self, other: &Self) -> (r: Self)
        ensures
            r@ == sub_vec_seq(self@, other@),
    {
        PolyVec3329::sub(self, other)
    }

    fn dimension(&self) -> (r: usize) {
        PolyVec3329::dimension(self)
    }

    fn init(dimension: usize) -> (r: Self)
        ensures
            r@ == zero_vec_seq(dimension as nat),
    {
        PolyVec3329::init(dimension)
    }

    fn mulf(&self, other: &Poly3329) -> (r: Self)
        ensures
            r@ == scale_vec_seq(self@, other@),
    {
        PolyVec3329::mulf(self, other)
    }

    fn basis_vector(&self, position: usize) -> (r: Self)
        ensures
            r@ == basis_vec_seq(self@.len(), position as int),
    {
        PolyVec3329::basis_vector(self, position)
    }

    fn set(&mut self, position: usize, value: Poly3329)
        ensures
            final(self)@ == old(self)@.update(position as int, value@),
    {
        PolyVec3329::set(self, position, value)
    }

    fn get(&self, position: usize) -> (r: Poly3329)
        ensures
            r@ == self@[position as int],
    {
        PolyVec3329::get(self, position)
    }

    fn dot(&self, other: &Self) -> (r: Poly3329)
        ensures
            r@ == dot_seq(self@, other@, self@.len()),
    {
        PolyVec3329::dot(self, other)
    }
}

} // verus!
