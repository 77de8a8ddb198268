use kybe_rs::{Poly3329, PolyMatrix3329, PolyVec3329, F3329};

fn poly(values: &[usize]) -> Poly3329 {
    let mut coeffs: Vec<F3329> = Vec::new();
    let mut i: usize = 0;
    while i < values.len() {
        coeffs.push(F3329::from_int(values[i]));
        i += 1;
    }
    Poly3329::from_vec(coeffs, 256)
}

fn ints(p: &Poly3329) -> Vec<usize> {
    let mut out: Vec<usize> = Vec::new();
    let mut i: usize = 0;
    while i < p.dimension() {
        out.push(p.get(i).to_int());
        i += 1;
    }
    out
}

#[test]
fn from_vec_pads_with_zeros() {
    let p = poly(&[1, 2, 3]);
    assert_eq!(p.dimension(), 256);
    assert_eq!(&ints(&p)[..4], &[1, 2, 3, 0]);
    assert_eq!(p.get(255).to_int(), 0);
}

#[test]
fn from_vec_drops_what_does_not_fit() {
    let p = Poly3329::from_vec(vec![F3329::from_int(7); 5], 3);
    assert_eq!(ints(&p), vec![7, 7, 7]);
    let empty = Poly3329::from_vec(vec![F3329::from_int(7); 5], 0);
    assert_eq!(empty.dimension(), 0);
}

#[test]
fn init_is_zero() {
    let p = Poly3329::init(256);
    assert_eq!(p.dimension(), 256);
    assert!(p.is_zero());
    assert_eq!(p.degree(), None);
    assert_eq!(p, p.zero());
}

#[test]
fn degree_is_the_highest_nonzero_index() {
    assert_eq!(poly(&[5]).degree(), Some(0));
    assert_eq!(poly(&[0, 0, 9]).degree(), Some(2));
    assert_eq!(poly(&[1, 0, 9, 0, 0]).degree(), Some(2));
    let mut p = Poly3329::init(256);
    p.set(255, F3329::from_int(1));
    assert_eq!(p.degree(), Some(255));
    assert!(!p.is_zero());
}

#[test]
fn set_then_get() {
    let mut p = Poly3329::init(256);
    p.set(17, F3329::from_int(42));
    assert_eq!(p.get(17).to_int(), 42);
    assert_eq!(p.get(16).to_int(), 0);
    assert_eq!(p.get(18).to_int(), 0);
}

#[test]
fn addition_and_subtraction_are_coefficient_wise() {
    let a = poly(&[1, 3328, 100]);
    let b = poly(&[2, 1, 200]);
    assert_eq!(&ints(&a.add(&b))[..4], &[3, 0, 300, 0]);
    assert_eq!(&ints(&a.sub(&b))[..4], &[3328, 3327, 3229, 0]);
    assert_eq!(&ints(&a.neg())[..4], &[3328, 1, 3229, 0]);
    assert_eq!(a.add(&a.neg()), a.zero());
}

#[test]
fn scalar_multiplication() {
    let a = poly(&[1, 2, 3328]);
    let s = F3329::from_int(3);
    assert_eq!(&ints(&a.mulf(&s))[..4], &[3, 6, 3326, 0]);
    assert_eq!(a.mulf(&F3329::from_int(0)), a.zero());
}

#[test]
fn one_is_neutral_for_the_product() {
    let a = poly(&[4, 5, 6, 7]);
    assert_eq!(a.mul(&a.one()), a);
    assert_eq!(a.one().mul(&a), a);
    assert_eq!(&ints(&a.one())[..3], &[1, 0, 0]);
}

#[test]
fn product_of_small_polynomials() {
    // (1 + 2X)(3 + X) = 3 + 7X + 2X^2
    let a = poly(&[1, 2]);
    let b = poly(&[3, 1]);
    assert_eq!(&ints(&a.mul(&b))[..4], &[3, 7, 2, 0]);
}

#[test]
fn x_to_the_256_is_minus_one() {
    let zero = Poly3329::init(256);
    let x = zero.basis_vector(1);
    let top = zero.basis_vector(255);
    let product = x.mul(&top);
    assert_eq!(product.get(0).to_int(), 3328);
    assert_eq!(product.degree(), Some(0));
    // X^200 * X^100 = -X^44
    let product = zero.basis_vector(200).mul(&zero.basis_vector(100));
    assert_eq!(product.get(44).to_int(), 3328);
    assert_eq!(product.degree(), Some(44));
}

#[test]
fn inner_product_of_coefficients() {
    let a = poly(&[1, 2, 3]);
    let b = poly(&[4, 5, 6]);
    assert_eq!(a.dot(&b).to_int(), 32);
    assert_eq!(poly(&[3328]).dot(&poly(&[3328])).to_int(), 1);
}

#[test]
fn vector_init_and_access() {
    let mut v = PolyVec3329::init(3);
    assert_eq!(v.dimension(), 3);
    assert!(v.is_zero());
    v.set(1, poly(&[9]));
    assert!(!v.is_zero());
    assert_eq!(v.get(1), poly(&[9]));
    assert_eq!(v.get(0), Poly3329::init(256));
    assert_eq!(v.zero(), PolyVec3329::init(3));
}

#[test]
fn vector_arithmetic() {
    let a = PolyVec3329::from_vec(vec![poly(&[1, 2]), poly(&[3])]);
    let b = PolyVec3329::from_vec(vec![poly(&[10]), poly(&[0, 20])]);
    let sum = a.add(&b);
    assert_eq!(sum.get(0), poly(&[11, 2]));
    assert_eq!(sum.get(1), poly(&[3, 20]));
    let difference = sum.sub(&b);
    assert_eq!(difference, a);
    assert_eq!(a.add(&a.neg()), a.zero());
    let scaled = a.mulf(&poly(&[0, 1]));
    assert_eq!(scaled.get(0), poly(&[0, 1, 2]));
    assert_eq!(scaled.get(1), poly(&[0, 3]));
}

#[test]
fn vector_dot_product() {
    // (1 + 2X) * 10 + 3 * 20X = 10 + 80X
    let a = PolyVec3329::from_vec(vec![poly(&[1, 2]), poly(&[3])]);
    let b = PolyVec3329::from_vec(vec![poly(&[10]), poly(&[0, 20])]);
    assert_eq!(a.dot(&b), poly(&[10, 80]));
    assert_eq!(PolyVec3329::init(0).dot(&PolyVec3329::init(0)), Poly3329::init(256));
}

#[test]
fn vector_basis() {
    let v = PolyVec3329::init(3).basis_vector(2);
    assert_eq!(v.get(0), Poly3329::init(256));
    assert_eq!(v.get(2), poly(&[1]));
}

#[test]
fn matrix_rows_columns_and_transpose() {
    let mut m = PolyMatrix3329::init(2, 3);
    assert_eq!(m.dimensions(), (2, 3));
    let mut i: usize = 0;
    while i < 3 {
        let mut j: usize = 0;
        while j < 2 {
            m.set(i, j, poly(&[10 * i + j]));
            j += 1;
        }
        i += 1;
    }
    assert_eq!(m.get(2, 1), poly(&[21]));
    assert_eq!(m.row(1), PolyVec3329::from_vec(vec![poly(&[10]), poly(&[11])]));
    assert_eq!(m.column(1), PolyVec3329::from_vec(vec![poly(&[1]), poly(&[11]), poly(&[21])]));
    let t = m.transpose();
    assert_eq!(t.dimensions(), (3, 2));
    assert_eq!(t.get(1, 2), poly(&[21]));
    assert_eq!(t.row(0), m.column(0));
    assert_eq!(t.transpose(), m);
}

#[test]
fn empty_matrix() {
    let m = PolyMatrix3329::init(4, 0);
    assert_eq!(m.dimensions(), (0, 0));
}

#[test]
fn zeroize_overwrites_every_coefficient() {
    let mut p = poly(&[1, 2, 3]);
    p.zeroize();
    assert_eq!(p, Poly3329::init(256));
    assert_eq!(p.dimension(), 256);
}
