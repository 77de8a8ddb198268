use kybe_rs::{
    FiniteField, FiniteGroup, FiniteRing, Poly3329, PolyVec3329, RingModule, VectorSpace, F3329,
};

fn twice<T: FiniteGroup>(x: &T) -> T {
    FiniteGroup::add(x, x)
}

fn square_plus_one<T: FiniteRing>(x: &T) -> T {
    FiniteRing::add(&FiniteRing::mul(x, x), &FiniteRing::one(x))
}

fn reciprocal_sum<T: FiniteField>(x: &T, y: &T) -> Result<T, String> {
    let a = FiniteField::inv(x).map_err(|e| e.to_string())?;
    let b = FiniteField::inv(y).map_err(|e| e.to_string())?;
    Ok(FiniteField::add(&a, &b))
}

fn first_plus_last<T: FiniteField, V: VectorSpace<T>>(v: &V) -> T {
    let n: usize = v.dimension();
    FiniteField::add(&v.get(0), &v.get(n - 1))
}

fn sum_of_components<T: FiniteRing, V: RingModule<T>>(v: &V) -> T {
    let n: usize = v.dimension();
    let mut acc = FiniteRing::zero(&v.get(0));
    let mut i: usize = 0;
    while i < n {
        acc = FiniteRing::add(&acc, &v.get(i));
        i += 1;
    }
    acc
}

fn poly(values: &[usize]) -> Poly3329 {
    let mut coeffs: Vec<F3329> = Vec::new();
    let mut i: usize = 0;
    while i < values.len() {
        coeffs.push(F3329::from_int(values[i]));
        i += 1;
    }
    Poly3329::from_vec(coeffs, 256)
}

#[test]
fn field_elements_form_a_group() {
    assert_eq!(twice(&F3329::from_int(2000)).to_int(), 671);
    assert!(FiniteGroup::is_zero(&FiniteGroup::zero(&F3329::from_int(5))));
    assert_eq!(FiniteGroup::neg(&F3329::from_int(5)).to_int(), 3324);
    assert_eq!(FiniteGroup::sub(&F3329::from_int(5), &F3329::from_int(6)).to_int(), 3328);
}

#[test]
fn polynomials_form_a_group() {
    assert_eq!(twice(&poly(&[1, 2000])), poly(&[2, 671]));
    assert!(FiniteGroup::is_zero(&FiniteGroup::zero(&poly(&[1]))));
    assert_eq!(FiniteGroup::sub(&poly(&[1]), &poly(&[1])), Poly3329::init(256));
    assert_eq!(FiniteGroup::neg(&poly(&[1])), poly(&[3328]));
}

#[test]
fn field_elements_and_polynomials_form_rings() {
    assert_eq!(square_plus_one(&F3329::from_int(17)).to_int(), 290);
    // (1 + X)^2 + 1 = 2 + 2X + X^2
    assert_eq!(square_plus_one(&poly(&[1, 1])), poly(&[2, 2, 1]));
    assert!(FiniteRing::is_zero(&FiniteRing::zero(&poly(&[1]))));
    assert_eq!(FiniteRing::neg(&F3329::from_int(1)).to_int(), 3328);
    assert_eq!(FiniteRing::sub(&poly(&[3]), &poly(&[1])), poly(&[2]));
}

#[test]
fn field_inverse_and_division() {
    let x = F3329::from_int(17);
    assert_eq!(FiniteField::inv(&x).unwrap().to_int(), 1175);
    assert_eq!(FiniteField::div(&x, &x).unwrap().to_int(), 1);
    assert_eq!(FiniteField::inv(&F3329::from_int(0)), Err("division by zero"));
    assert_eq!(FiniteField::div(&x, &F3329::from_int(0)), Err("division by zero"));
    assert_eq!(
        reciprocal_sum(&F3329::from_int(1), &F3329::from_int(128)).unwrap().to_int(),
        3304
    );
    assert_eq!(
        reciprocal_sum(&F3329::from_int(1), &F3329::from_int(0)),
        Err("division by zero".to_string())
    );
    assert_eq!(FiniteField::dimension(&x), 1);
    assert!(FiniteField::is_zero(&FiniteField::zero(&x)));
    assert_eq!(FiniteField::one(&x).to_int(), 1);
    assert_eq!(FiniteField::mul(&x, &x).to_int(), 289);
    assert_eq!(FiniteField::sub(&x, &x).to_int(), 0);
    assert_eq!(FiniteField::neg(&x).to_int(), 3312);
}

#[test]
fn polynomials_form_a_vector_space() {
    let p = poly(&[5, 0, 0, 7]);
    let mut v: Poly3329 = VectorSpace::init(4);
    assert_eq!(VectorSpace::dimension(&v), 4);
    assert!(VectorSpace::is_zero(&v));
    VectorSpace::set(&mut v, 0, F3329::from_int(5));
    VectorSpace::set(&mut v, 3, F3329::from_int(7));
    assert_eq!(first_plus_last(&v).to_int(), 12);
    assert_eq!(VectorSpace::dot(&v, &v).to_int(), 74);
    assert_eq!(VectorSpace::mulf(&v, &F3329::from_int(2)).get(3).to_int(), 14);
    assert_eq!(VectorSpace::basis_vector(&v, 2).get(2).to_int(), 1);
    assert_eq!(VectorSpace::add(&v, &v).get(0).to_int(), 10);
    assert_eq!(VectorSpace::sub(&v, &v), VectorSpace::zero(&v));
    assert_eq!(VectorSpace::neg(&v).get(0).to_int(), 3324);
    assert_eq!(VectorSpace::get(&p, 3).to_int(), 7);
}

#[test]
fn polynomial_vectors_form_a_module() {
    let mut v: PolyVec3329 = RingModule::init(2);
    assert_eq!(RingModule::dimension(&v), 2);
    assert!(RingModule::is_zero(&v));
    RingModule::set(&mut v, 0, poly(&[1, 2]));
    RingModule::set(&mut v, 1, poly(&[3]));
    assert_eq!(sum_of_components(&v), poly(&[4, 2]));
    assert_eq!(RingModule::dot(&v, &v), poly(&[10, 4, 4]));
    assert_eq!(RingModule::mulf(&v, &poly(&[0, 1])).get(1), poly(&[0, 3]));
    assert_eq!(RingModule::basis_vector(&v, 1).get(1), poly(&[1]));
    assert_eq!(RingModule::add(&v, &v).get(1), poly(&[6]));
    assert_eq!(RingModule::sub(&v, &v), RingModule::zero(&v));
    assert_eq!(RingModule::neg(&v).get(1), poly(&[3326]));
    assert_eq!(RingModule::get(&v, 0), poly(&[1, 2]));
}
