use kybe_rs::{KyberError, F3329};

#[test]
fn from_int_reduces_modulo_q() {
    assert_eq!(F3329::from_int(0).to_int(), 0);
    assert_eq!(F3329::from_int(3328).to_int(), 3328);
    assert_eq!(F3329::from_int(3329).to_int(), 0);
    assert_eq!(F3329::from_int(3330).to_int(), 1);
    assert_eq!(F3329::from_int(2 * 3329 + 17).to_int(), 17);
}

#[test]
fn default_is_zero() {
    let zero: F3329 = Default::default();
    assert_eq!(zero.to_int(), 0);
    assert!(zero.is_zero());
    assert!(!F3329::from_int(1).is_zero());
}

#[test]
fn addition_wraps_at_q() {
    let a = F3329::from_int(3328);
    let b = F3329::from_int(1);
    assert_eq!(a.add(&b).to_int(), 0);
    assert_eq!(a.add(&a).to_int(), 3327);
    assert_eq!(b.add(&b).to_int(), 2);
}

#[test]
fn subtraction_wraps_below_zero() {
    let zero = F3329::from_int(0);
    let one = F3329::from_int(1);
    assert_eq!(zero.sub(&one).to_int(), 3328);
    assert_eq!(one.sub(&one).to_int(), 0);
    assert_eq!(F3329::from_int(5).sub(&F3329::from_int(3)).to_int(), 2);
}

#[test]
fn negation_is_q_minus_x() {
    assert_eq!(F3329::from_int(0).neg().to_int(), 0);
    assert_eq!(F3329::from_int(1).neg().to_int(), 3328);
    assert_eq!(F3329::from_int(3328).neg().to_int(), 1);
}

#[test]
fn multiplication_reduces() {
    let minus_one = F3329::from_int(3328);
    assert_eq!(minus_one.mul(&minus_one).to_int(), 1);
    assert_eq!(F3329::from_int(17).mul(&F3329::from_int(17)).to_int(), 289);
    assert_eq!(F3329::from_int(289).mul(&F3329::from_int(289)).to_int(), 296);
    assert_eq!(F3329::from_int(17).mul(&F3329::from_int(1175)).to_int(), 1);
    assert_eq!(F3329::from_int(0).mul(&minus_one).to_int(), 0);
}

#[test]
fn zero_and_one_are_the_identities() {
    let x = F3329::from_int(1234);
    assert_eq!(x.zero().to_int(), 0);
    assert_eq!(x.one().to_int(), 1);
    assert_eq!(x.add(&x.zero()), x);
    assert_eq!(x.mul(&x.one()), x);
}

#[test]
fn inverse_of_known_values() {
    assert_eq!(F3329::from_int(1).inv().unwrap().to_int(), 1);
    assert_eq!(F3329::from_int(17).inv().unwrap().to_int(), 1175);
    assert_eq!(F3329::from_int(128).inv().unwrap().to_int(), 3303);
    assert_eq!(F3329::from_int(3328).inv().unwrap().to_int(), 3328);
}

#[test]
fn inverse_of_zero_fails() {
    assert_eq!(F3329::from_int(0).inv(), Err(KyberError::DivisionByZero));
}

#[test]
fn every_nonzero_element_has_an_inverse() {
    let mut x: usize = 1;
    while x < 3329 {
        let e = F3329::from_int(x);
        let inverse = e.inv().unwrap();
        assert_eq!(e.mul(&inverse).to_int(), 1);
        assert!(inverse.to_int() < 3329);
        x += 1;
    }
}

#[test]
fn division_multiplies_by_the_inverse() {
    let a = F3329::from_int(100);
    let b = F3329::from_int(17);
    let quotient = a.div(&b).unwrap();
    assert_eq!(quotient.mul(&b), a);
    assert_eq!(quotient.to_int(), (100 * 1175) % 3329);
    assert_eq!(F3329::from_int(1).div(&b).unwrap().to_int(), 1175);
}

#[test]
fn division_by_zero_fails() {
    let a = F3329::from_int(100);
    assert_eq!(a.div(&F3329::from_int(0)), Err(KyberError::DivisionByZero));
}

#[test]
fn equality_is_on_representatives() {
    assert_eq!(F3329::from_int(5), F3329::from_int(5 + 3329));
    assert_ne!(F3329::from_int(5), F3329::from_int(6));
}

#[test]
fn error_messages() {
    assert_eq!(KyberError::InvalidParams.message(), "invalid parameter set");
    assert_eq!(KyberError::MalformedInput.message(), "malformed input");
    assert_eq!(KyberError::DivisionByZero.message(), "division by zero");
    assert_eq!(KyberError::StreamExhausted.message(), "output stream exhausted");
}
