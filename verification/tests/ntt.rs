use kybe_rs::ntt::zetas;
use kybe_rs::{
    base_ntt, bcm, bcm_matrix_vec, bcm_vec, byte_rev, ntt_product, ntt_product_matvec,
    ntt_product_vec, ntt_vec, rev_ntt, rev_ntt_vec, PolyMatrix3329, PolyVec3329, F3329, Poly3329,
};

#[test]
fn rev_then_ntt() {
    let mut u_bold = Poly3329::from_vec(vec![Default::default(); 256], 256);
    let mut i: usize = 0;
    while i < 256 {
        u_bold.set(i, F3329::from_int(i));
        i += 1;
    }
    let u = rev_ntt(&u_bold);

    assert_eq!(u_bold.coefficients, base_ntt(&u).coefficients)
}

#[test]
fn ntt_then_rev() {
    let mut u = Poly3329::from_vec(vec![Default::default(); 256], 256);
    let mut i: usize = 0;
    while i < 256 {
        u.set(i, F3329::from_int(i));
        i += 1;
    }
    let u_bold = base_ntt(&u);

    assert_eq!(u.coefficients, rev_ntt(&u_bold).coefficients)
}

#[test]
fn ntt_of_zero_is_zero() {
    let zero = Poly3329::init(256);
    assert_eq!(base_ntt(&zero).coefficients, zero.coefficients);
}

#[test]
fn ntt_of_one_is_pairs_of_one_and_zero() {
    let one = Poly3329::init(256).one();
    let hat = base_ntt(&one);
    let mut i: usize = 0;
    while i < 128 {
        assert_eq!(hat.get(2 * i).to_int(), 1);
        assert_eq!(hat.get(2 * i + 1).to_int(), 0);
        i += 1;
    }
}

fn small(values: &[usize]) -> Poly3329 {
    let mut coeffs: Vec<F3329> = Vec::new();
    let mut i: usize = 0;
    while i < values.len() {
        coeffs.push(F3329::from_int(values[i]));
        i += 1;
    }
    Poly3329::from_vec(coeffs, 256)
}

fn scrambled(seed: usize) -> Poly3329 {
    let mut coeffs: Vec<F3329> = Vec::new();
    let mut state: usize = seed;
    let mut i: usize = 0;
    while i < 256 {
        state = (state * 1103 + 12345) % 65521;
        coeffs.push(F3329::from_int(state));
        i += 1;
    }
    Poly3329::from_vec(coeffs, 256)
}

#[test]
fn ntt_of_x_is_pairs_of_zero_and_one() {
    let x = small(&[0, 1]);
    let hat = base_ntt(&x);
    let mut i: usize = 0;
    while i < 128 {
        assert_eq!(hat.get(2 * i).to_int(), 0);
        assert_eq!(hat.get(2 * i + 1).to_int(), 1);
        i += 1;
    }
}

#[test]
fn ntt_of_x_squared_is_the_roots() {
    // X^2 = zeta^(2 br(i) + 1) modulo the factor of pair i
    let hat = base_ntt(&small(&[0, 0, 1]));
    let powers = zetas();
    let mut i: usize = 0;
    while i < 128 {
        assert_eq!(hat.get(2 * i), powers[2 * byte_rev(i) + 1]);
        assert_eq!(hat.get(2 * i + 1).to_int(), 0);
        i += 1;
    }
    assert_eq!(hat.get(0).to_int(), 17);
    assert_eq!(hat.get(2).to_int(), 3312);
}

#[test]
fn round_trip_on_scrambled_polynomials() {
    let mut seed: usize = 1;
    while seed <= 5 {
        let p = scrambled(seed);
        assert_eq!(rev_ntt(&base_ntt(&p)), p);
        assert_eq!(base_ntt(&rev_ntt(&p)), p);
        seed += 1;
    }
}

#[test]
fn seven_bit_reversal() {
    assert_eq!(byte_rev(0), 0);
    assert_eq!(byte_rev(1), 64);
    assert_eq!(byte_rev(2), 32);
    assert_eq!(byte_rev(3), 96);
    assert_eq!(byte_rev(64), 1);
    assert_eq!(byte_rev(127), 127);
    assert_eq!(byte_rev(0b1010011), 0b1100101);
    let mut i: usize = 0;
    while i < 128 {
        assert_eq!(byte_rev(byte_rev(i)), i);
        i += 1;
    }
}

#[test]
fn powers_of_the_root_of_unity() {
    let powers = zetas();
    assert_eq!(powers.len(), 256);
    assert_eq!(powers[0].to_int(), 1);
    assert_eq!(powers[1].to_int(), 17);
    assert_eq!(powers[2].to_int(), 289);
    assert_eq!(powers[3].to_int(), 1584);
    assert_eq!(powers[64].to_int(), 1729);
    assert_eq!(powers[128].to_int(), 3328);
    assert_eq!(powers[255].to_int(), 1175);
    assert_eq!(powers[255].mul(&powers[1]).to_int(), 1);
}

#[test]
fn basecase_multiplication_of_one_pair() {
    // (1 + 2X)(3 + 4X) = 3 + 8 zeta + 10X modulo X^2 - zeta, zeta = 17
    let a = small(&[1, 2]);
    let b = small(&[3, 4]);
    let product = bcm(&a, &b);
    assert_eq!(product.get(0).to_int(), 3 + 8 * 17);
    assert_eq!(product.get(1).to_int(), 10);
    assert_eq!(product.get(2).to_int(), 0);
}

#[test]
fn product_through_the_transform_is_the_ring_product() {
    let a = scrambled(7);
    let b = scrambled(8);
    let expected = a.mul(&b);
    assert_eq!(ntt_product(&base_ntt(&a), &base_ntt(&b)), expected);
    assert_eq!(rev_ntt(&bcm(&base_ntt(&a), &base_ntt(&b))), expected);
    let x = small(&[0, 1]);
    let top = small(&[5]).mul(&Poly3329::init(256).basis_vector(255));
    let wrapped = ntt_product(&base_ntt(&x), &base_ntt(&top));
    assert_eq!(wrapped, small(&[3329 - 5]));
}

#[test]
fn dot_product_through_the_transform() {
    let a = PolyVec3329::from_vec(vec![scrambled(1), scrambled(2), scrambled(3)]);
    let b = PolyVec3329::from_vec(vec![scrambled(4), scrambled(5), scrambled(6)]);
    let expected = a.dot(&b);
    assert_eq!(ntt_product_vec(&ntt_vec(&a), &ntt_vec(&b)), expected);
    assert_eq!(rev_ntt(&bcm_vec(&ntt_vec(&a), &ntt_vec(&b))), expected);
}

#[test]
fn matrix_vector_product_through_the_transform() {
    let mut m = PolyMatrix3329::init(2, 2);
    m.set(0, 0, scrambled(11));
    m.set(0, 1, scrambled(12));
    m.set(1, 0, scrambled(13));
    m.set(1, 1, scrambled(14));
    let mut m_hat = PolyMatrix3329::init(2, 2);
    let mut i: usize = 0;
    while i < 2 {
        let mut j: usize = 0;
        while j < 2 {
            m_hat.set(i, j, base_ntt(&m.get(i, j)));
            j += 1;
        }
        i += 1;
    }
    let v = PolyVec3329::from_vec(vec![scrambled(21), scrambled(22)]);
    let v_hat = ntt_vec(&v);
    let product = ntt_product_matvec(&m_hat, &v_hat);
    assert_eq!(product.dimension(), 2);
    assert_eq!(product.get(0), m.row(0).dot(&v));
    assert_eq!(product.get(1), m.row(1).dot(&v));
    assert_eq!(rev_ntt_vec(&bcm_matrix_vec(&m_hat, &v_hat)), product);
}

#[test]
fn vector_transforms_act_on_every_component() {
    let v = PolyVec3329::from_vec(vec![scrambled(31), scrambled(32)]);
    let hat = ntt_vec(&v);
    assert_eq!(hat.get(0), base_ntt(&v.get(0)));
    assert_eq!(hat.get(1), base_ntt(&v.get(1)));
    assert_eq!(rev_ntt_vec(&hat), v);
}
