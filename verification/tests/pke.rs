use kybe_rs::hash::hash_g;
use kybe_rs::pke::{gen_matrix, noise, noise_vec};
use kybe_rs::sample::{cbd, sample_uniform};
use kybe_rs::hash::prf;
use kybe_rs::{
    base_ntt, bcm_matrix_vec, cpapke_decrypt, cpapke_encrypt, cpapke_keygen, decode_to_polyvec,
    ntt_vec, ByteArray, KyberError, KyberParams, PolyVec3329,
};

fn bytes(tag: u8, len: usize) -> ByteArray {
    let mut out: Vec<u8> = Vec::new();
    let mut i: usize = 0;
    while i < len {
        out.push(tag.wrapping_mul(31).wrapping_add((i * 5) as u8));
        i += 1;
    }
    ByteArray::from_bytes(&out)
}

#[test]
fn decrypt_recovers_the_message() {
    let sets = [KyberParams::kyber512(), KyberParams::kyber768()];
    let mut s: usize = 0;
    while s < sets.len() {
        let params = sets[s];
        let mut round: u8 = 0;
        while round < 20 {
            let (pk, sk) = cpapke_keygen(params, &bytes(round, 32)).unwrap();
            let m = bytes(round.wrapping_add(100), 32);
            let c = cpapke_encrypt(params, &pk, &m, &bytes(round.wrapping_add(200), 32)).unwrap();
            assert_eq!(cpapke_decrypt(params, &sk, &c).unwrap(), m);
            round += 1;
        }
        s += 1;
    }
}

#[test]
fn key_and_ciphertext_lengths() {
    let params = KyberParams::kyber512();
    let (pk, sk) = cpapke_keygen(params, &bytes(1, 32)).unwrap();
    assert_eq!(pk.len(), 800);
    assert_eq!(sk.len(), 768);
    let c = cpapke_encrypt(params, &pk, &bytes(2, 32), &bytes(3, 32)).unwrap();
    assert_eq!(c.len(), 736);
    let params = KyberParams::kyber768();
    let (pk, sk) = cpapke_keygen(params, &bytes(1, 32)).unwrap();
    assert_eq!(pk.len(), 1184);
    assert_eq!(sk.len(), 1152);
    let c = cpapke_encrypt(params, &pk, &bytes(2, 32), &bytes(3, 32)).unwrap();
    assert_eq!(c.len(), 1088);
}

#[test]
fn public_key_ends_with_the_matrix_seed() {
    let params = KyberParams::kyber512();
    let d = bytes(4, 32);
    let (pk, _sk) = cpapke_keygen(params, &d).unwrap();
    let (rho, _sigma) = hash_g(&d);
    assert_eq!(&pk.data[768..], &rho.data[..]);
}

#[test]
fn public_key_is_matrix_times_secret_plus_noise() {
    let params = KyberParams::kyber512();
    let d = bytes(5, 32);
    let (pk, sk) = cpapke_keygen(params, &d).unwrap();
    let (rho, sigma) = hash_g(&d);
    let a = gen_matrix(&rho, 2, false).unwrap();
    let s_hat = ntt_vec(&noise_vec(&sigma, 2, 2, 0));
    let e_hat = ntt_vec(&noise_vec(&sigma, 2, 2, 2));
    let t_hat = bcm_matrix_vec(&a, &s_hat).add(&e_hat);
    assert_eq!(decode_to_polyvec(ByteArray::from_bytes(&pk.data[..768]), 12), t_hat);
    assert_eq!(decode_to_polyvec(sk, 12), s_hat);
}

#[test]
fn matrix_entries_come_from_the_stream_of_column_then_row() {
    let rho = bytes(6, 32);
    let a = gen_matrix(&rho, 3, false).unwrap();
    let at = gen_matrix(&rho, 3, true).unwrap();
    assert_eq!(a.dimensions(), (3, 3));
    let mut i: u8 = 0;
    while i < 3 {
        let mut j: u8 = 0;
        while j < 3 {
            let entry = sample_uniform(&rho, j, i).unwrap();
            assert_eq!(a.get(i as usize, j as usize), entry);
            assert_eq!(at.get(j as usize, i as usize), entry);
            j += 1;
        }
        i += 1;
    }
    assert_eq!(a.transpose(), at);
}

#[test]
fn noise_is_cbd_of_the_prf() {
    let seed = bytes(7, 32);
    assert_eq!(noise(&seed, 3, 2), cbd(&prf(&seed, 3, 128), 2));
    let v: PolyVec3329 = noise_vec(&seed, 2, 2, 5);
    assert_eq!(v.get(0), noise(&seed, 5, 2));
    assert_eq!(v.get(1), noise(&seed, 6, 2));
    assert_ne!(v.get(0), v.get(1));
    assert_ne!(base_ntt(&v.get(0)), v.get(0));
}

#[test]
fn encryption_is_a_function_of_its_inputs() {
    let params = KyberParams::kyber512();
    let (pk, _sk) = cpapke_keygen(params, &bytes(8, 32)).unwrap();
    let m = bytes(9, 32);
    let c1 = cpapke_encrypt(params, &pk, &m, &bytes(10, 32)).unwrap();
    let c2 = cpapke_encrypt(params, &pk, &m, &bytes(10, 32)).unwrap();
    let c3 = cpapke_encrypt(params, &pk, &m, &bytes(11, 32)).unwrap();
    assert_eq!(c1, c2);
    assert_ne!(c1, c3);
}

#[test]
fn unsupported_parameters() {
    let mut params = KyberParams::kyber512();
    params.eta = 3;
    assert_eq!(cpapke_keygen(params, &bytes(1, 32)), Err(KyberError::InvalidParams));
    assert_eq!(
        cpapke_encrypt(params, &bytes(1, 800), &bytes(2, 32), &bytes(3, 32)),
        Err(KyberError::InvalidParams)
    );
    assert_eq!(
        cpapke_decrypt(params, &bytes(1, 768), &bytes(2, 736)),
        Err(KyberError::InvalidParams)
    );
}

#[test]
fn malformed_lengths() {
    let params = KyberParams::kyber512();
    assert_eq!(cpapke_keygen(params, &bytes(1, 31)), Err(KyberError::MalformedInput));
    assert_eq!(cpapke_keygen(params, &bytes(1, 33)), Err(KyberError::MalformedInput));
    let (pk, sk) = cpapke_keygen(params, &bytes(1, 32)).unwrap();
    assert_eq!(
        cpapke_encrypt(params, &bytes(1, 801), &bytes(2, 32), &bytes(3, 32)),
        Err(KyberError::MalformedInput)
    );
    assert_eq!(
        cpapke_encrypt(params, &pk, &bytes(2, 31), &bytes(3, 32)),
        Err(KyberError::MalformedInput)
    );
    assert_eq!(
        cpapke_encrypt(params, &pk, &bytes(2, 32), &bytes(3, 33)),
        Err(KyberError::MalformedInput)
    );
    assert_eq!(cpapke_decrypt(params, &sk, &bytes(2, 738)), Err(KyberError::MalformedInput));
    assert_eq!(cpapke_decrypt(params, &bytes(1, 767), &bytes(2, 736)), Err(KyberError::MalformedInput));
}
