use kybe_rs::hash::{hash_g, hash_h, kdf};
use kybe_rs::kem::{ct_equal, ct_select};
use kybe_rs::{
    cpapke_encrypt, kem_decapsulate, kem_encapsulate, kem_encapsulate_from, kem_keygen,
    kem_keygen_from, ByteArray, KyberError, KyberParams,
};

fn seed(tag: u8, round: usize) -> ByteArray {
    let mut bytes: Vec<u8> = Vec::new();
    let mut i: usize = 0;
    while i < 32 {
        bytes.push(tag.wrapping_add((i * 7 + round * 13) as u8));
        i += 1;
    }
    ByteArray::from_bytes(&bytes)
}

#[test]
fn round_trip_512_random_keys() {
    let params = KyberParams::kyber512();
    let mut round: usize = 0;
    while round < 25 {
        let (sk, pk) = kem_keygen(params).unwrap();
        let (c, key) = kem_encapsulate(params, &pk).unwrap();
        let again = kem_decapsulate(params, &c, &sk).unwrap();
        assert_eq!(key, again);
        assert_eq!(key.len(), 32);
        round += 1;
    }
}

#[test]
fn round_trip_768_random_keys() {
    let params = KyberParams::kyber768();
    let mut round: usize = 0;
    while round < 10 {
        let (sk, pk) = kem_keygen(params).unwrap();
        let (c, key) = kem_encapsulate(params, &pk).unwrap();
        let again = kem_decapsulate(params, &c, &sk).unwrap();
        assert_eq!(key, again);
        round += 1;
    }
}

#[test]
fn sizes_follow_the_layouts() {
    let small = KyberParams::kyber512();
    let (sk, pk) = kem_keygen(small).unwrap();
    let (c, key) = kem_encapsulate(small, &pk).unwrap();
    assert_eq!(pk.len(), 800);
    assert_eq!(sk.len(), 1632);
    assert_eq!(c.len(), 736);
    assert_eq!(key.len(), 32);
    let large = KyberParams::kyber768();
    let (sk, pk) = kem_keygen(large).unwrap();
    let (c, key) = kem_encapsulate(large, &pk).unwrap();
    assert_eq!(pk.len(), 1184);
    assert_eq!(sk.len(), 2400);
    assert_eq!(c.len(), 1088);
    assert_eq!(key.len(), 32);
}

#[test]
fn tampered_ciphertext_gives_another_key() {
    let params = KyberParams::kyber512();
    let (sk, pk) = kem_keygen(params).unwrap();
    let (c, key) = kem_encapsulate(params, &pk).unwrap();

    let mut first = c.clone();
    first.data[0] ^= 1;
    let rejected = kem_decapsulate(params, &first, &sk).unwrap();
    assert_ne!(rejected, key);
    assert_eq!(rejected.len(), 32);

    let mut last = c.clone();
    let end: usize = last.len() - 1;
    last.data[end] ^= 1;
    let rejected = kem_decapsulate(params, &last, &sk).unwrap();
    assert_ne!(rejected, key);
    assert_eq!(rejected.len(), 32);
}

#[test]
fn fixed_seeds_give_identical_bytes() {
    let params = KyberParams::kyber512();
    let (sk1, pk1) = kem_keygen_from(params, &seed(1, 0), &seed(2, 0)).unwrap();
    let (sk2, pk2) = kem_keygen_from(params, &seed(1, 0), &seed(2, 0)).unwrap();
    assert_eq!(sk1, sk2);
    assert_eq!(pk1, pk2);
    let (c1, k1) = kem_encapsulate_from(params, &pk1, &seed(3, 0)).unwrap();
    let (c2, k2) = kem_encapsulate_from(params, &pk2, &seed(3, 0)).unwrap();
    assert_eq!(c1, c2);
    assert_eq!(k1, k2);
    assert_eq!(kem_decapsulate(params, &c1, &sk1).unwrap(), k1);
}

#[test]
fn secret_key_holds_public_key_and_rejection_secret() {
    let params = KyberParams::kyber512();
    let z = seed(9, 4);
    let (sk, pk) = kem_keygen_from(params, &seed(5, 1), &z).unwrap();
    assert_eq!(&sk.data[768..1568], &pk.data[..]);
    assert_eq!(&sk.data[1600..1632], &z.data[..]);
}

#[test]
fn unsupported_parameters_are_refused() {
    let mut params = KyberParams::kyber512();
    params.k = 4;
    assert_eq!(kem_keygen(params), Err(KyberError::InvalidParams));
    let pk = ByteArray::from_bytes(&[0u8; 800]);
    assert_eq!(kem_encapsulate(params, &pk), Err(KyberError::InvalidParams));
}

#[test]
fn wrong_lengths_are_malformed() {
    let params = KyberParams::kyber512();
    let (sk, pk) = kem_keygen(params).unwrap();
    let (c, _key) = kem_encapsulate(params, &pk).unwrap();
    let short_pk = ByteArray::from_bytes(&pk.data[..799]);
    assert_eq!(kem_encapsulate(params, &short_pk), Err(KyberError::MalformedInput));
    let short_c = ByteArray::from_bytes(&c.data[..735]);
    assert_eq!(kem_decapsulate(params, &short_c, &sk), Err(KyberError::MalformedInput));
    let short_sk = ByteArray::from_bytes(&sk.data[..1631]);
    assert_eq!(kem_decapsulate(params, &c, &short_sk), Err(KyberError::MalformedInput));
    assert_eq!(
        kem_keygen_from(params, &seed(1, 1), &ByteArray::from_bytes(&[0u8; 31])),
        Err(KyberError::MalformedInput)
    );
}

#[test]
fn round_trip_512_thousand_random_keys() {
    let params = KyberParams::kyber512();
    let mut round: usize = 0;
    while round < 1000 {
        let (sk, pk) = kem_keygen(params).unwrap();
        let (c, key) = kem_encapsulate(params, &pk).unwrap();
        let again = kem_decapsulate(params, &c, &sk).unwrap();
        assert_eq!(key, again);
        round += 1;
    }
}

#[test]
fn rejected_ciphertext_gives_the_key_of_the_rejection_secret() {
    let params = KyberParams::kyber512();
    let z = seed(40, 2);
    let (sk, pk) = kem_keygen_from(params, &seed(41, 2), &z).unwrap();
    let (c, key) = kem_encapsulate_from(params, &pk, &seed(42, 2)).unwrap();
    let mut offsets: Vec<usize> = Vec::new();
    offsets.push(0);
    offsets.push(100);
    offsets.push(735);
    let mut i: usize = 0;
    while i < offsets.len() {
        let mut tampered = c.clone();
        tampered.data[offsets[i]] ^= 0x40;
        let expected = kdf(&z.append(&hash_h(&tampered)));
        let rejected = kem_decapsulate(params, &tampered, &sk).unwrap();
        assert_eq!(rejected, expected);
        assert_ne!(rejected, key);
        i += 1;
    }
}

#[test]
fn shared_key_is_derived_from_the_ciphertext_digest() {
    let params = KyberParams::kyber768();
    let (sk, pk) = kem_keygen_from(params, &seed(50, 3), &seed(51, 3)).unwrap();
    let m = seed(52, 3);
    let (c, key) = kem_encapsulate_from(params, &pk, &m).unwrap();
    let message = hash_h(&m);
    let (pre_key, coins) = hash_g(&message.append(&hash_h(&pk)));
    assert_eq!(c, cpapke_encrypt(params, &pk, &message, &coins).unwrap());
    assert_eq!(key, kdf(&pre_key.append(&hash_h(&c))));
    assert_eq!(&sk.data[1152 + 1184..1152 + 1184 + 32], &hash_h(&pk).data[..]);
    assert_eq!(kem_decapsulate(params, &c, &sk).unwrap(), key);
}

#[test]
fn constant_time_helpers() {
    let a = ByteArray::from_bytes(&[1, 2, 3]);
    let b = ByteArray::from_bytes(&[1, 2, 4]);
    assert_eq!(ct_equal(&a, &a.clone()), 0xff);
    assert_eq!(ct_equal(&a, &b), 0x00);
    assert_eq!(ct_equal(&ByteArray::new(), &ByteArray::new()), 0xff);
    assert_eq!(ct_select(&a, &b, 0xff), a);
    assert_eq!(ct_select(&a, &b, 0x00), b);
}
