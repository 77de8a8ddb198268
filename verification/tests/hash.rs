use kybe_rs::hash::{hash_g, hash_h, kdf, prf, xof};
use kybe_rs::ByteArray;

fn hex(bytes: &[u8]) -> String {
    let mut out = String::new();
    let mut i: usize = 0;
    while i < bytes.len() {
        out.push_str(&format!("{:02x}", bytes[i]));
        i += 1;
    }
    out
}

#[test]
fn sha3_256_of_the_empty_string() {
    let digest = hash_h(&ByteArray::new());
    assert_eq!(
        hex(&digest.data),
        "a7ffc6f8bf1ed76651c14756a061d662f580ff4de43b49fa82d80a4b80f8434a"
    );
}

#[test]
fn sha3_256_of_abc() {
    let digest = hash_h(&ByteArray::from_bytes(b"abc"));
    assert_eq!(
        hex(&digest.data),
        "3a985da74fe225b2045c172d6bd390bd855f086e3e9d525b46bfe24511431532"
    );
}

#[test]
fn sha3_512_of_the_empty_string_in_two_halves() {
    let (first, second) = hash_g(&ByteArray::new());
    assert_eq!(
        hex(&first.data),
        "a69f73cca23a9ac5c8b567dc185a756e97c982164fe25859e0d1dcc1475c80a6"
    );
    assert_eq!(
        hex(&second.data),
        "15b2123af1f5f94c11e3e9402c3ac558f500199d95b6d3e301758586281dcd26"
    );
}

#[test]
fn shake256_of_the_empty_string() {
    let key = kdf(&ByteArray::new());
    assert_eq!(
        hex(&key.data),
        "46b9dd2b0ba88d13233b3feb743eeb243fcd52ea62b81b82b50c27646ed5762f"
    );
}

#[test]
fn prf_is_shake256_of_seed_and_nonce() {
    let seed = ByteArray::from_bytes(&[1, 2, 3]);
    let joined = ByteArray::from_bytes(&[1, 2, 3, 9]);
    assert_eq!(prf(&seed, 9, 32), kdf(&joined));
    assert_ne!(prf(&seed, 8, 32), kdf(&joined));
    assert_eq!(prf(&seed, 9, 128).len(), 128);
    assert_eq!(prf(&seed, 9, 0).len(), 0);
    assert_eq!(&prf(&seed, 9, 128).data[..32], &kdf(&joined).data[..]);
}

#[test]
fn xof_returns_a_prefix_of_one_stream() {
    let rho = ByteArray::from_bytes(&[5u8; 32]);
    let short = xof(&rho, 0, 1, 100);
    let long = xof(&rho, 0, 1, 1000);
    assert_eq!(short.len(), 100);
    assert_eq!(long.len(), 1000);
    assert_eq!(&long.data[..100], &short.data[..]);
    assert_ne!(xof(&rho, 1, 0, 100), short);
    assert_ne!(&short.data[..32], &rho.data[..]);
}

#[test]
fn xof_is_shake128() {
    // SHAKE-128 of the two bytes 0x00 0x00 differs from SHAKE-256 of them
    let empty = ByteArray::new();
    let out = xof(&empty, 0, 0, 32);
    assert_ne!(out, kdf(&ByteArray::from_bytes(&[0, 0])));
    assert_eq!(out, xof(&empty, 0, 0, 32));
}
