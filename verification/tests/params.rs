use kybe_rs::KyberParams;

#[test]
fn kyber512_values() {
    let p = KyberParams::kyber512();
    assert_eq!(p.n, 256);
    assert_eq!(p.k, 2);
    assert_eq!(p.q, 3329);
    assert_eq!(p.eta, 2);
    assert_eq!(p.du, 10);
    assert_eq!(p.dv, 3);
    assert_eq!(p.delta, 178);
    assert_eq!(p.pk_size, 800);
    assert_eq!(p.sk_size, 1632);
    assert_eq!(p.ct_size, 738);
}

#[test]
fn kyber768_values() {
    let p = KyberParams::kyber768();
    assert_eq!(p.n, 256);
    assert_eq!(p.k, 3);
    assert_eq!(p.q, 3329);
    assert_eq!(p.eta, 2);
    assert_eq!(p.du, 10);
    assert_eq!(p.dv, 4);
    assert_eq!(p.delta, 164);
    assert_eq!(p.pk_size, 1184);
    assert_eq!(p.sk_size, 2400);
    assert_eq!(p.ct_size, 1088);
}

#[test]
fn n_divides_q_minus_one() {
    let p = KyberParams::kyber512();
    assert_eq!((p.q - 1) % p.n, 0);
    let p = KyberParams::kyber768();
    assert_eq!((p.q - 1) % p.n, 0);
}

#[test]
fn key_sizes_follow_the_layouts() {
    let sets = [KyberParams::kyber512(), KyberParams::kyber768()];
    let mut i: usize = 0;
    while i < sets.len() {
        let p = sets[i];
        assert_eq!(p.pk_size, 12 * p.k * p.n / 8 + 32);
        assert_eq!(p.sk_size, 24 * p.k * p.n / 8 + 96);
        i += 1;
    }
}

#[test]
fn only_the_two_sets_are_supported() {
    assert!(KyberParams::kyber512().is_supported());
    assert!(KyberParams::kyber768().is_supported());
    let mut p = KyberParams::kyber768();
    p.k = 4;
    assert!(!p.is_supported());
    let mut p = KyberParams::kyber512();
    p.dv = 4;
    assert!(!p.is_supported());
    let mut p = KyberParams::kyber512();
    p.q = 7681;
    assert!(!p.is_supported());
}
