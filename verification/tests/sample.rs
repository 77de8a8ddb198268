use kybe_rs::hash::xof;
use kybe_rs::sample::{cbd, parse, sample_uniform};
use kybe_rs::{ByteArray, Poly3329, F3329};

#[test]
fn cbd_of_zero_bytes_is_zero() {
    let p = cbd(&ByteArray::from_bytes(&[0u8; 128]), 2);
    assert_eq!(p, Poly3329::init(256));
}

#[test]
fn cbd_of_all_ones_is_zero() {
    let p = cbd(&ByteArray::from_bytes(&[0xffu8; 128]), 2);
    assert_eq!(p, Poly3329::init(256));
    let p = cbd(&ByteArray::from_bytes(&[0xffu8; 192]), 3);
    assert_eq!(p, Poly3329::init(256));
}

#[test]
fn cbd_counts_the_two_halves() {
    // four bits per coefficient: 1100 (low first) gives 2 - 0, 0011 gives 0 - 2
    let p = cbd(&ByteArray::from_bytes(&[0b1100_0011u8; 128]), 2);
    let mut i: usize = 0;
    while i < 128 {
        assert_eq!(p.get(2 * i).to_int(), 2);
        assert_eq!(p.get(2 * i + 1).to_int(), 3327);
        i += 1;
    }
    // 1000 gives 1 - 0, 0110 gives 1 - 1
    let p = cbd(&ByteArray::from_bytes(&[0b0110_0001u8; 128]), 2);
    assert_eq!(p.get(0).to_int(), 1);
    assert_eq!(p.get(1).to_int(), 0);
    // 0100 gives 0 - 1
    let p = cbd(&ByteArray::from_bytes(&[0b0000_0100u8; 128]), 2);
    assert_eq!(p.get(0).to_int(), 3328);
    assert_eq!(p.get(1).to_int(), 0);
}

#[test]
fn cbd_with_width_three() {
    // six bits per coefficient, first byte 0b00_101_111: 3 - 2 = 1
    let mut bytes: Vec<u8> = vec![0u8; 192];
    bytes[0] = 0b0010_1111;
    let p = cbd(&ByteArray::from_bytes(&bytes), 3);
    assert_eq!(p.get(0).to_int(), 1);
    assert_eq!(p.get(1).to_int(), 0);
}

#[test]
fn cbd_coefficients_stay_within_eta_of_zero() {
    let mut round: usize = 0;
    while round < 20 {
        let p = cbd(&ByteArray::random(128), 2);
        let mut i: usize = 0;
        while i < 256 {
            let c: usize = p.get(i).to_int();
            assert!(c <= 2 || c >= 3327);
            i += 1;
        }
        let p = cbd(&ByteArray::random(192), 3);
        let mut i: usize = 0;
        while i < 256 {
            let c: usize = p.get(i).to_int();
            assert!(c <= 3 || c >= 3326);
            i += 1;
        }
        round += 1;
    }
}

#[test]
fn parse_reads_two_candidates_from_three_bytes() {
    // 0x01 0x20 0x03: low = 0x001, high = 0x032
    let mut bytes: Vec<u8> = Vec::new();
    let mut i: usize = 0;
    while i < 128 {
        bytes.push(0x01);
        bytes.push(0x20);
        bytes.push(0x03);
        i += 1;
    }
    let p = parse(&ByteArray::from_bytes(&bytes)).unwrap();
    let mut i: usize = 0;
    while i < 128 {
        assert_eq!(p.get(2 * i).to_int(), 0x001);
        assert_eq!(p.get(2 * i + 1).to_int(), 0x032);
        i += 1;
    }
}

#[test]
fn parse_accepts_below_q_only() {
    // 3328 = 0xd00 is taken, 3329 = 0xd01 is not
    let mut bytes: Vec<u8> = Vec::new();
    let mut i: usize = 0;
    while i < 256 {
        // low = 0xd01 (rejected), high = 0xd00 (accepted)
        bytes.push(0x01);
        bytes.push(0x0d);
        bytes.push(0xd0);
        i += 1;
    }
    let p = parse(&ByteArray::from_bytes(&bytes)).unwrap();
    let mut i: usize = 0;
    while i < 256 {
        assert_eq!(p.get(i).to_int(), 3328);
        i += 1;
    }
}

#[test]
fn parse_skips_rejected_candidates() {
    let mut bytes: Vec<u8> = vec![0xff, 0xff, 0xff, 0xff, 0xff, 0xff];
    let mut i: usize = 0;
    while i < 128 {
        bytes.push(0x05);
        bytes.push(0x00);
        bytes.push(0x00);
        i += 1;
    }
    let p = parse(&ByteArray::from_bytes(&bytes)).unwrap();
    assert_eq!(p.get(0).to_int(), 5);
    assert_eq!(p.get(1).to_int(), 0);
    assert_eq!(p.get(254).to_int(), 5);
}

#[test]
fn parse_needs_256_accepted_candidates() {
    assert_eq!(parse(&ByteArray::from_bytes(&[0u8; 381])), None);
    assert_eq!(parse(&ByteArray::from_bytes(&[0u8; 383])), None);
    assert_eq!(parse(&ByteArray::from_bytes(&[0u8; 384])), Some(Poly3329::init(256)));
    assert_eq!(parse(&ByteArray::from_bytes(&[0xffu8; 3000])), None);
    assert_eq!(parse(&ByteArray::new()), None);
}

#[test]
fn parse_stops_after_256() {
    let mut bytes: Vec<u8> = vec![0u8; 384];
    bytes.extend_from_slice(&[0x07, 0x00, 0x00]);
    assert_eq!(parse(&ByteArray::from_bytes(&bytes)), Some(Poly3329::init(256)));
    // the second candidate of the last group is the 257th
    let mut bytes: Vec<u8> = vec![0xff, 0x0f, 0x00];
    bytes.extend_from_slice(&[0u8; 381]);
    bytes.extend_from_slice(&[0x09, 0x10, 0x00]);
    let p = parse(&ByteArray::from_bytes(&bytes)).unwrap();
    assert_eq!(p.get(0).to_int(), 0);
    assert_eq!(p.get(255).to_int(), 9);
}

#[test]
fn uniform_sample_is_the_parse_of_the_stream() {
    let rho = ByteArray::from_bytes(&[7u8; 32]);
    let p = sample_uniform(&rho, 1, 2).unwrap();
    let mut i: usize = 0;
    while i < 256 {
        assert!(p.get(i).to_int() < 3329);
        i += 1;
    }
    assert_eq!(Some(p.clone()), parse(&xof(&rho, 1, 2, 672)));
    assert_eq!(Some(p.clone()), parse(&xof(&rho, 1, 2, 4000)));
    assert_eq!(Some(p.clone()), sample_uniform(&rho, 1, 2));
    assert_ne!(Some(p.clone()), sample_uniform(&rho, 2, 1));
    assert_ne!(p, Poly3329::from_vec(vec![F3329::from_int(0); 256], 256));
}
