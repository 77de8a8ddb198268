use kybe_rs::{
    compress_integer, compress_poly, compress_polyvec, decode_to_poly, decode_to_polyvec,
    decompress_integer, decompress_poly, decompress_polyvec, encode_poly, encode_polyvec,
    ByteArray, Poly3329, PolyVec3329, F3329,
};

fn ramp() -> Poly3329 {
    let mut coeffs: Vec<F3329> = Vec::new();
    let mut i: usize = 0;
    while i < 256 {
        coeffs.push(F3329::from_int(i));
        i += 1;
    }
    Poly3329::from_vec(coeffs, 256)
}

fn spread(step: usize) -> Poly3329 {
    let mut coeffs: Vec<F3329> = Vec::new();
    let mut i: usize = 0;
    while i < 256 {
        coeffs.push(F3329::from_int(i * step + 5));
        i += 1;
    }
    Poly3329::from_vec(coeffs, 256)
}

#[test]
fn encode_decode_poly() {
    let original = Poly3329::from_vec(vec![Default::default(); 256], 256);
    let encoded = encode_poly(original.clone(), 12);
    let decoded = decode_to_poly(encoded, 12);
    assert!(decoded == original);
}

#[test]
fn compress_and_decompress_one_bit() {
    assert_eq!(compress_integer(1664, 1, 3329), 1);
    assert_eq!(decompress_integer(1, 1, 3329), 1665);
    assert_eq!(decompress_integer(0, 1, 3329), 0);
    let error: usize = 1665 - 1664;
    assert_eq!(error, 1);
    assert!(error <= 833);
}

#[test]
fn compress_rounds_to_nearest() {
    assert_eq!(compress_integer(0, 1, 3329), 0);
    assert_eq!(compress_integer(832, 1, 3329), 0);
    assert_eq!(compress_integer(833, 1, 3329), 1);
    assert_eq!(compress_integer(2496, 1, 3329), 1);
    assert_eq!(compress_integer(2497, 1, 3329), 0);
    assert_eq!(compress_integer(3328, 1, 3329), 0);
    assert_eq!(compress_integer(1000, 10, 3329), 308);
    assert_eq!(compress_integer(3328, 10, 3329), 0);
    assert_eq!(compress_integer(3327, 10, 3329), 1023);
    assert_eq!(compress_integer(5, 0, 3329), 0);
}

#[test]
fn decompress_rounds_to_nearest() {
    assert_eq!(decompress_integer(308, 10, 3329), 1001);
    assert_eq!(decompress_integer(1023, 10, 3329), 3326);
    assert_eq!(decompress_integer(1, 10, 3329), 3);
    assert_eq!(decompress_integer(7, 3, 3329), 2913);
    assert_eq!(decompress_integer(8, 4, 3329), 1665);
    assert_eq!(decompress_integer(3, 0, 3329), 9987);
}

#[test]
fn compress_then_decompress_stays_within_the_radius() {
    let q: usize = 3329;
    let mut d: usize = 0;
    while d <= 12 {
        let radius: usize = (q + (1usize << (d + 1)) - 1) / (1usize << (d + 1));
        let mut x: usize = 0;
        while x < q {
            let back: usize = decompress_integer(compress_integer(x, d, q), d, q);
            let up: usize = (back + q - x) % q;
            let down: usize = (x + 2 * q - back) % q;
            let distance: usize = if up < down { up } else { down };
            assert!(distance <= radius, "x = {}, d = {}", x, d);
            x += 1;
        }
        d += 1;
    }
}

#[test]
fn compress_poly_maps_every_coefficient() {
    let p = ramp();
    let c = compress_poly(p.clone(), 4, 3329);
    let mut i: usize = 0;
    while i < 256 {
        assert_eq!(c.get(i).to_int(), compress_integer(i, 4, 3329));
        i += 1;
    }
    let d = decompress_poly(c, 4, 3329);
    let mut i: usize = 0;
    while i < 256 {
        assert_eq!(d.get(i).to_int(), decompress_integer(compress_integer(i, 4, 3329), 4, 3329));
        i += 1;
    }
}

#[test]
fn compress_polyvec_maps_every_component() {
    let v = PolyVec3329::from_vec(vec![ramp(), spread(13)]);
    let c = compress_polyvec(v.clone(), 10, 3329);
    assert_eq!(c.dimension(), 2);
    assert_eq!(c.get(0), compress_poly(ramp(), 10, 3329));
    assert_eq!(c.get(1), compress_poly(spread(13), 10, 3329));
    let d = decompress_polyvec(c.clone(), 10, 3329);
    assert_eq!(d.get(0), decompress_poly(c.get(0), 10, 3329));
    assert_eq!(d.get(1), decompress_poly(c.get(1), 10, 3329));
}

#[test]
fn encode_ramp_with_twelve_bits() {
    let p = ramp();
    let encoded = encode_poly(p.clone(), 12);
    assert_eq!(encoded.len(), 384);
    assert_eq!(&encoded.data[..6], &[0x00, 0x10, 0x00, 0x02, 0x30, 0x00]);
    assert_eq!(&encoded.data[381..], &[0xfe, 0xf0, 0x0f]);
    let decoded = decode_to_poly(encoded, 12);
    assert_eq!(decoded, p);
}

#[test]
fn encode_one_bit_packs_eight_coefficients_per_byte() {
    let mut coeffs: Vec<F3329> = Vec::new();
    let mut i: usize = 0;
    while i < 256 {
        coeffs.push(F3329::from_int((i + 1) % 2));
        i += 1;
    }
    let p = Poly3329::from_vec(coeffs, 256);
    let encoded = encode_poly(p.clone(), 1);
    assert_eq!(encoded.data, vec![0x55u8; 32]);
    assert_eq!(decode_to_poly(encoded, 1), p);
}

#[test]
fn encode_decode_round_trip_for_every_width() {
    let mut ell: usize = 1;
    while ell <= 12 {
        let mut coeffs: Vec<F3329> = Vec::new();
        let mut i: usize = 0;
        while i < 256 {
            let bound: usize = if ell == 12 { 3329 } else { 1usize << ell };
            coeffs.push(F3329::from_int((i * 37 + 11) % bound));
            i += 1;
        }
        let p = Poly3329::from_vec(coeffs, 256);
        let encoded = encode_poly(p.clone(), ell);
        assert_eq!(encoded.len(), 32 * ell);
        assert_eq!(decode_to_poly(encoded, ell), p);
        ell += 1;
    }
}

#[test]
fn encode_keeps_only_the_low_bits() {
    let p = ramp();
    let encoded = encode_poly(p, 4);
    let decoded = decode_to_poly(encoded, 4);
    let mut i: usize = 0;
    while i < 256 {
        assert_eq!(decoded.get(i).to_int(), i % 16);
        i += 1;
    }
}

#[test]
fn decode_reduces_modulo_q() {
    let bytes = ByteArray::from_bytes(&[0xffu8; 384]);
    let decoded = decode_to_poly(bytes, 12);
    let mut i: usize = 0;
    while i < 256 {
        assert_eq!(decoded.get(i).to_int(), 4095 - 3329);
        i += 1;
    }
}

#[test]
fn decode_ignores_bytes_after_the_polynomial() {
    let mut bytes = encode_poly(ramp(), 12).data;
    bytes.push(0xaa);
    bytes.push(0xbb);
    assert_eq!(decode_to_poly(ByteArray::from_bytes(&bytes), 12), ramp());
}

#[test]
fn encode_polyvec_concatenates() {
    let v = PolyVec3329::from_vec(vec![ramp(), spread(13)]);
    let encoded = encode_polyvec(v.clone(), 12);
    assert_eq!(encoded.len(), 768);
    assert_eq!(&encoded.data[..384], &encode_poly(ramp(), 12).data[..]);
    assert_eq!(&encoded.data[384..], &encode_poly(spread(13), 12).data[..]);
    let decoded = decode_to_polyvec(encoded, 12);
    assert_eq!(decoded, v);
}

#[test]
fn decode_polyvec_reads_whole_chunks_only() {
    let mut bytes = encode_polyvec(PolyVec3329::from_vec(vec![ramp(), spread(3)]), 10).data;
    assert_eq!(bytes.len(), 640);
    bytes.push(1);
    let decoded = decode_to_polyvec(ByteArray::from_bytes(&bytes), 10);
    assert_eq!(decoded.dimension(), 2);
    let none = decode_to_polyvec(ByteArray::from_bytes(&[0u8; 319]), 10);
    assert_eq!(none.dimension(), 0);
}
