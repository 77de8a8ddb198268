use kybe_rs::ByteArray;

#[test]
fn bits_are_read_least_significant_first() {
    let s = ByteArray::from_bytes(&[0b0000_0101, 0x80]);
    assert!(s.get_bit(0));
    assert!(!s.get_bit(1));
    assert!(s.get_bit(2));
    assert!(!s.get_bit(3));
    assert!(!s.get_bit(7));
    assert!(!s.get_bit(8));
    assert!(!s.get_bit(14));
    assert!(s.get_bit(15));
}

#[test]
fn get_bit_is_shift_and_mask() {
    let bytes: [u8; 5] = [0x00, 0xff, 0xa5, 0x3c, 0x81];
    let s = ByteArray::from_bytes(&bytes);
    let mut i: usize = 0;
    while i < 8 * bytes.len() {
        let expected: bool = (bytes[i / 8] >> (i % 8)) & 1 == 1;
        assert_eq!(s.get_bit(i), expected);
        i += 1;
    }
}

#[test]
fn new_is_empty() {
    assert_eq!(ByteArray::new().len(), 0);
    assert_eq!(ByteArray::new().data, Vec::<u8>::new());
}

#[test]
fn append_keeps_order() {
    let a = ByteArray::from_bytes(&[1, 2]);
    let b = ByteArray::from_bytes(&[3]);
    assert_eq!(a.append(&b).data, vec![1, 2, 3]);
    assert_eq!(b.append(&a).data, vec![3, 1, 2]);
    assert_eq!(a.append(&ByteArray::new()).data, vec![1, 2]);
}

#[test]
fn concat_joins_all_items() {
    let a = ByteArray::from_bytes(&[1, 2]);
    let b = ByteArray::from_bytes(&[]);
    let c = ByteArray::from_bytes(&[3, 4, 5]);
    assert_eq!(ByteArray::concat(&[&a, &b, &c]).data, vec![1, 2, 3, 4, 5]);
    assert_eq!(ByteArray::concat(&[]).data, Vec::<u8>::new());
}

#[test]
fn skip_drops_a_prefix() {
    let a = ByteArray::from_bytes(&[1, 2, 3, 4]);
    assert_eq!(a.skip(0).data, vec![1, 2, 3, 4]);
    assert_eq!(a.skip(1).data, vec![2, 3, 4]);
    assert_eq!(a.skip(4).data, Vec::<u8>::new());
    assert_eq!(a.skip(9).data, Vec::<u8>::new());
}

#[test]
fn split_at_gives_prefix_and_suffix() {
    let a = ByteArray::from_bytes(&[1, 2, 3, 4]);
    let (head, tail) = a.split_at(1);
    assert_eq!(head.data, vec![1]);
    assert_eq!(tail.data, vec![2, 3, 4]);
    let (head, tail) = a.split_at(4);
    assert_eq!(head.data, vec![1, 2, 3, 4]);
    assert_eq!(tail.data, Vec::<u8>::new());
    let (head, tail) = a.split_at(0);
    assert_eq!(head.data, Vec::<u8>::new());
    assert_eq!(tail.data, vec![1, 2, 3, 4]);
}

#[test]
fn random_has_the_length_asked_for() {
    assert_eq!(ByteArray::random(0).len(), 0);
    assert_eq!(ByteArray::random(32).len(), 32);
    assert_eq!(ByteArray::random(1000).len(), 1000);
}

#[test]
fn random_does_not_repeat() {
    let a = ByteArray::random(32);
    let b = ByteArray::random(32);
    assert_ne!(a, b);
    assert_ne!(a.data, vec![0u8; 32]);
}

#[test]
fn clone_is_equal() {
    let a = ByteArray::from_bytes(&[9, 8, 7]);
    assert_eq!(a.clone(), a);
}

#[test]
fn zeroize_overwrites_every_byte() {
    let mut a = ByteArray::from_bytes(&[9, 8, 7]);
    a.zeroize();
    assert_eq!(a.data, vec![0u8, 0, 0]);
    let mut empty = ByteArray::new();
    empty.zeroize();
    assert_eq!(empty.len(), 0);
}
