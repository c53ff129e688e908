use std::collections::HashSet;
use bathtub_db::helpers::{flip_bit, flip_bit_in, BitFlipIter};

#[test]
fn test_flip_bit() {
    let src = [0_u8; 2];
    assert_eq!(flip_bit(&src, 0), vec![0b00000001, 0b00000000]);
    assert_eq!(flip_bit(&src, 1), vec![0b00000010, 0b00000000]);
    assert_eq!(flip_bit(&src, 2), vec![0b00000100, 0b00000000]);
    assert_eq!(flip_bit(&src, 3), vec![0b00001000, 0b00000000]);
    assert_eq!(flip_bit(&src, 4), vec![0b00010000, 0b00000000]);
    assert_eq!(flip_bit(&src, 5), vec![0b00100000, 0b00000000]);
    assert_eq!(flip_bit(&src, 6), vec![0b01000000, 0b00000000]);
    assert_eq!(flip_bit(&src, 7), vec![0b10000000, 0b00000000]);
    assert_eq!(flip_bit(&src, 8), vec![0b00000000, 0b00000001]);
    assert_eq!(flip_bit(&src, 9), vec![0b00000000, 0b00000010]);
    assert_eq!(flip_bit(&src, 10), vec![0b00000000, 0b00000100]);
    assert_eq!(flip_bit(&src, 11), vec![0b00000000, 0b00001000]);
    assert_eq!(flip_bit(&src, 12), vec![0b00000000, 0b00010000]);
    assert_eq!(flip_bit(&src, 13), vec![0b00000000, 0b00100000]);
    assert_eq!(flip_bit(&src, 14), vec![0b00000000, 0b01000000]);
    assert_eq!(flip_bit(&src, 15), vec![0b00000000, 0b10000000]);

    let src = [255_u8; 2];
    assert_eq!(flip_bit(&src, 0), vec![0b11111110, 0b11111111]);
    assert_eq!(flip_bit(&src, 1), vec![0b11111101, 0b11111111]);
    assert_eq!(flip_bit(&src, 2), vec![0b11111011, 0b11111111]);
    assert_eq!(flip_bit(&src, 3), vec![0b11110111, 0b11111111]);
    assert_eq!(flip_bit(&src, 4), vec![0b11101111, 0b11111111]);
    assert_eq!(flip_bit(&src, 5), vec![0b11011111, 0b11111111]);
    assert_eq!(flip_bit(&src, 6), vec![0b10111111, 0b11111111]);
    assert_eq!(flip_bit(&src, 7), vec![0b01111111, 0b11111111]);
    assert_eq!(flip_bit(&src, 8), vec![0b11111111, 0b11111110]);
    assert_eq!(flip_bit(&src, 9), vec![0b11111111, 0b11111101]);
    assert_eq!(flip_bit(&src, 10), vec![0b11111111, 0b11111011]);
    assert_eq!(flip_bit(&src, 11), vec![0b11111111, 0b11110111]);
    assert_eq!(flip_bit(&src, 12), vec![0b11111111, 0b11101111]);
    assert_eq!(flip_bit(&src, 13), vec![0b11111111, 0b11011111]);
    assert_eq!(flip_bit(&src, 14), vec![0b11111111, 0b10111111]);
    assert_eq!(flip_bit(&src, 15), vec![0b11111111, 0b01111111]);
}

#[test]
fn test_flip_bit_in_twice() {
    let mut buf = [0x5a_u8; 3];
    flip_bit_in(&mut buf, 17);
    assert_eq!(buf, [0x5a, 0x5a, 0x58]);
    flip_bit_in(&mut buf, 17);
    assert_eq!(buf, [0x5a; 3]);
}

#[test]
fn test_bit_flip_iter() {
    let mut set: HashSet<Vec<u8>> = HashSet::new();
    let src = vec![0; 2];
    let mut it = BitFlipIter::new(&src);
    while let Some(dif) = it.next() {
        assert!(set.insert(dif));
    }
    assert_eq!(set.len(), 16);
    set.insert(src);
    assert_eq!(set.len(), 17);
}
