use hyperloglog_rs::current::{smallest_viable_hash, CurrentHash};
use hyperloglog_rs::precisions::{Bits4, Bits6, Precision10, Precision16, Precision4, Precision9};

#[test]
fn test_handpicked_current_hash() {
    let original_hash: u64 = 5400060802014620068;
    let index = 4;
    let register = 2;

    assert_eq!(original_hash.leading_zeros(), u32::from(register - 1));
    assert_eq!(original_hash & 0b1111, index as u64);

    let encoded_hash_32 = CurrentHash::<Precision4, Bits4>::encode(index, register, original_hash, 32);
    let expected_hash_32 = 1121548954;
    assert_eq!(encoded_hash_32, expected_hash_32);
    let (register_32, index_32) = CurrentHash::<Precision4, Bits4>::decode(encoded_hash_32, 32);

    assert_eq!(index_32, index);
    assert_eq!(register_32, register);

    let encoded_hash_16 = CurrentHash::<Precision4, Bits4>::encode(index, register, original_hash, 16);
    let (register_16, index_16) = CurrentHash::<Precision4, Bits4>::decode(encoded_hash_16, 16);
    assert_eq!(index_16, index);
    assert_eq!(register_16, register);

    let expected_32: u64 = (4 << (32 - 4))
        + (2 << (32 - 4 - 4))
        + ((5400060802014620068 >> (4 + 32 - 32)) & ((1 << (32 - 4 - 4)) - 1));
    let expected_16: u64 =
        (4 << 12) + (2 << 8) + ((5400060802014620068 >> (4 + 32 - 16)) & 0b11111111);
    assert_eq!(expected_32 >> 16, expected_16);

    assert_eq!(expected_32, expected_hash_32);

    let (register_16, index_16) = CurrentHash::<Precision4, Bits4>::decode(17050, 16);
    assert_eq!(index_16, index);
    assert_eq!(register_16, register);

    let expected_hash_16 = 17113;
    assert_eq!(expected_16, expected_hash_16);
    assert_eq!(encoded_hash_16, expected_hash_16);

    let downgraded_32_to_16 = CurrentHash::<Precision4, Bits4>::downgrade(encoded_hash_32, 32, 16);
    assert_eq!(downgraded_32_to_16, expected_hash_16 as u64);
}

#[test]
fn current_smallest_viable_hash() {
    assert_eq!(smallest_viable_hash::<Precision4, Bits4>(), 8);
    assert_eq!(smallest_viable_hash::<Precision9, Bits4>(), 16);
    assert_eq!(smallest_viable_hash::<Precision9, Bits6>(), 24);
    assert_eq!(smallest_viable_hash::<Precision10, Bits4>(), 16);
    assert_eq!(smallest_viable_hash::<Precision16, Bits4>(), 24);
    assert_eq!(smallest_viable_hash::<Precision16, Bits6>(), 32);
}
