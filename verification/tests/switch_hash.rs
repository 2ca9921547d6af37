use hyperloglog_rs::composite_hash::SaturationError;
use hyperloglog_rs::hyperloglog::{index_and_register_and_hash, split_hash};
use hyperloglog_rs::precisions::{
    Bits, Bits4, Bits5, Bits6, Precision, Precision10, Precision14, Precision18, Precision4,
    Precision8,
};
use hyperloglog_rs::switch::{maximal_viable_switch_hash, smallest_viable_switch_hash, SwitchHash};

fn splitmix64(state: u64) -> u64 {
    let mut z = state.wrapping_add(0x9E37_79B9_7F4A_7C15);
    z = (z ^ (z >> 30)).wrapping_mul(0xBF58_476D_1CE4_E5B9);
    z = (z ^ (z >> 27)).wrapping_mul(0x94D0_49BB_1331_11EB);
    z ^ (z >> 31)
}

fn random_values(count: usize, seed: u64) -> Vec<u64> {
    let mut state = seed;
    (0..count)
        .map(|_| {
            state = splitmix64(state);
            state
        })
        .collect()
}

#[test]
fn test_downgrading_switch_hash_precision4_bits4() {
    let original_hash: u64 = 0b0000000000001001100000001000110110110000010001100010011101000111;
    let index = 7;
    let register = 13;

    let encoded_24 = SwitchHash::<Precision4, Bits4>::encode(index, register, original_hash, 24);
    let (decoded_register_24, decoded_index_24) =
        SwitchHash::<Precision4, Bits4>::decode(encoded_24, 24);
    assert_eq!(decoded_index_24, index);
    assert_eq!(decoded_register_24, register);

    let encoded_16 = SwitchHash::<Precision4, Bits4>::encode(index, register, original_hash, 16);
    let (decoded_register_16, decoded_index_16) =
        SwitchHash::<Precision4, Bits4>::decode(encoded_16, 16);
    assert_eq!(decoded_index_16, index);
    assert_eq!(decoded_register_16, register);

    let downgraded_24_to_16 = SwitchHash::<Precision4, Bits4>::downgrade(encoded_24, 24, 8);
    assert_eq!(
        downgraded_24_to_16, encoded_16,
        "The downgraded hash ({downgraded_24_to_16:016b}) is not as expected ({encoded_16:016b})"
    );
}

#[test]
fn test_downgrading_switch_hash_precision4_bits4_2() {
    let original_hash: u64 =
        0b0000_0000_0000_0111_0110_0011_0111_1101_0011_1000_1011_0110_1001_0010_1110_0111;
    let index = 7;
    let register = 14;

    let encoded_24 = SwitchHash::<Precision4, Bits4>::encode(index, register, original_hash, 24);
    let (decoded_register_24, decoded_index_24) =
        SwitchHash::<Precision4, Bits4>::decode(encoded_24, 24);
    assert_eq!(decoded_index_24, index);
    assert_eq!(decoded_register_24, register);

    let encoded_16 = SwitchHash::<Precision4, Bits4>::encode(index, register, original_hash, 16);
    let (decoded_register_16, decoded_index_16) =
        SwitchHash::<Precision4, Bits4>::decode(encoded_16, 16);
    assert_eq!(decoded_index_16, index);
    assert_eq!(decoded_register_16, register);

    let downgraded_24_to_16 = SwitchHash::<Precision4, Bits4>::downgrade(encoded_24, 24, 8);
    assert_eq!(
        downgraded_24_to_16, encoded_16,
        "The downgraded hash ({downgraded_24_to_16:016b}) is not as expected ({encoded_16:016b})"
    );
}

fn compose_scompose<P: Precision, B: Bits>() {
    let smallest = P::exponent() + B::number_of_bits();
    let largest = maximal_viable_switch_hash::<P, B>();
    for value in random_values(2_000, 42) {
        let (index, register, original_hash) = index_and_register_and_hash::<P, B>(value);
        for hash_bits in smallest..=largest.max(smallest) {
            let encoded_hash = SwitchHash::<P, B>::encode(index, register, original_hash, hash_bits);
            assert!(u64::from(encoded_hash) < 1u64 << hash_bits);
            let fragment = SwitchHash::<P, B>::scompose_hash(encoded_hash, hash_bits);
            assert_eq!(fragment.index, u32::try_from(index).unwrap());
            assert_eq!(fragment.register, register);
            let recomposed = SwitchHash::<P, B>::compose_hash(
                fragment.index,
                fragment.register,
                fragment.hash_remainder,
                hash_bits,
            );
            assert_eq!(recomposed, encoded_hash);
            for shift in 0..=(hash_bits - smallest) {
                let downgraded = SwitchHash::<P, B>::downgrade(encoded_hash, hash_bits, shift);
                let direct =
                    SwitchHash::<P, B>::encode(index, register, original_hash, hash_bits - shift);
                assert_eq!(downgraded, direct);
            }
        }
    }
}

#[test]
fn test_compose_scompose_hash() {
    compose_scompose::<Precision4, Bits4>();
    compose_scompose::<Precision4, Bits6>();
    compose_scompose::<Precision8, Bits5>();
    compose_scompose::<Precision10, Bits4>();
    compose_scompose::<Precision14, Bits6>();
    compose_scompose::<Precision18, Bits5>();
}

#[test]
fn viable_hash_bits() {
    assert_eq!(smallest_viable_switch_hash::<Precision4, Bits4>(), 8);
    assert_eq!(smallest_viable_switch_hash::<Precision10, Bits6>(), 16);
    assert_eq!(smallest_viable_switch_hash::<Precision14, Bits4>(), 24);
    assert_eq!(maximal_viable_switch_hash::<Precision4, Bits4>(), 8);
    assert_eq!(maximal_viable_switch_hash::<Precision4, Bits5>(), 16);
    assert_eq!(maximal_viable_switch_hash::<Precision10, Bits5>(), 24);
    assert_eq!(maximal_viable_switch_hash::<Precision18, Bits5>(), 32);
}

#[test]
fn split_hash_counts_leading_zeros() {
    let (index, register, hash) = split_hash::<Precision4, Bits4>(0x0000_0000_0000_0007);
    assert_eq!((index, hash), (7, 7));
    // The count is capped by the bit at position 64 - 15 = 49.
    assert_eq!(register, 15);
    let (index, register, _) = split_hash::<Precision4, Bits6>(0x8000_0000_0000_0003);
    assert_eq!((index, register), (3, 1));
    let (_, register, _) = split_hash::<Precision8, Bits6>(0);
    // Only the bit just above the index bounds the count.
    assert_eq!(register, 56);
}

#[test]
fn hash_list_find_insert_and_downgrade() {
    let mut hashes = vec![0u8; 3 * 6];
    let mut number_of_hashes = 0u32;
    let mut reference: Vec<u32> = Vec::new();
    let mut saturated = false;
    for value in random_values(40, 7) {
        let (index, register, original_hash) = index_and_register_and_hash::<Precision8, Bits5>(value);
        let encoded = SwitchHash::<Precision8, Bits5>::encode(index, register, original_hash, 24);
        let outcome = SwitchHash::<Precision8, Bits5>::insert_sorted_desc(
            &mut hashes,
            number_of_hashes,
            number_of_hashes * 24,
            index,
            register,
            original_hash,
            24,
        );
        match outcome {
            Ok(Some(bits)) => {
                assert!(!reference.contains(&encoded));
                number_of_hashes += 1;
                assert_eq!(bits, number_of_hashes * 24);
                reference.push(encoded);
            }
            Ok(None) => assert!(reference.contains(&encoded)),
            Err(error) => {
                assert_eq!(error, SaturationError::ExtendableSaturation);
                saturated = true;
                break;
            }
        }
        assert!(SwitchHash::<Precision8, Bits5>::find(
            &hashes,
            number_of_hashes,
            index,
            register,
            original_hash,
            24,
            number_of_hashes * 24,
        ));
    }
    assert!(saturated);
    reference.sort_unstable_by(|a, b| b.cmp(a));
    let mut decoded = SwitchHash::<Precision8, Bits5>::downgraded(&hashes, number_of_hashes, 24, number_of_hashes * 24, 0);
    for &expected in &reference {
        assert_eq!(decoded.next(), Some(expected));
    }
    assert_eq!(decoded.next(), None);

    let mut expected_downgraded: Vec<u32> = reference
        .iter()
        .map(|&hash| SwitchHash::<Precision8, Bits5>::downgrade(hash, 24, 8))
        .collect();
    expected_downgraded.dedup();
    let (duplicates, bit_index) = SwitchHash::<Precision8, Bits5>::downgrade_inplace(
        &mut hashes,
        number_of_hashes,
        number_of_hashes * 24,
        24,
        8,
    );
    assert_eq!(duplicates as usize, reference.len() - expected_downgraded.len());
    assert_eq!(bit_index as usize, expected_downgraded.len() * 16);
    for (i, &expected) in expected_downgraded.iter().enumerate() {
        assert_eq!(u32::from(u16::from_le_bytes([hashes[2 * i], hashes[2 * i + 1]])), expected);
    }
}

#[test]
fn values_are_hashed_with_xxhash64() {
    for value in [0u64, 1, 42, u64::MAX, 0x0123_4567_89AB_CDEF] {
        let expected = twox_hash::XxHash64::oneshot(0, &value.to_le_bytes());
        let (index, register, hash) = index_and_register_and_hash::<Precision10, Bits6>(value);
        assert_eq!(hash, expected);
        assert_ne!(hash, value);
        assert_eq!(index as u64, hash & ((1 << 10) - 1));
        let (split_index, split_register, split_hash) = split_hash::<Precision10, Bits6>(expected);
        assert_eq!((split_index, split_register, split_hash), (index, register, hash));
    }
}
