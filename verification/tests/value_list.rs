use hyperloglog_rs::value_list::{contains_value, decode_values, encode, insert_value, total_bit_len, ValueInsertion};

fn splitmix64(state: u64) -> u64 {
    let mut z = state.wrapping_add(0x9E37_79B9_7F4A_7C15);
    z = (z ^ (z >> 30)).wrapping_mul(0xBF58_476D_1CE4_E5B9);
    z = (z ^ (z >> 27)).wrapping_mul(0x94D0_49BB_1331_11EB);
    z ^ (z >> 31)
}

fn random_values(count: usize, maximum: Option<u64>, seed: u64) -> Vec<u64> {
    let mut state = seed;
    (0..count)
        .map(|_| {
            state = splitmix64(state);
            match maximum {
                Some(maximum) => state % maximum,
                None => state,
            }
        })
        .collect()
}

fn check_roundtrip(values_asc: &[u64], words: usize) {
    let mut buffer = vec![0u64; words];
    let tell = encode(&mut buffer, values_asc).expect("the value list should fit");
    assert_eq!(tell, total_bit_len(values_asc), "predicted bit length mismatch");
    let decoded = decode_values(&buffer, values_asc.len() as u32);
    assert_eq!(decoded, values_asc, "round-trip mismatch");
    for &value in values_asc {
        assert!(contains_value(&buffer, values_asc.len() as u32, value));
    }
    if let Some(&max) = values_asc.last() {
        if max < u64::MAX {
            assert!(!contains_value(&buffer, values_asc.len() as u32, max + 1));
        }
    }
}

#[test]
fn test_roundtrip_edge_cases() {
    check_roundtrip(&[], 1);
    check_roundtrip(&[0], 1);
    check_roundtrip(&[u64::MAX], 4);
    check_roundtrip(&[0, u64::MAX], 8);
    check_roundtrip(&[0, 1, 2, 3], 2);
    check_roundtrip(&[10, 11, 12, 1_000_000], 4);
}

#[test]
fn test_roundtrip_random() {
    for seed in 0..32u64 {
        let mut values: Vec<u64> = random_values(200, Some(1 << 40), seed);
        values.sort_unstable();
        values.dedup();
        check_roundtrip(&values, 256);
    }
}

#[test]
fn test_insert_dedup_and_order() {
    let mut buffer = vec![0u64; 64];
    let mut count = 0u32;
    let inserts = [50u64, 10, 30, 10, 20, 50, 40];
    let mut expected: Vec<u64> = Vec::new();
    for value in inserts {
        let outcome = insert_value(&mut buffer, count, value);
        if expected.contains(&value) {
            assert_eq!(outcome, ValueInsertion::Duplicate);
        } else {
            assert_eq!(outcome, ValueInsertion::Inserted);
            count += 1;
            expected.push(value);
        }
    }
    expected.sort_unstable();
    assert_eq!(decode_values(&buffer, count), expected);
}

#[test]
fn test_saturation_reported_not_panic() {
    let mut buffer = vec![0u64; 1];
    let mut count = 0u32;
    let mut saturated = false;
    for value in random_values(64, None, 7) {
        match insert_value(&mut buffer, count, value) {
            ValueInsertion::Inserted => count += 1,
            ValueInsertion::Duplicate => {}
            ValueInsertion::DoesNotFit => {
                saturated = true;
                break;
            }
        }
    }
    assert!(saturated, "the tiny buffer must saturate");
}

#[test]
fn value_list_bit_lengths() {
    // Zero takes one bit, one takes three, and each further value is coded by its gap.
    assert_eq!(total_bit_len(&[]), 0);
    assert_eq!(total_bit_len(&[0]), 1);
    assert_eq!(total_bit_len(&[1]), 3);
    let mut buffer = vec![0u64; 1];
    assert_eq!(encode(&mut buffer, &[u64::MAX, u64::MAX]), None);
}
