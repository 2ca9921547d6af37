use hyperloglog_rs::bitreader::BitReader;
use hyperloglog_rs::bitstream::words_of_bytes;
use hyperloglog_rs::composite_hash::SaturationError;
use hyperloglog_rs::gap_insert::InsertMetadata;
use hyperloglog_rs::gap_list::PrefixCodeIter;
use hyperloglog_rs::gaps::GapHash;
use hyperloglog_rs::hybrid::intersection_from_sorted_iterators;
use hyperloglog_rs::hyperloglog::index_and_register_and_hash;
use hyperloglog_rs::precisions::{Bits, Bits4, Bits6, Precision, Precision11, Precision12, Precision4, Precision8};
use std::collections::HashSet;

fn splitmix64(state: u64) -> u64 {
    let mut z = state.wrapping_add(0x9E37_79B9_7F4A_7C15);
    z = (z ^ (z >> 30)).wrapping_mul(0xBF58_476D_1CE4_E5B9);
    z = (z ^ (z >> 27)).wrapping_mul(0x94D0_49BB_1331_11EB);
    z ^ (z >> 31)
}

fn random_values(count: usize, seed: u64) -> Vec<u64> {
    let mut state = seed;
    (0..count)
        .map(|_| {
            state = splitmix64(state);
            state
        })
        .collect()
}

#[test]
fn test_rank_index_initialization() {
    for hash_bits in 8..32 {
        let mut hashes = vec![0u64; 256 / 8];
        let rank_index_bitindex_size = GapHash::<Precision11, Bits4>::rank_index_bits();
        assert_eq!(GapHash::<Precision11, Bits4>::rank_index_capacity(), 4);
        GapHash::<Precision11, Bits4>::initialize_rank_index(&mut hashes, hash_bits);

        // The freshly initialised rank index is a series of `rank_index_bitindex_size` ones,
        // each one followed by `hash_bits` zeros.
        let mut reader = BitReader::skip(
            &hashes,
            GapHash::<Precision11, Bits4>::rank_index_offset(&hashes, hash_bits),
        );
        for _ in 0..(GapHash::<Precision11, Bits4>::rank_index_capacity() - 1) {
            assert_eq!(
                reader.read_bits(rank_index_bitindex_size),
                (1 << rank_index_bitindex_size) - 1
            );
            assert_eq!(reader.read_bits(hash_bits), 0);
        }
    }
}

#[test]
fn test_update_rank_index() {
    let mut random_state = 4_575_763_274_578_236u64;
    let mut hashes = vec![0u64; 256 / 8];
    for hash_bits in 8..32u8 {
        random_state = splitmix64(random_state);

        let expected_bucket_size =
            1u32 << (hash_bits - GapHash::<Precision11, Bits4>::rank_index_exponent());

        for value in random_values(100, random_state) {
            // The fake hash is cut down to the current number of hash bits.
            let fake_hash = (value as u32) & ((1u64 << hash_bits) - 1) as u32;

            GapHash::<Precision11, Bits4>::initialize_rank_index(&mut hashes, hash_bits);

            let expected_bucket = GapHash::<Precision11, Bits4>::rank_index_capacity()
                - fake_hash / expected_bucket_size
                - 1;

            // With an empty index the search starts at the beginning of the list, whose first
            // hash is zero here.
            let (bit_index, bucket_hash) =
                GapHash::<Precision11, Bits4>::best_search_start(&hashes, hash_bits, fake_hash);
            assert_eq!(bit_index, 0, "Found unexpected bit index for hash {fake_hash}.");
            assert_eq!(bucket_hash, 0, "Found unexpected bucket hash.");

            let determined_bucket =
                GapHash::<Precision11, Bits4>::rank_index_hash_bucket(hash_bits, fake_hash);
            assert_eq!(determined_bucket, expected_bucket);

            for bit_index in 0..1024 {
                GapHash::<Precision11, Bits4>::initialize_rank_index(&mut hashes, hash_bits);
                GapHash::<Precision11, Bits4>::update_rank_index(
                    &mut hashes,
                    hash_bits,
                    bit_index,
                    fake_hash,
                );

                // The best starting point of a search is now the position of the fake hash.
                let (best_bit_index, best_bucket_hash) =
                    GapHash::<Precision11, Bits4>::best_search_start(&hashes, hash_bits, fake_hash);
                let hash_bucket =
                    GapHash::<Precision11, Bits4>::rank_index_hash_bucket(hash_bits, fake_hash);
                if hash_bucket != 0 {
                    assert_eq!(best_bit_index, bit_index);
                    assert_eq!(best_bucket_hash, fake_hash);
                }
            }
        }
    }
}

#[test]
fn rank_index_keeps_the_largest_hash_of_a_bucket() {
    let mut hashes = vec![0u64; 64];
    let hash_bits = 20u8;
    GapHash::<Precision12, Bits6>::initialize_rank_index(&mut hashes, hash_bits);
    let bucket_size = 1u32 << (hash_bits - GapHash::<Precision12, Bits6>::rank_index_exponent());
    // Two hashes of the bucket just below the largest one.
    let small = 6 * bucket_size + 3;
    let large = 6 * bucket_size + 9;
    GapHash::<Precision12, Bits6>::update_rank_index(&mut hashes, hash_bits, 40, large);
    GapHash::<Precision12, Bits6>::update_rank_index(&mut hashes, hash_bits, 80, small);
    assert_eq!(
        GapHash::<Precision12, Bits6>::best_search_start(&hashes, hash_bits, small),
        (40, large)
    );
    // A hash of a bucket further down with an empty entry falls back on the nearest filled one.
    assert_eq!(
        GapHash::<Precision12, Bits6>::best_search_start(&hashes, hash_bits, 2 * bucket_size),
        (40, large)
    );
    // The largest hashes are in bucket zero, which has no entry.
    let top = 7 * bucket_size + 1;
    assert_eq!(GapHash::<Precision12, Bits6>::rank_index_hash_bucket(hash_bits, top), 0);
    assert_eq!(GapHash::<Precision12, Bits6>::best_search_start(&hashes, hash_bits, top).0, 0);
}

#[test]
fn test_intersection_from_sorted_iterators() {
    let number_of_iterations = 10;
    let mut random_state = splitmix64(3456789456776543);

    for _ in 0..number_of_iterations {
        random_state = splitmix64(random_state);
        let left_len = (random_state % 1000) as usize;
        random_state = splitmix64(random_state);
        let mut left = random_values(left_len, random_state);
        left.sort_unstable_by(|a, b| b.cmp(a));
        left.dedup();
        random_state = splitmix64(random_state);
        let right_len = (random_state % 1000) as usize;
        random_state = splitmix64(random_state);
        let mut right = random_values(right_len, random_state);
        // Some values of the left list are shared.
        right.extend(left.iter().step_by(3).copied());
        right.sort_unstable_by(|a, b| b.cmp(a));
        right.dedup();

        let intersection_cardinality = intersection_from_sorted_iterators(&left, &right);
        let left_set = left.iter().collect::<HashSet<_>>();
        let right_set = right.iter().collect::<HashSet<_>>();
        let unique_values_set = left_set.intersection(&right_set).count() as u32;
        assert_eq!(intersection_cardinality, unique_values_set);
    }
}

#[test]
fn intersection_counts_shared_values_once() {
    assert_eq!(intersection_from_sorted_iterators(&[9, 7, 3, 1], &[8, 7, 3, 0]), 2);
    assert_eq!(intersection_from_sorted_iterators(&[], &[5, 4]), 0);
    assert_eq!(intersection_from_sorted_iterators(&[6, 5, 4], &[6, 5, 4]), 3);
    assert_eq!(intersection_from_sorted_iterators(&[6, 4, 2], &[5, 3, 1]), 0);
}

/// Checks that the rank index of a prefix-free coded list records, for each bucket, the hash
/// that opens it with the bit at which the gap code leading to it starts, and nothing for the
/// buckets that no hash opens.
fn check_rank_index<P: Precision, B: Bits>(hashes: &[u8], hash_bits: u8, bit_index: u32) {
    let words = words_of_bytes(hashes);
    let mut iter = PrefixCodeIter::<P, B>::new(&words, bit_index, hash_bits);
    let mut positions = Vec::new();
    let mut list = Vec::new();
    loop {
        let position = iter.last_read_bit_position();
        match iter.next() {
            Some(hash) => {
                positions.push(position);
                list.push(hash);
            }
            None => break,
        }
    }
    if GapHash::<P, B>::rank_index_hash_bucket(hash_bits, list[0]) != 0 {
        // The first hash opens no bucket: an insertion in its bucket may record a later hash.
        return;
    }
    let bits = GapHash::<P, B>::rank_index_bits();
    let offset = GapHash::<P, B>::rank_index_offset(&words, hash_bits);
    let size = u32::from(bits) + u32::from(hash_bits);
    for bucket in 1..GapHash::<P, B>::rank_index_capacity() {
        let mut reader = BitReader::skip(&words, offset + (bucket - 1) * size);
        let entry_index = reader.read_bits(bits) as u32;
        let entry_hash = reader.read_bits(hash_bits) as u32;
        let opener = (1..list.len()).find(|&i| {
            GapHash::<P, B>::rank_index_hash_bucket(hash_bits, list[i]) == bucket
                && GapHash::<P, B>::rank_index_hash_bucket(hash_bits, list[i - 1]) < bucket
        });
        match opener {
            Some(i) => {
                assert_eq!(entry_index, positions[i]);
                assert_eq!(entry_hash, list[i]);
            }
            None => assert_eq!(entry_index, GapHash::<P, B>::rank_index_mask()),
        }
    }
}

/// Fills a gap hash list of `bytes` bytes with random values, checking after each insertion
/// that every value inserted so far is found and that the list decodes to exactly the
/// registers inserted; returns whether the list went over to prefix-free codes.
fn fill_gap_list<P: Precision, B: Bits>(bytes: usize, seed: u64, count: usize) -> bool {
    let mut hash_bits = GapHash::<P, B>::largest_viable_hash_bits();
    let mut hashes = vec![0u8; bytes];
    let values = random_values(count, seed);
    let mut number_of_hashes = 0u32;
    let mut bit_index = 0u32;
    let mut inserted: Vec<(u8, usize, u64)> = Vec::new();
    let mut coded = false;
    for &value in &values {
        let (index, register, original_hash) = index_and_register_and_hash::<P, B>(value);
        let mut outcome = GapHash::<P, B>::insert_sorted_desc(
            &mut hashes,
            number_of_hashes,
            bit_index,
            index,
            register,
            original_hash,
            hash_bits,
        );
        if outcome == Err(SaturationError::ExtendableSaturation) {
            outcome = GapHash::<P, B>::insert_downgrading(
                &mut hashes,
                number_of_hashes,
                index,
                register,
                original_hash,
                bit_index,
                hash_bits,
            )
            .map(Some);
        }
        match outcome {
            Ok(None) => {}
            Ok(Some(InsertMetadata { hash_bits: new_bits, duplicates, bit_index: new_index })) => {
                number_of_hashes = number_of_hashes + 1 - duplicates;
                hash_bits = new_bits;
                bit_index = new_index;
            }
            Err(_) => break,
        }
        inserted.push((register, index, original_hash));
        if GapHash::<P, B>::is_prefix_free_encoded(number_of_hashes, hash_bits, bit_index) {
            coded = true;
        }
        for &(register, index, original_hash) in &inserted {
            assert!(GapHash::<P, B>::find(
                &hashes,
                number_of_hashes,
                index,
                register,
                original_hash,
                hash_bits,
                bit_index,
            ));
        }
        let words = words_of_bytes(&hashes);
        let mut decoded =
            GapHash::<P, B>::decoded(&hashes, &words, number_of_hashes, hash_bits, bit_index);
        let mut seen = HashSet::new();
        let mut count = 0;
        while let Some(pair) = decoded.next() {
            seen.insert(pair);
            count += 1;
        }
        assert_eq!(count, number_of_hashes as usize);
        let expected: HashSet<(u8, usize)> =
            inserted.iter().map(|&(register, index, _)| (register, index)).collect();
        assert_eq!(seen, expected);
        if GapHash::<P, B>::has_rank_index()
            && GapHash::<P, B>::is_prefix_free_encoded(number_of_hashes, hash_bits, bit_index)
        {
            check_rank_index::<P, B>(&hashes, hash_bits, bit_index);
        }
        let registers =
            GapHash::<P, B>::to_registers(&hashes, number_of_hashes, hash_bits, bit_index);
        let mut largest = vec![0u8; 1usize << P::exponent()];
        for &(register, index, _) in &inserted {
            largest[index] = largest[index].max(register);
        }
        assert_eq!(registers, largest);
    }
    coded
}

#[test]
fn a_plain_list_gives_its_registers() {
    let hashes = [0x71u8, 0x35, 0, 0, 0, 0, 0, 0];
    let registers = GapHash::<Precision4, Bits4>::to_registers(&hashes, 2, 8, 16);
    let mut expected = vec![0u8; 16];
    expected[3] = 5;
    expected[7] = 1;
    assert_eq!(registers, expected);
    let registers = GapHash::<Precision4, Bits4>::to_registers(&hashes, 1, 8, 8);
    assert_eq!(registers[7], 1);
    assert_eq!(registers[3], 0);
}

#[test]
fn gap_list_find_insert_and_code() {
    assert!(fill_gap_list::<Precision8, Bits6>(192, 11, 400));
}

#[test]
fn gap_list_with_rank_index() {
    assert!(fill_gap_list::<Precision12, Bits6>(3072, 23, 1200));
}

#[test]
fn gap_hash_encoding_roundtrip() {
    for value in random_values(1000, 5) {
        let (index, register, original_hash) =
            index_and_register_and_hash::<Precision12, Bits6>(value);
        for hash_bits in 18..=32u8 {
            let encoded = GapHash::<Precision12, Bits6>::encode(index, register, original_hash, hash_bits);
            assert_eq!(GapHash::<Precision12, Bits6>::decode(encoded, hash_bits), (register, index));
        }
    }
}

#[test]
fn gap_fragment_roundtrip() {
    let values = random_values(2000, 77);
    for pair in values.chunks(2) {
        let (i0, r0, h0) = index_and_register_and_hash::<Precision12, Bits6>(pair[0]);
        let (i1, r1, h1) = index_and_register_and_hash::<Precision12, Bits6>(pair[1]);
        for hash_bits in [18u8, 20, 24, 32] {
            let a = GapHash::<Precision12, Bits6>::encode(i0, r0, h0, hash_bits);
            let b = GapHash::<Precision12, Bits6>::encode(i1, r1, h1, hash_bits);
            if a == b {
                continue;
            }
            let (previous, next) = if a > b { (a, b) } else { (b, a) };
            let gap = GapHash::<Precision12, Bits6>::into_gap_fragment(previous, next, hash_bits);
            assert_eq!(GapHash::<Precision12, Bits6>::hash_after_gap(previous, gap, hash_bits), next);
        }
    }
}

#[test]
fn apply_gap_rebases_the_gap_on_a_replacement() {
    let values = random_values(600, 91);
    for triple in values.chunks(3) {
        let mut hashes: Vec<u32> = triple
            .iter()
            .map(|&value| {
                let (index, register, original_hash) =
                    index_and_register_and_hash::<Precision12, Bits6>(value);
                GapHash::<Precision12, Bits6>::encode(index, register, original_hash, 24)
            })
            .collect();
        hashes.sort_unstable_by(|a, b| b.cmp(a));
        hashes.dedup();
        if hashes.len() < 3 {
            continue;
        }
        let (previous, replacement, current) = (hashes[0], hashes[1], hashes[2]);
        let gap = GapHash::<Precision12, Bits6>::into_gap_fragment(previous, current, 24);
        assert_eq!(
            GapHash::<Precision12, Bits6>::apply_gap(current, gap, replacement, 24),
            GapHash::<Precision12, Bits6>::into_gap_fragment(previous, replacement, 24)
        );
    }
}

#[test]
fn reader_starts_at_the_rank_index_entry() {
    let mut hashes = vec![0u64; 64];
    let hash_bits = 20u8;
    GapHash::<Precision12, Bits6>::initialize_rank_index(&mut hashes, hash_bits);
    let bucket_size = 1u32 << (hash_bits - GapHash::<Precision12, Bits6>::rank_index_exponent());
    let large = 6 * bucket_size + 9;
    let small = 6 * bucket_size + 3;
    GapHash::<Precision12, Bits6>::update_rank_index(&mut hashes, hash_bits, 40, large);

    let mut iter =
        PrefixCodeIter::<Precision12, Bits6>::new_with_rank_index(&hashes, 60, hash_bits, small);
    assert_eq!(iter.last_read_bit_position(), 40);
    assert_eq!(iter.next(), Some(large));

    // A hash of the largest bucket starts the reading at the first hash of the list.
    let top = 7 * bucket_size + 1;
    let mut iter =
        PrefixCodeIter::<Precision12, Bits6>::new_with_rank_index(&hashes, 60, hash_bits, top);
    assert_eq!(iter.last_read_bit_position(), 0);
    assert_eq!(iter.next(), Some(0));
}

#[test]
fn bypass_reads_the_rest_of_the_list_in_chunks() {
    let words = vec![0x0123_4567_89AB_CDEFu64, 0xFEDC_BA98_7654_3210, 0];
    let iter = PrefixCodeIter::<Precision12, Bits6>::new(&words, 100, 20);
    let mut bypass = iter.into_bypass();
    assert_eq!(bypass.next(), Some((0x0123_4567_89AB_CDEF, 64)));
    assert_eq!(bypass.next(), Some((0xFEDC_BA98_7654_3210 >> 28, 36)));
    assert_eq!(bypass.next(), None);
}

#[test]
fn rewrite_places_the_new_hash_after_a_trailing_duplicate() {
    // Two hashes of index 2 and register 10 that differ only in the lowest bit kept after the
    // register; cut down to fewer bits they become equal. The new hash, of index 1, is smaller
    // than both, so it goes after the repeated hash.
    let hash_bits = GapHash::<Precision8, Bits6>::largest_viable_hash_bits();
    let width = usize::from(hash_bits / 8);
    let lowest_kept = 64 - u32::from(hash_bits) + 8 + 6;
    let mut stored = vec![
        GapHash::<Precision8, Bits6>::encode(5, 10, 0, hash_bits),
        GapHash::<Precision8, Bits6>::encode(4, 10, 0, hash_bits),
        GapHash::<Precision8, Bits6>::encode(2, 10, 1u64 << lowest_kept, hash_bits),
        GapHash::<Precision8, Bits6>::encode(2, 10, 0, hash_bits),
    ];
    stored.sort_unstable_by(|a, b| b.cmp(a));
    stored.dedup();
    assert_eq!(stored.len(), 4);
    let mut hashes = vec![0u8; 16];
    for (i, hash) in stored.iter().enumerate() {
        hashes[i * width..(i + 1) * width].copy_from_slice(&hash.to_le_bytes()[..width]);
    }
    let metadata = GapHash::<Precision8, Bits6>::insert_downgrading(
        &mut hashes,
        4,
        1,
        10,
        0,
        4 * u32::from(hash_bits),
        hash_bits,
    )
    .unwrap();
    assert!(metadata.hash_bits < hash_bits);
    assert_eq!(metadata.duplicates, 1);
    let words = words_of_bytes(&hashes);
    let mut decoded = GapHash::<Precision8, Bits6>::decoded(
        &hashes,
        &words,
        4,
        metadata.hash_bits,
        metadata.bit_index,
    );
    assert_eq!(decoded.next(), Some((10, 5)));
    assert_eq!(decoded.next(), Some((10, 4)));
    assert_eq!(decoded.next(), Some((10, 2)));
    assert_eq!(decoded.next(), Some((10, 1)));
    assert_eq!(decoded.next(), None);
}

#[test]
fn rank_index_sizes_round_up_to_whole_bytes() {
    assert_eq!(GapHash::<Precision11, Bits4>::rank_index_total_size(16), 87);
    assert_eq!(GapHash::<Precision11, Bits4>::rank_index_padded_size(16), 88);
    assert_eq!(GapHash::<Precision11, Bits4>::rank_index_total_size(100), 339);
    assert_eq!(GapHash::<Precision11, Bits4>::rank_index_padded_size(100), 344);
    assert_eq!(GapHash::<Precision8, Bits6>::rank_index_padded_size(200), 0);
}
