use hyperloglog_rs::broadword::{build_lsb_mask, build_msb_mask, merge_max_broadword, subtract};

fn splitmix64(state: u64) -> u64 {
    let mut z = state.wrapping_add(0x9E37_79B9_7F4A_7C15);
    z = (z ^ (z >> 30)).wrapping_mul(0xBF58_476D_1CE4_E5B9);
    z = (z ^ (z >> 27)).wrapping_mul(0x94D0_49BB_1331_11EB);
    z ^ (z >> 31)
}

fn reference_max(dst: &mut [u64], src: &[u64], register_size: usize, num_regs: usize) {
    let mask = (1u64 << register_size) - 1;
    let r = register_size as u32;
    for i in 0..num_regs {
        let stream_pos = i * register_size;
        let word = stream_pos / 64;
        let off = (stream_pos % 64) as u32;
        let d_val = extract_msb_first(dst, word, off, r, mask);
        let s_val = extract_msb_first(src, word, off, r, mask);
        let m_val = d_val.max(s_val);
        insert_msb_first(dst, word, off, r, m_val, mask);
    }
}

fn extract_msb_first(slab: &[u64], word: usize, off: u32, r: u32, mask: u64) -> u64 {
    if off + r <= 64 {
        (slab[word] >> (64 - r - off)) & mask
    } else {
        let low_bits_in_upper = off + r - 64;
        let higher_bits_mask = mask >> low_bits_in_upper;
        let higher_bits = (slab[word] & higher_bits_mask) << low_bits_in_upper;
        let lower_bits = slab[word + 1] >> (64 - low_bits_in_upper);
        higher_bits | lower_bits
    }
}

fn insert_msb_first(slab: &mut [u64], word: usize, off: u32, r: u32, value: u64, mask: u64) {
    if off + r <= 64 {
        let flipped_offset = 64 - r - off;
        slab[word] = (slab[word] & !(mask << flipped_offset)) | (value << flipped_offset);
    } else {
        let n_lower = off + r - 64;
        let lower_bits_mask = (1u64 << n_lower) - 1;
        let higher_bits_mask = mask >> n_lower;
        let lower_bits = value & lower_bits_mask;
        let higher_bits = value >> n_lower;
        slab[word] = (slab[word] & !higher_bits_mask) | higher_bits;
        let shift = 64 - n_lower;
        slab[word + 1] = (slab[word + 1] & !(lower_bits_mask << shift)) | (lower_bits << shift);
    }
}

fn seeded_slab<const N: usize>(register_size: usize, num_regs: usize, seed: u64) -> [u64; N] {
    let register_mask = (1u64 << register_size) - 1;
    let r = register_size as u32;
    let mut slab = [0u64; N];
    let mut state = seed;
    for i in 0..num_regs {
        state = splitmix64(state);
        let v = state & register_mask;
        let stream_pos = i * register_size;
        let word = stream_pos / 64;
        let off = (stream_pos % 64) as u32;
        insert_msb_first(&mut slab, word, off, r, v, register_mask);
    }
    slab
}

#[test]
fn subtract_matches_bigint_semantics() {
    let mut x = [0u64, 5u64];
    subtract(&mut x, &[0u64, 3u64]);
    assert_eq!(x, [0, 2], "5 - 3 without borrow");

    let mut x = [7u64, 5u64];
    subtract(&mut x, &[3u64, 5u64]);
    assert_eq!(x, [4, 0], "equality at LSB word must NOT borrow (word[0]: 7 - 3 = 4)");

    let mut x = [7u64, 3u64];
    subtract(&mut x, &[3u64, 5u64]);
    assert_eq!(x, [3, 3u64.wrapping_sub(5)], "borrow must propagate from LSB to MSB word");

    let mut x = [0u64, 0u64, 0u64];
    subtract(&mut x, &[0u64, 0u64, 1u64]);
    assert_eq!(x, [u64::MAX, u64::MAX, u64::MAX], "three-word borrow chain");

    let mut x = [10u64, 2u64, 5u64];
    subtract(&mut x, &[3u64, 4u64, 5u64]);
    assert_eq!(x, [6, 2u64.wrapping_sub(4), 0], "borrow at mid, MSB pays exactly one");

    let mut x = [10u64, 0u64, 5u64];
    subtract(&mut x, &[3u64, 4u64, 5u64]);
    assert_eq!(x, [6, 0u64.wrapping_sub(4), 0], "equality at LSB word with mid-word borrow");
}

fn check_against_reference<const N: usize>(register_size: usize, num_regs: usize, dst_seed: u64, src_seed: u64) {
    let mut dst: [u64; N] = seeded_slab(register_size, num_regs, dst_seed);
    let src: [u64; N] = seeded_slab(register_size, num_regs, src_seed);
    let mut dst_reference = dst;
    let mut msb_mask = [0u64; N];
    let mut lsb_mask = [0u64; N];
    build_msb_mask(&mut msb_mask, register_size, num_regs);
    build_lsb_mask(&mut lsb_mask, register_size, num_regs);
    let mut acc = [0u64; N];
    let mut mask_scratch = [0u64; N];
    merge_max_broadword(&mut dst, &src, &msb_mask, &lsb_mask, register_size, &mut acc, &mut mask_scratch);
    reference_max(&mut dst_reference, &src, register_size, num_regs);
    assert_eq!(dst, dst_reference, "broadword max must match reference");
}

#[test]
fn broadword_matches_reference_p10b5() {
    check_against_reference::<80>(5, 1024, 0x00A1_1CE0, 0x0000_B0B0);
}

#[test]
fn broadword_matches_reference_p10b4() {
    check_against_reference::<64>(4, 1024, 0x00A1_1CE0, 0x0000_B0B0);
}

#[test]
fn broadword_matches_reference_p10b6() {
    check_against_reference::<96>(6, 1024, 0x00A1_1CE0, 0x0000_B0B0);
}

#[test]
fn broadword_matches_reference_random_seeds() {
    for seed_index in 0..32u64 {
        let mut seed_state = seed_index.wrapping_mul(0x9E37_79B9_7F4A_7C15);
        let dst_seed = splitmix64(seed_state);
        seed_state = seed_state.wrapping_add(0x1234_5678);
        let src_seed = splitmix64(seed_state);
        check_against_reference::<80>(5, 1024, dst_seed, src_seed);
    }
}

#[test]
fn broadword_keeps_padding_and_handles_partial_words() {
    // Three registers of five bits in one word: fifteen bits used, the rest is padding.
    let mut dst = [0b10001_00011_11111u64 << 49];
    let src = [0b01111_00100_00001u64 << 49];
    let mut msb = [0u64];
    let mut lsb = [0u64];
    build_msb_mask(&mut msb, 5, 3);
    build_lsb_mask(&mut lsb, 5, 3);
    assert_eq!(msb[0], 0b10000_10000_10000u64 << 49);
    assert_eq!(lsb[0], 0b00001_00001_00001u64 << 49);
    let mut acc = [0u64];
    let mut scratch = [0u64];
    merge_max_broadword(&mut dst, &src, &msb, &lsb, 5, &mut acc, &mut scratch);
    assert_eq!(dst[0], 0b10001_00100_11111u64 << 49);
}

#[test]
fn masks_place_one_bit_per_register() {
    let mut msb = [0u64; 2];
    let mut lsb = [0u64; 2];
    build_msb_mask(&mut msb, 6, 20);
    build_lsb_mask(&mut lsb, 6, 20);
    for i in 0..20usize {
        let msb_pos = i * 6;
        assert_ne!(msb[msb_pos / 64] & (1u64 << (63 - msb_pos % 64)), 0);
        let lsb_pos = i * 6 + 5;
        assert_ne!(lsb[lsb_pos / 64] & (1u64 << (63 - lsb_pos % 64)), 0);
    }
    assert_eq!(msb[0].count_ones() + msb[1].count_ones(), 20);
    assert_eq!(lsb[0].count_ones() + lsb[1].count_ones(), 20);
}
