use hyperloglog_rs::metadata_word::{
    add_duplicates, decode_duplicates, decode_hash_bits, decode_number_of_hashes,
    decode_writer_tell, encode_hash_bits, set_duplicates, set_number_of_hashes, set_writer_tell,
};

/// The word of a fresh counter: the bits of minus infinity.
fn fresh_word() -> u64 {
    f64::NEG_INFINITY.to_bits()
}

#[test]
fn test_encode_decode_hash_bits() {
    let mut harmonic_sum = fresh_word();
    for hash_bits in 8..=32 {
        encode_hash_bits(&mut harmonic_sum, hash_bits);
        assert_eq!(decode_hash_bits(harmonic_sum), hash_bits);
    }
    assert_eq!(harmonic_sum.leading_zeros(), 0);
}

#[test]
fn float_bits_ops_test_encode_decode_duplicates() {
    let mut harmonic_sum = fresh_word();
    add_duplicates(&mut harmonic_sum, 0);
    assert_eq!(decode_duplicates(harmonic_sum), 0);
    add_duplicates(&mut harmonic_sum, 1);
    assert_eq!(decode_duplicates(harmonic_sum), 1);
    add_duplicates(&mut harmonic_sum, 2);
    assert_eq!(decode_duplicates(harmonic_sum), 3);
    add_duplicates(&mut harmonic_sum, 3);
    assert_eq!(decode_duplicates(harmonic_sum), 6);
}

#[test]
fn float_bits_ops_test_encode_decode_writer_tell() {
    let mut harmonic_sum = fresh_word();
    set_writer_tell(&mut harmonic_sum, 0);
    assert_eq!(decode_writer_tell(harmonic_sum), 0);
    set_writer_tell(&mut harmonic_sum, 1);
    assert_eq!(decode_writer_tell(harmonic_sum), 1);
    set_writer_tell(&mut harmonic_sum, 2);
    assert_eq!(decode_writer_tell(harmonic_sum), 2);
    set_writer_tell(&mut harmonic_sum, 3);
    assert_eq!(decode_writer_tell(harmonic_sum), 3);
}

#[test]
fn test_encode_decode_number_of_hashes() {
    let mut harmonic_sum = fresh_word();
    set_number_of_hashes(&mut harmonic_sum, 0);
    assert_eq!(decode_number_of_hashes(harmonic_sum), 0);
    set_number_of_hashes(&mut harmonic_sum, 1);
    assert_eq!(decode_number_of_hashes(harmonic_sum), 1);
    set_number_of_hashes(&mut harmonic_sum, 2);
    assert_eq!(decode_number_of_hashes(harmonic_sum), 2);
    set_number_of_hashes(&mut harmonic_sum, 3);
    assert_eq!(decode_number_of_hashes(harmonic_sum), 3);
}

#[test]
fn float_bits_ops_test_mixed_encode_decode_operations() {
    let mut harmonic_sum = fresh_word();
    encode_hash_bits(&mut harmonic_sum, 8);
    assert_eq!(decode_hash_bits(harmonic_sum), 8);
    add_duplicates(&mut harmonic_sum, 1);
    assert_eq!(decode_duplicates(harmonic_sum), 1);
    set_writer_tell(&mut harmonic_sum, 1);
    set_number_of_hashes(&mut harmonic_sum, 1);
    assert_eq!(decode_hash_bits(harmonic_sum), 8);
    assert_eq!(decode_duplicates(harmonic_sum), 1);
    assert_eq!(decode_writer_tell(harmonic_sum), 1);
    assert_eq!(decode_number_of_hashes(harmonic_sum), 1);
    encode_hash_bits(&mut harmonic_sum, 24);
    assert_eq!(decode_hash_bits(harmonic_sum), 24);
    set_writer_tell(&mut harmonic_sum, 100);
    add_duplicates(&mut harmonic_sum, 1);
    assert_eq!(decode_duplicates(harmonic_sum), 2);
    assert_eq!(decode_writer_tell(harmonic_sum), 100);
    set_writer_tell(&mut harmonic_sum, 10);
    assert_eq!(decode_hash_bits(harmonic_sum), 24);
    assert_eq!(decode_duplicates(harmonic_sum), 2);
    assert_eq!(decode_writer_tell(harmonic_sum), 10);
}

#[test]
fn the_fields_are_set_apart_and_keep_the_mode_bit() {
    let mut word = fresh_word();
    set_number_of_hashes(&mut word, 0xf_ffff);
    set_writer_tell(&mut word, 0x1f_ffff);
    set_duplicates(&mut word, 0x1_ffff);
    encode_hash_bits(&mut word, 32);
    assert_eq!(decode_number_of_hashes(word), 0xf_ffff);
    assert_eq!(decode_writer_tell(word), 0x1f_ffff);
    assert_eq!(decode_duplicates(word), 0x1_ffff);
    assert_eq!(decode_hash_bits(word), 32);
    assert_eq!(word >> 63, 1);
    set_duplicates(&mut word, 0);
    assert_eq!(decode_number_of_hashes(word), 0xf_ffff);
    assert_eq!(decode_writer_tell(word), 0x1f_ffff);
    assert_eq!(decode_hash_bits(word), 32);
    assert_eq!(word, 0xffff_ffff_ffc0_0018);
}
