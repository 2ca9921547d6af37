//! The metadata word of a counter that holds a hash list: the 64 bits that, once the counter
//! holds registers, carry its harmonic sum. While it holds a hash list, the word keeps, from the
//! lowest bit up, the number of bits of each hash (less eight, in 5 bits), the number of
//! duplicates met (17 bits), the bit index where the writer stopped (21 bits) and the number
//! of hashes (20 bits); the highest bit tells the modes apart and is left alone.
use vstd::prelude::*;

verus! {

/// The number of bits that keep the number of bits of each hash.
pub const BITS_FOR_HASH_BITS: u64 = 5;

/// The number of bits that keep the number of duplicates.
pub const BITS_FOR_DUPLICATES: u64 = 17;

/// Where the number of duplicates starts.
pub const DUPLICATES_OFFSET: u64 = 5;

/// The number of bits that keep the writer's bit index.
pub const BITS_FOR_WRITER_TELL: u64 = 21;

/// Where the writer's bit index starts.
pub const WRITER_TELL_OFFSET: u64 = 22;

/// The number of bits that keep the number of hashes.
pub const BITS_FOR_NUMBER_OF_HASHES: u64 = 20;

/// Where the number of hashes starts.
pub const NUMBER_OF_HASHES_OFFSET: u64 = 43;

/// The largest field value of the number of bits of each hash.
pub const HASH_BITS_MASK: u64 = 31;

/// The largest number of duplicates the word keeps.
pub const DUPLICATES_MASK: u64 = 0x1_ffff;

/// The largest bit index the word keeps.
pub const WRITER_TELL_MASK: u64 = 0x1f_ffff;

/// The largest number of hashes the word keeps.
pub const NUMBER_OF_HASHES_MASK: u64 = 0xf_ffff;

/// The `len` bits of `word` from bit `offset` up.
pub open spec fn field(word: u64, offset: u64, len: u64) -> u64 {
    (word >> offset) & (((1u64 << len) - 1) as u64)
}

/// `word` with its `len` bits from bit `offset` up replaced by `value`.
pub open spec fn with_field(word: u64, value: u64, offset: u64, len: u64) -> u64 {
    (word & !((((1u64 << len) - 1) as u64) << offset)) | (value << offset)
}

/// The number of bits of each hash, less eight, that the word keeps.
pub open spec fn stored_hash_bits(word: u64) -> u64 {
    field(word, 0, BITS_FOR_HASH_BITS)
}

/// The number of duplicates that the word keeps.
pub open spec fn stored_duplicates(word: u64) -> u64 {
    field(word, DUPLICATES_OFFSET, BITS_FOR_DUPLICATES)
}

/// The writer's bit index that the word keeps.
pub open spec fn stored_writer_tell(word: u64) -> u64 {
    field(word, WRITER_TELL_OFFSET, BITS_FOR_WRITER_TELL)
}

/// The number of hashes that the word keeps.
pub open spec fn stored_number_of_hashes(word: u64) -> u64 {
    field(word, NUMBER_OF_HASHES_OFFSET, BITS_FOR_NUMBER_OF_HASHES)
}

/// The bit that tells the modes apart.
pub open spec fn mode_bit(word: u64) -> u64 {
    field(word, 63, 1)
}

/// Replacing a field gives back the new value there, keeps every field that does not overlap
/// it, and no field holds more than its mask.
proof fn lemma_with_field(word: u64, value: u64, offset: u64, len: u64, other_offset: u64, other_len: u64)
    requires
        0 < len < 64,
        offset + len <= 64,
        value <= ((1u64 << len) - 1) as u64,
        0 < other_len < 64,
        other_offset + other_len <= 64,
        other_offset + other_len <= offset || offset + len <= other_offset,
    ensures
        field(with_field(word, value, offset, len), offset, len) == value,
        field(with_field(word, value, offset, len), other_offset, other_len) == field(
            word,
            other_offset,
            other_len,
        ),
        field(word, offset, len) <= ((1u64 << len) - 1) as u64,
{
    let mask = ((1u64 << len) - 1) as u64;
    let other_mask = ((1u64 << other_len) - 1) as u64;
    let replaced = (word & !(mask << offset)) | (value << offset);
    assert(((replaced >> offset) & mask == value) && ((replaced >> other_offset) & other_mask == (
    word >> other_offset) & other_mask) && ((word >> offset) & mask <= mask)) by (bit_vector)
        requires
            0 < len < 64,
            offset + len <= 64,
            mask == ((1u64 << len) - 1) as u64,
            other_mask == ((1u64 << other_len) - 1) as u64,
            value <= mask,
            0 < other_len < 64,
            other_offset + other_len <= 64,
            other_offset + other_len <= offset || offset + len <= other_offset,
            replaced == (word & !(mask << offset)) | (value << offset),
    ;
}

/// The masks of the fields, as shifts spell them.
proof fn lemma_masks()
    ensures
        ((1u64 << BITS_FOR_HASH_BITS) - 1) as u64 == HASH_BITS_MASK,
        ((1u64 << BITS_FOR_DUPLICATES) - 1) as u64 == DUPLICATES_MASK,
        ((1u64 << BITS_FOR_WRITER_TELL) - 1) as u64 == WRITER_TELL_MASK,
        ((1u64 << BITS_FOR_NUMBER_OF_HASHES) - 1) as u64 == NUMBER_OF_HASHES_MASK,
        ((1u64 << 1u64) - 1) as u64 == 1,
{
    vstd::arithmetic::power2::lemma2_to64();
    vstd::bits::lemma_u64_shl_is_mul(1, BITS_FOR_HASH_BITS);
    vstd::bits::lemma_u64_shl_is_mul(1, BITS_FOR_DUPLICATES);
    vstd::bits::lemma_u64_shl_is_mul(1, BITS_FOR_WRITER_TELL);
    vstd::bits::lemma_u64_shl_is_mul(1, BITS_FOR_NUMBER_OF_HASHES);
    vstd::bits::lemma_u64_shl_is_mul(1, 1);
}

/// Writing `value` into the field at `offset` of `len` bits keeps the other fields and the
/// mode bit, and gives `value` back.
proof fn lemma_replace(word: u64, value: u64, offset: u64, len: u64)
    requires
        (offset, len) == (0u64, BITS_FOR_HASH_BITS) || (offset, len) == (DUPLICATES_OFFSET, BITS_FOR_DUPLICATES)
            || (offset, len) == (WRITER_TELL_OFFSET, BITS_FOR_WRITER_TELL) || (offset, len) == (
            NUMBER_OF_HASHES_OFFSET,
            BITS_FOR_NUMBER_OF_HASHES,
        ),
        value <= ((1u64 << len) - 1) as u64,
    ensures
        field(with_field(word, value, offset, len), offset, len) == value,
        offset != 0 ==> stored_hash_bits(with_field(word, value, offset, len)) == stored_hash_bits(word),
        offset != DUPLICATES_OFFSET ==> stored_duplicates(with_field(word, value, offset, len))
            == stored_duplicates(word),
        offset != WRITER_TELL_OFFSET ==> stored_writer_tell(with_field(word, value, offset, len))
            == stored_writer_tell(word),
        offset != NUMBER_OF_HASHES_OFFSET ==> stored_number_of_hashes(
            with_field(word, value, offset, len),
        ) == stored_number_of_hashes(word),
        mode_bit(with_field(word, value, offset, len)) == mode_bit(word),
{
    lemma_with_field(word, value, offset, len, 63, 1);
    if offset != 0 {
        lemma_with_field(word, value, offset, len, 0, BITS_FOR_HASH_BITS);
    }
    if offset != DUPLICATES_OFFSET {
        lemma_with_field(word, value, offset, len, DUPLICATES_OFFSET, BITS_FOR_DUPLICATES);
    }
    if offset != WRITER_TELL_OFFSET {
        lemma_with_field(word, value, offset, len, WRITER_TELL_OFFSET, BITS_FOR_WRITER_TELL);
    }
    if offset != NUMBER_OF_HASHES_OFFSET {
        lemma_with_field(word, value, offset, len, NUMBER_OF_HASHES_OFFSET, BITS_FOR_NUMBER_OF_HASHES);
    }
}

/// Every field holds at most its mask.
proof fn lemma_field_bounds(word: u64)
    ensures
        stored_hash_bits(word) <= HASH_BITS_MASK,
        stored_duplicates(word) <= DUPLICATES_MASK,
        stored_writer_tell(word) <= WRITER_TELL_MASK,
        stored_number_of_hashes(word) <= NUMBER_OF_HASHES_MASK,
{
    lemma_masks();
    lemma_with_field(word, 0, 0, BITS_FOR_HASH_BITS, 63, 1);
    lemma_with_field(word, 0, DUPLICATES_OFFSET, BITS_FOR_DUPLICATES, 63, 1);
    lemma_with_field(word, 0, WRITER_TELL_OFFSET, BITS_FOR_WRITER_TELL, 63, 1);
    lemma_with_field(word, 0, NUMBER_OF_HASHES_OFFSET, BITS_FOR_NUMBER_OF_HASHES, 63, 1);
}

/// Stores the number of bits of each hash, `target_hash`, in the word, leaving the other
/// fields and the mode bit as they were.
pub fn encode_hash_bits(word: &mut u64, target_hash: u8)
    requires
        8 <= target_hash <= 32,
    ensures
        *final(word) == with_field(*old(word), (target_hash - 8) as u64, 0, BITS_FOR_HASH_BITS),
        stored_hash_bits(*final(word)) == target_hash - 8,
        stored_duplicates(*final(word)) == stored_duplicates(*old(word)),
        stored_writer_tell(*final(word)) == stored_writer_tell(*old(word)),
        stored_number_of_hashes(*final(word)) == stored_number_of_hashes(*old(word)),
        mode_bit(*final(word)) == mode_bit(*old(word)),
{
    proof {
        lemma_masks();
        lemma_replace(*word, (target_hash - 8) as u64, 0, BITS_FOR_HASH_BITS);
    }
    proof {
        vstd::arithmetic::power2::lemma2_to64();
        vstd::bits::lemma_u64_shl_is_mul(HASH_BITS_MASK, 0);
        vstd::bits::lemma_u64_shl_is_mul((target_hash - 8) as u64, 0);
    }
    *word = (*word & !HASH_BITS_MASK) | ((target_hash - 8) as u64);
}

/// The number of bits of each hash that the word keeps.
pub fn decode_hash_bits(word: u64) -> (hash_bits: u8)
    ensures
        hash_bits == stored_hash_bits(word) + 8,
{
    proof {
        lemma_masks();
        lemma_field_bounds(word);
    }
    proof {
        vstd::bits::lemma_u64_shr_is_div(word, 0);
        vstd::arithmetic::power2::lemma2_to64();
    }
    (word & HASH_BITS_MASK) as u8 + 8
}

/// Stores the number of duplicates in the word, leaving the other fields and the mode bit as
/// they were.
pub fn set_duplicates(word: &mut u64, duplicates: u32)
    requires
        duplicates <= DUPLICATES_MASK,
    ensures
        *final(word) == with_field(*old(word), duplicates as u64, DUPLICATES_OFFSET, BITS_FOR_DUPLICATES),
        stored_duplicates(*final(word)) == duplicates,
        stored_hash_bits(*final(word)) == stored_hash_bits(*old(word)),
        stored_writer_tell(*final(word)) == stored_writer_tell(*old(word)),
        stored_number_of_hashes(*final(word)) == stored_number_of_hashes(*old(word)),
        mode_bit(*final(word)) == mode_bit(*old(word)),
{
    proof {
        lemma_masks();
        lemma_replace(*word, duplicates as u64, DUPLICATES_OFFSET, BITS_FOR_DUPLICATES);
    }
    *word = (*word & !(DUPLICATES_MASK << DUPLICATES_OFFSET)) | ((duplicates as u64) << DUPLICATES_OFFSET);
}

/// The number of duplicates that the word keeps.
pub fn decode_duplicates(word: u64) -> (duplicates: u32)
    ensures
        duplicates == stored_duplicates(word),
{
    proof {
        lemma_masks();
        lemma_field_bounds(word);
    }
    ((word >> DUPLICATES_OFFSET) & DUPLICATES_MASK) as u32
}

/// Adds `new_duplicates` to the number of duplicates that the word keeps, leaving the other
/// fields and the mode bit as they were.
pub fn add_duplicates(word: &mut u64, new_duplicates: u32)
    requires
        stored_duplicates(*old(word)) + new_duplicates <= DUPLICATES_MASK,
    ensures
        stored_duplicates(*final(word)) == stored_duplicates(*old(word)) + new_duplicates,
        stored_hash_bits(*final(word)) == stored_hash_bits(*old(word)),
        stored_writer_tell(*final(word)) == stored_writer_tell(*old(word)),
        stored_number_of_hashes(*final(word)) == stored_number_of_hashes(*old(word)),
        mode_bit(*final(word)) == mode_bit(*old(word)),
{
    let current = decode_duplicates(*word);
    set_duplicates(word, current + new_duplicates);
}

/// Stores the writer's bit index in the word, leaving the other fields and the mode bit as
/// they were.
pub fn set_writer_tell(word: &mut u64, bit_index: u32)
    requires
        bit_index <= WRITER_TELL_MASK,
    ensures
        *final(word) == with_field(*old(word), bit_index as u64, WRITER_TELL_OFFSET, BITS_FOR_WRITER_TELL),
        stored_writer_tell(*final(word)) == bit_index,
        stored_hash_bits(*final(word)) == stored_hash_bits(*old(word)),
        stored_duplicates(*final(word)) == stored_duplicates(*old(word)),
        stored_number_of_hashes(*final(word)) == stored_number_of_hashes(*old(word)),
        mode_bit(*final(word)) == mode_bit(*old(word)),
{
    proof {
        lemma_masks();
        lemma_replace(*word, bit_index as u64, WRITER_TELL_OFFSET, BITS_FOR_WRITER_TELL);
    }
    *word = (*word & !(WRITER_TELL_MASK << WRITER_TELL_OFFSET)) | ((bit_index as u64) << WRITER_TELL_OFFSET);
}

/// The writer's bit index that the word keeps.
pub fn decode_writer_tell(word: u64) -> (bit_index: u32)
    ensures
        bit_index == stored_writer_tell(word),
{
    proof {
        lemma_masks();
        lemma_field_bounds(word);
    }
    ((word >> WRITER_TELL_OFFSET) & WRITER_TELL_MASK) as u32
}

/// Stores the number of hashes in the word, leaving the other fields and the mode bit as they
/// were.
pub fn set_number_of_hashes(word: &mut u64, number_of_hashes: u32)
    requires
        number_of_hashes <= NUMBER_OF_HASHES_MASK,
    ensures
        *final(word) == with_field(
            *old(word),
            number_of_hashes as u64,
            NUMBER_OF_HASHES_OFFSET,
            BITS_FOR_NUMBER_OF_HASHES,
        ),
        stored_number_of_hashes(*final(word)) == number_of_hashes,
        stored_hash_bits(*final(word)) == stored_hash_bits(*old(word)),
        stored_duplicates(*final(word)) == stored_duplicates(*old(word)),
        stored_writer_tell(*final(word)) == stored_writer_tell(*old(word)),
        mode_bit(*final(word)) == mode_bit(*old(word)),
{
    proof {
        lemma_masks();
        lemma_replace(*word, number_of_hashes as u64, NUMBER_OF_HASHES_OFFSET, BITS_FOR_NUMBER_OF_HASHES);
    }
    *word = (*word & !(NUMBER_OF_HASHES_MASK << NUMBER_OF_HASHES_OFFSET)) | ((number_of_hashes as u64)
        << NUMBER_OF_HASHES_OFFSET);
}

/// The number of hashes that the word keeps.
pub fn decode_number_of_hashes(word: u64) -> (number_of_hashes: u32)
    ensures
        number_of_hashes == stored_number_of_hashes(word),
{
    proof {
        lemma_masks();
        lemma_field_bounds(word);
    }
    ((word >> NUMBER_OF_HASHES_OFFSET) & NUMBER_OF_HASHES_MASK) as u32
}

} // verus!
