//! The current hash: a composite hash that keeps, most significant bit first, the register
//! index, the register value and the bits of the original hash that still fit.
//!
//! ```text
//! | index (p bits) | register (b bits) | following bits of the original hash |
//! ```
//!
//! Sorting composite hashes sorts them by index first, and cutting the lowest bits of a
//! composite hash gives the composite hash with fewer bits.
use crate::precisions::{mask_of, register_mask, Bits, Precision};
use vstd::prelude::*;

verus! {

/// The composite hash that stores index, register and leading hash bits side by side.
#[derive(Debug)]
pub struct CurrentHash<P: Precision, B: Bits> {
    _precision: core::marker::PhantomData<P>,
    _bits: core::marker::PhantomData<B>,
}

/// The lowest `n` bits of a 64-bit word set.
pub open spec fn low_mask64(n: u64) -> u64 {
    ((1u64 << n) - 1) as u64
}

/// The composite hash of `hb` bits of the register `register` of index `index`, with the
/// bits of `hash` from bit `p + 32 - hb` on below them.
pub open spec fn current_encoding(p: u64, b: u64, index: u64, register: u64, hash: u64, hb: u64) -> u64 {
    (index << ((hb - p) as u64)) | (register << ((hb - b - p) as u64)) | ((hash >> ((p + 32
        - hb) as u64)) & low_mask64((hb - b - p) as u64))
}

/// The register and the index that a composite hash of `hb` bits holds.
pub open spec fn current_decoding(p: u64, b: u64, hash: u64, hb: u64) -> (u64, u64) {
    ((hash >> ((hb - b - p) as u64)) & register_mask(b as u8), hash >> ((hb - p) as u64))
}

/// The smallest number of bits of a current hash.
pub open spec fn smallest_viable_current_bits(p: u8, b: u8) -> u8 {
    if p == 4 && b == 4 {
        8
    } else if p < 9 || (p == 9 && b < 6) || (p == 10 && b < 5) {
        16
    } else if p <= 15 || (p == 16 && b < 6) {
        24
    } else {
        32
    }
}

/// Returns the smallest number of bits of a current hash for precision `P` and registers of
/// `B` bits.
pub fn smallest_viable_hash<P: Precision, B: Bits>() -> (bits: u8)
    ensures
        bits == smallest_viable_current_bits(P::spec_exponent(), B::spec_number_of_bits()),
{
    let p = P::exponent();
    let b = B::number_of_bits();
    if p == 4 && b == 4 {
        return 8;
    }
    if p < 9 || p == 9 && b < 6 || p == 10 && b < 5 {
        return 16;
    }
    if p <= 15 || p == 16 && b < 6 {
        return 24;
    }
    32
}

impl<P: Precision, B: Bits> CurrentHash<P, B> {
    /// Encodes the register `register` of index `index`, taken from the original hash
    /// `original_hash`, into a composite hash of `hash_bits` bits.
    pub fn encode(index: usize, register: u8, original_hash: u64, hash_bits: u8) -> (encoded: u64)
        requires
            P::spec_exponent() + B::spec_number_of_bits() <= hash_bits <= P::spec_exponent() + 32,
        ensures
            encoded == current_encoding(
                P::spec_exponent() as u64,
                B::spec_number_of_bits() as u64,
                index as u64,
                register as u64,
                original_hash,
                hash_bits as u64,
            ),
    {
        proof {
            P::lemma_exponent_range();
            B::lemma_number_of_bits_range();
        }
        let p = P::exponent() as u64;
        let b = B::number_of_bits() as u64;
        let hb = hash_bits as u64;
        let low = hb - b - p;
        proof {
            crate::bitstream::lemma_shl_one_positive(low);
        }
        ((index as u64) << (hb - p)) | ((register as u64) << low) | ((original_hash >> (p + 32
            - hb)) & ((1u64 << low) - 1u64))
    }

    /// Decodes a composite hash of `hash_bits` bits into its register and its index.
    pub fn decode(hash: u64, hash_bits: u8) -> (decoded: (u8, usize))
        requires
            P::spec_exponent() + B::spec_number_of_bits() <= hash_bits <= P::spec_exponent() + 32,
            hash >> (hash_bits as u64) == 0,
        ensures
            (decoded.0 as u64, decoded.1 as u64) == current_decoding(
                P::spec_exponent() as u64,
                B::spec_number_of_bits() as u64,
                hash,
                hash_bits as u64,
            ),
    {
        proof {
            P::lemma_exponent_range();
            B::lemma_number_of_bits_range();
        }
        let p = P::exponent() as u64;
        let b = B::number_of_bits() as u64;
        let hb = hash_bits as u64;
        let index_bits = hash >> (hb - p);
        proof {
            assert(index_bits < 0x1_0000_0000) by (bit_vector)
                requires
                    index_bits == hash >> ((hb - p) as u64),
                    hash >> hb == 0,
                    hb <= p + 32,
                    p < hb,
                    p <= 18,
            ;
        }
        let index = index_bits as usize;
        let mask = mask_of::<B>();
        let register_bits = (hash >> (hb - b - p)) & mask;
        proof {
            assert(register_bits <= 63) by (bit_vector)
                requires
                    register_bits == (hash >> ((hb - b - p) as u64)) & mask,
                    mask <= 63,
            ;
        }
        (register_bits as u8, index)
    }

    /// Cuts a composite hash down by `shift` bits: its lowest bits go.
    pub fn downgrade(hash: u64, hash_bits: u8, shift: u8) -> (downgraded: u64)
        requires
            shift < hash_bits,
            shift < 64,
        ensures
            downgraded == hash >> (shift as u64),
    {
        hash >> (shift as u64)
    }
}

/// A composite hash holds the register and the index it was made from, and fits in its bits.
pub proof fn lemma_current_decode_encode(
    p: u64,
    b: u64,
    index: u64,
    register: u64,
    hash: u64,
    hb: u64,
)
    requires
        4 <= p <= 18,
        4 <= b <= 6,
        p + b <= hb <= p + 32,
        index < (1u64 << p),
        register <= register_mask(b as u8),
    ensures
        current_decoding(p, b, current_encoding(p, b, index, register, hash, hb), hb) == (
            register,
            index,
        ),
        current_encoding(p, b, index, register, hash, hb) >> hb == 0,
{
    let m = register_mask(b as u8);
    let e = current_encoding(p, b, index, register, hash, hb);
    assert((e >> ((hb - b - p) as u64)) & m == register && e >> ((hb - p) as u64) == index && e
        >> hb == 0) by (bit_vector)
        requires
            e == (index << ((hb - p) as u64)) | (register << ((hb - b - p) as u64)) | ((hash >> ((p
                + 32 - hb) as u64)) & (((1u64 << ((hb - b - p) as u64)) - 1) as u64)),
            index < (1u64 << p),
            register <= m,
            m == 15 && b == 4 || m == 31 && b == 5 || m == 63 && b == 6,
            4 <= p <= 18,
            p + b <= hb <= p + 32,
    ;
}

/// Cutting a composite hash of `hb` bits down by `shift` bits gives the composite hash of
/// `hb - shift` bits.
pub proof fn lemma_current_downgrade_encode(
    p: u64,
    b: u64,
    index: u64,
    register: u64,
    hash: u64,
    hb: u64,
    shift: u64,
)
    requires
        4 <= p <= 18,
        4 <= b <= 6,
        p + b + shift <= hb <= p + 32,
        index < (1u64 << p),
        register <= register_mask(b as u8),
    ensures
        current_encoding(p, b, index, register, hash, hb) >> shift == current_encoding(
            p,
            b,
            index,
            register,
            hash,
            (hb - shift) as u64,
        ),
{
    let h2 = (hb - shift) as u64;
    let x = index << ((hb - p) as u64);
    let y = register << ((hb - b - p) as u64);
    let z = (hash >> ((p + 32 - hb) as u64)) & (((1u64 << ((hb - b - p) as u64)) - 1) as u64);
    assert((x | y | z) >> shift == (x >> shift) | (y >> shift) | (z >> shift)) by (bit_vector);
    assert(x >> shift == index << ((h2 - p) as u64)) by (bit_vector)
        requires
            x == index << ((hb - p) as u64),
            h2 == hb - shift,
            index < (1u64 << p),
            4 <= p <= 18,
            p < h2,
            hb <= p + 32,
    ;
    let a = (hb - b - p) as u64;
    let c = (p + 32 - hb) as u64;
    assert((register << a) >> shift == register << ((a - shift) as u64)) by (bit_vector)
        requires
            register < 64,
            shift <= a,
            a <= 28,
    ;
    assert(((hash >> c) & (((1u64 << a) - 1) as u64)) >> shift == (hash >> ((c + shift) as u64)) & (((
    1u64 << ((a - shift) as u64)) - 1) as u64)) by (bit_vector)
        requires
            shift <= a,
            a <= 28,
            c + a <= 28,
    ;
    assert((h2 - b - p) as u64 == (a - shift) as u64);
    assert((p + 32 - h2) as u64 == (c + shift) as u64);
}

} // verus!
