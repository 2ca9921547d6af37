//! From a value to the register it updates: its hash, the index of the register and the value
//! written to the register.
//!
//! The lowest `p` bits of the 64-bit hash select one of `2^p` registers; the register value is
//! one more than the number of leading zeros of the hash, counted as if the bit just above the
//! index were set, and, for registers of fewer than six bits, as if the bit that caps the count at
//! the largest value a register holds were set too.
use crate::precisions::{mask_of, register_mask, Bits, Precision};
use vstd::arithmetic::power2::{lemma2_to64, pow2};
use vstd::prelude::*;
use vstd::std_specs::bits::{axiom_u64_leading_zeros, u64_leading_zeros};

verus! {

/// The XxHash64 digest, with seed zero, of a byte string.
pub uninterp spec fn xxhash64_of(bytes: Seq<u8>) -> u64;

/// The eight bytes of a value, least significant first.
pub open spec fn le_bytes(value: u64) -> Seq<u8> {
    Seq::new(8, |i: int| ((value >> ((8 * i) as u64)) & 0xff) as u8)
}

/// The eight bytes of a value, most significant first.
pub open spec fn be_bytes(value: u64) -> Seq<u8> {
    Seq::new(8, |i: int| le_bytes(value)[7 - i])
}

/// Whether `hash` is the digest of the bytes of `value` in the machine's byte order: little- or
/// big-endian.
pub open spec fn is_value_hash(value: u64, hash: u64) -> bool {
    hash == xxhash64_of(le_bytes(value)) || hash == xxhash64_of(be_bytes(value))
}

/// Calls `twox_hash::XxHash64::oneshot` with seed zero on the native-endian bytes of `value`
/// (`u64::to_ne_bytes`), the bytes that `Hash::hash` feeds a hasher for a `u64`. The digest of
/// a byte string is named; which byte order the machine has is not stated, so the contract says
/// that the result is the digest of the little-endian or of the big-endian bytes.
#[verifier::external_body]
fn hash_value(value: u64) -> (hash: u64)
    ensures
        hash == xxhash64_of(le_bytes(value)) || hash == xxhash64_of(be_bytes(value)),
{
    twox_hash::XxHash64::oneshot(0, &value.to_ne_bytes())
}

/// The hash with the bits that bound its count of leading zeros set: the bit just above the
/// index and, for registers of fewer than six bits, the bit at `64 - mask`.
pub open spec fn censored_hash(p: u8, b: u8, hash: u64) -> u64 {
    let guarded = hash | (1u64 << (p as u64));
    if b < 6 {
        guarded | (1u64 << ((64 - register_mask(b)) as u64))
    } else {
        guarded
    }
}

/// The register index a hash selects: its lowest `p` bits.
pub open spec fn hash_index(p: u8, hash: u64) -> u64 {
    hash & (((1u64 << (p as u64)) - 1) as u64)
}

/// The register value a hash yields: one more than the leading zeros of the censored hash.
pub open spec fn hash_register(p: u8, b: u8, hash: u64) -> u32 {
    (u64_leading_zeros(censored_hash(p, b, hash)) + 1) as u32
}

/// `(index, register, hash)` is what a hash yields with precision `p` and registers of `b`
/// bits.
pub open spec fn is_hash_split(p: u8, b: u8, index: u64, register: u32, hash: u64) -> bool {
    &&& index == hash_index(p, hash)
    &&& register == hash_register(p, b, hash)
}

/// The leading zeros of a word, read off its highest set bit.
pub proof fn lemma_leading_zeros_shift(x: u64, k: u64)
    requires
        k < 64,
    ensures
        u64_leading_zeros(x) == k <==> x >> ((63 - k) as u64) == 1,
        u64_leading_zeros(x) <= 64,
{
    axiom_u64_leading_zeros(x);
    let l = u64_leading_zeros(x) as u64;
    assert(l <= 64 && (l < 64 ==> (x >> ((63 - l) as u64)) & 1 != 0) && x >> ((64 - l) as u64)
        == 0 && k < 64 ==> (l == k <==> x >> ((63 - k) as u64) == 1)) by (bit_vector);
}

/// A word with bit `q` set has at most `63 - q` leading zeros.
pub proof fn lemma_leading_zeros_bound(x: u64, q: u64)
    requires
        q < 64,
        (x >> q) & 1 == 1,
    ensures
        u64_leading_zeros(x) <= 63 - q,
{
    axiom_u64_leading_zeros(x);
    let l = u64_leading_zeros(x) as u64;
    assert(l <= 64 && x >> ((64 - l) as u64) == 0 && q < 64 && (x >> q) & 1 == 1 ==> l <= 63 - q)
        by (bit_vector);
}

/// The register value a hash yields lies between one and the largest value of a register.
pub proof fn lemma_hash_register_range(p: u8, b: u8, hash: u64)
    requires
        4 <= p <= 18,
        4 <= b <= 6,
    ensures
        1 <= hash_register(p, b, hash) <= register_mask(b),
        hash_register(p, b, hash) <= 64 - p,
{
    let c = censored_hash(p, b, hash);
    let pp = p as u64;
    let q = (64 - register_mask(b)) as u64;
    if b < 6 {
        crate::bitstream::lemma_or_bit_set(hash | (1u64 << pp), q);
        lemma_leading_zeros_bound(c, q);
        crate::bitstream::lemma_or_bit_set(hash, pp);
        crate::bitstream::lemma_bit_at_u64(hash | (1u64 << pp), pp as nat);
        crate::bitstream::lemma_bit_logic(hash | (1u64 << pp), 1u64 << q, pp);
        crate::bitstream::lemma_bit_at_u64(c, pp as nat);
    } else {
        crate::bitstream::lemma_or_bit_set(hash, pp);
    }
    lemma_leading_zeros_bound(c, pp);
}

/// Splits a hash into the register index it selects, the register value it yields, and the
/// hash itself.
pub fn split_hash<P: Precision, B: Bits>(hash: u64) -> (res: (usize, u8, u64))
    ensures
        res.0 as u64 == hash_index(P::spec_exponent(), hash),
        res.1 as u32 == hash_register(P::spec_exponent(), B::spec_number_of_bits(), hash),
        res.2 == hash,
        (res.0 as nat) < pow2(P::spec_exponent() as nat),
        1 <= res.1 <= register_mask(B::spec_number_of_bits()),
{
    proof {
        P::lemma_exponent_range();
        B::lemma_number_of_bits_range();
        lemma2_to64();
    }
    let p = P::exponent();
    let b = B::number_of_bits();
    let pp = p as u64;
    proof {
        crate::bitstream::lemma_shl_one_positive(pp);
    }
    let index_bits = hash & ((1u64 << pp) - 1);
    proof {
        assert(index_bits < (1u64 << pp) && index_bits < 262144) by (bit_vector)
            requires
                index_bits == hash & (((1u64 << pp) - 1) as u64),
                pp <= 18,
        ;
        vstd::bits::lemma_u64_shl_is_mul(1, pp);
    }
    let index = index_bits as usize;
    let mut censored_hash = hash | (1u64 << pp);
    if b < 6 {
        censored_hash = censored_hash | (1u64 << (64 - mask_of::<B>()));
    }
    proof {
        lemma_hash_register_range(p, b, hash);
        axiom_u64_leading_zeros(censored_hash);
    }
    let register = (censored_hash.leading_zeros() + 1) as u8;
    (index, register, hash)
}

/// Hashes a value and returns the register index it selects, the register value it yields
/// and its hash.
pub fn index_and_register_and_hash<P: Precision, B: Bits>(value: u64) -> (res: (usize, u8, u64))
    ensures
        is_value_hash(value, res.2),
        res.0 as u64 == hash_index(P::spec_exponent(), res.2),
        res.1 as u32 == hash_register(P::spec_exponent(), B::spec_number_of_bits(), res.2),
        (res.0 as nat) < pow2(P::spec_exponent() as nat),
        1 <= res.1 <= register_mask(B::spec_number_of_bits()),
{
    let hash = hash_value(value);
    split_hash::<P, B>(hash)
}

/// How a counter estimates its cardinality, depending on its representation and, for
/// registers, on how full they are.
#[derive(Debug, Clone, Copy, PartialEq, Eq, Hash)]
pub enum EstimationRegime {
    /// Sorted value list: the stored values are counted, with no estimation.
    Exact,
    /// Sorted hash list: the count is corrected for hash collisions.
    HashListCollisionCorrected,
    /// Registers below the correction bound: the empirical bias correction.
    HyperLogLogBiasCorrected,
    /// Registers at very low load: linear counting over the registers at zero.
    HyperLogLogLinearCounted,
    /// Registers at or above the correction bound: the raw estimate.
    HyperLogLogRaw,
}

} // verus!
