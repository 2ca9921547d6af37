//! The switch hash: a composite hash of `hash_bits` bits, with no prefix-free code, that keeps
//! a register index, a register value and as many further bits of the original hash as fit.
//!
//! Its layout, most significant bit first, is one of three:
//!
//! - `[index (p bits) | register (b bits)]` when `hash_bits == p + b`;
//! - `[index | flag = 1 | register (b bits) | following bits of the hash]` when the register
//!   exceeds `b + 1`: the register is stored explicitly;
//! - `[index | flag = 0 | complement of the leading bits of the hash]` otherwise: the register
//!   is one more than the number of leading ones of the stored bits.
//!
//! Sorting the composite hashes sorts them by index first, and a composite hash can be cut down
//! to fewer bits without going back to the original hash.
use crate::composite_hash::{LastBufferedBit, SaturationError};
use crate::hyperloglog::{hash_register, is_hash_split};
use crate::shared::{
    insert_hash_at, le_value, lemma_le_value_bound, lemma_le_value_frame, read_hash, search_desc,
    stored_hashes, strictly_decreasing, write_hash,
};
use crate::precisions::{mask_of, register_mask, Bits, Precision};
use vstd::prelude::*;
use vstd::std_specs::bits::{axiom_u64_leading_zeros, u64_leading_zeros};

verus! {

/// The composite hash with no prefix-free code, for precision `P` and registers of `B` bits.
#[derive(Debug)]
pub struct SwitchHash<P: Precision, B: Bits> {
    _precision: core::marker::PhantomData<P>,
    _bits: core::marker::PhantomData<B>,
}

/// A composite hash split into its index, its register and the bits that follow.
#[derive(Debug)]
pub struct HashFragment<P: Precision, B: Bits> {
    /// The register index.
    pub index: u32,
    /// The register value.
    pub register: u8,
    /// The bits after the index, the flag and, where stored, the register.
    pub hash_remainder: u32,
    /// The precision of the hash.
    pub precision: core::marker::PhantomData<P>,
    /// The register width of the hash.
    pub bits: core::marker::PhantomData<B>,
}

/// The lowest `n` bits of a 32-bit word set.
pub open spec fn low_mask32(n: u32) -> u32 {
    ((1u32 << n) - 1) as u32
}

/// The composite hash of `hash_bits` bits of the register `register` of index `index`, taken
/// from the original hash `hash`.
pub open spec fn switch_encoding(p: u32, b: u32, index: u32, register: u32, hash: u64, hb: u32) -> u32 {
    let head = index << ((hb - p) as u32);
    if hb == p + b {
        head | register
    } else if register > b + 1 {
        let offset = (hb - p - 1 - b) as u32;
        let kept = ((hash >> ((64 - hb + p + b) as u64)) as u32) & low_mask32(offset);
        head | (1u32 << ((hb - p - 1) as u32)) | (register << offset) | kept
    } else {
        head | (((!hash) >> ((64 - hb + 1 + p) as u64)) as u32)
    }
}

/// Whether the register of a composite hash is stored explicitly: its flag bit.
pub open spec fn switch_flag(p: u32, hash: u32, hb: u32) -> bool {
    (hash >> ((hb - p - 1) as u32)) & 1 == 1
}

/// The register that the stored leading bits `rest` (the `hb - 1 - p` lowest bits of `hash`)
/// stand for: one more than their number of leading ones, capped so that it fits in `b` bits.
pub open spec fn leading_register(p: u32, b: u32, rest: u32, hb: u32) -> u32 {
    let restored = !((rest as u64) << ((p + 1 + 64 - hb) as u64));
    (u64_leading_zeros(restored | (1u64 << ((64 - register_mask(b as u8)) as u64))) + 1) as u32
}

/// The bits of a composite hash after its index, its flag and, where stored, its register.
pub open spec fn switch_remainder(p: u32, b: u32, hash: u32, hb: u32) -> u32 {
    if hb == p + b {
        0
    } else if switch_flag(p, hash, hb) {
        hash & low_mask32((hb - 1 - p - b) as u32)
    } else {
        hash & low_mask32((hb - 1 - p) as u32)
    }
}

/// The register and the index that a composite hash of `hb` bits holds.
pub open spec fn switch_decoding(p: u32, b: u32, hash: u32, hb: u32) -> (u32, u32) {
    let index = hash >> ((hb - p) as u32);
    let mask = register_mask(b as u8) as u32;
    if hb == p + b {
        (hash & mask, index)
    } else if switch_flag(p, hash, hb) {
        ((hash >> ((hb - p - 1 - b) as u32)) & mask, index)
    } else {
        (leading_register(p, b, switch_remainder(p, b, hash, hb), hb), index)
    }
}

/// Whether `register` and `index` are the register and the index that the composite hash
/// `hash` of `hb` bits holds.
pub open spec fn decodes_to(p: u32, b: u32, hash: u32, hb: u32, register: u8, index: usize) -> bool {
    &&& register as u32 == switch_decoding(p, b, hash, hb).0
    &&& index as int == switch_decoding(p, b, hash, hb).1
}

/// The original hash that the stored leading bits of a composite hash of `hb` bits restore:
/// their complement on top, ones below.
pub open spec fn restored_hash(p: u32, rest: u32, hb: u32) -> u64 {
    !((rest as u64) << ((p + 1 + 64 - hb) as u64))
}

/// The composite hash of `hb` bits cut down by `shift` bits.
pub open spec fn switch_downgrading(p: u32, b: u32, hash: u32, hb: u32, shift: u32) -> u32 {
    if shift == 0 {
        hash
    } else {
        let (register, index) = switch_decoding(p, b, hash, hb);
        if register > b + 1 {
            if hb - shift == p + b {
                (index << b) | register
            } else {
                hash >> shift
            }
        } else {
            switch_encoding(
                p,
                b,
                index,
                register,
                restored_hash(p, switch_remainder(p, b, hash, hb), hb),
                (hb - shift) as u32,
            )
        }
    }
}

/// The composite hash put together from an index, a register and the remaining bits.
pub open spec fn switch_composition(
    p: u32,
    b: u32,
    index: u32,
    register: u32,
    remainder: u32,
    hb: u32,
) -> u32 {
    let head = index << ((hb - p) as u32);
    if hb == p + b {
        head | register
    } else if register > b + 1 {
        let offset = (hb - 1 - p - b) as u32;
        head | (register << offset) | (1u32 << ((hb - p - 1) as u32)) | remainder
    } else {
        head | remainder
    }
}

/// The smallest number of bits of a switch hash.
pub open spec fn smallest_viable_bits(p: u8, b: u8) -> u8 {
    if p == 4 && b == 4 {
        8
    } else if p + b <= 16 {
        16
    } else {
        24
    }
}

/// The largest number of bits of a switch hash.
pub open spec fn largest_viable_bits(p: u8, b: u8) -> u8 {
    if p == 4 && b == 4 {
        8
    } else if p < 8 {
        16
    } else if p < 15 {
        24
    } else {
        32
    }
}

/// Whether the register of a composite hash is stored explicitly.
fn flag<P: Precision>(hash: u32, hash_bits: u8) -> (flag: bool)
    requires
        P::spec_exponent() < hash_bits <= 32,
    ensures
        flag == switch_flag(P::spec_exponent() as u32, hash, hash_bits as u32),
{
    let shift = (hash_bits - P::exponent() - 1) as u32;
    ((hash >> shift) & 1) == 1
}

/// Returns the smallest number of bits of a switch hash for precision `P` and registers of
/// `B` bits.
pub fn smallest_viable_switch_hash<P: Precision, B: Bits>() -> (bits: u8)
    ensures
        bits == smallest_viable_bits(P::spec_exponent(), B::spec_number_of_bits()),
{
    proof {
        P::lemma_exponent_range();
        B::lemma_number_of_bits_range();
    }
    let p = P::exponent();
    let b = B::number_of_bits();
    if p == 4 && b == 4 {
        return 8;
    }
    if p + b <= 16 {
        return 16;
    }
    24
}

/// Returns the largest number of bits of a switch hash for precision `P` and registers of
/// `B` bits.
pub fn maximal_viable_switch_hash<P: Precision, B: Bits>() -> (bits: u8)
    ensures
        bits == largest_viable_bits(P::spec_exponent(), B::spec_number_of_bits()),
{
    let p = P::exponent();
    let b = B::number_of_bits();
    if p == 4 && b == 4 {
        return 8;
    }
    if p < 8 {
        return 16;
    }
    if p < 15 {
        return 24;
    }
    32
}

impl<P: Precision, B: Bits> HashFragment<P, B> {
    /// The number of bits after the index and the flag of a composite hash of `hash_bits`
    /// bits; zero when the hash holds nothing but the index and the register.
    pub fn hash_remainder_size(hash_bits: u8) -> (size: u8)
        requires
            P::spec_exponent() + B::spec_number_of_bits() <= hash_bits,
        ensures
            size == if hash_bits == P::spec_exponent() + B::spec_number_of_bits() {
                0
            } else {
                hash_bits - 1 - P::spec_exponent()
            },
    {
        proof {
            B::lemma_number_of_bits_range();
        }
        if hash_bits == P::exponent() + B::number_of_bits() {
            return 0;
        }
        hash_bits - 1 - P::exponent()
    }

    /// The original hash that the stored leading bits of the fragment restore: their
    /// complement on top, ones below.
    pub fn restored_hash(&self, hash_bits: u8) -> (hash: u64)
        requires
            P::spec_exponent() + 1 < hash_bits <= 32,
        ensures
            hash == restored_hash(P::spec_exponent() as u32, self.hash_remainder, hash_bits as u32),
    {
        let p = P::exponent() as u64;
        !((self.hash_remainder as u64) << (p + 1 + 64 - hash_bits as u64))
    }

    /// Whether the register of the fragment is stored explicitly.
    pub fn register_flag(&self) -> (flag: bool)
        requires
            self.register > 0,
        ensures
            flag == (self.register > B::spec_number_of_bits() + 1),
    {
        self.register - 1 > B::number_of_bits()
    }

    /// The part of the hash expected to be uniformly distributed: the index followed by the
    /// remainder.
    pub fn uniform(&self, hash_bits: u8) -> (uniform: u32)
        requires
            P::spec_exponent() + B::spec_number_of_bits() <= hash_bits <= 32,
        ensures
            uniform == (self.index << (if hash_bits == P::spec_exponent()
                + B::spec_number_of_bits() {
                0u32
            } else {
                (hash_bits - 1 - P::spec_exponent()) as u32
            })) | self.hash_remainder,
    {
        (self.index << (Self::hash_remainder_size(hash_bits) as u32)) | self.hash_remainder
    }
}

impl<P: Precision, B: Bits> SwitchHash<P, B> {
    /// Encodes the register `register` of index `index`, taken from the original hash
    /// `original_hash`, into a composite hash of `hash_bits` bits.
    pub fn encode(index: usize, register: u8, original_hash: u64, hash_bits: u8) -> (encoded: u32)
        requires
            0 < register <= register_mask(B::spec_number_of_bits()),
            (index as nat) < vstd::arithmetic::power2::pow2(P::spec_exponent() as nat),
            P::spec_exponent() + B::spec_number_of_bits() <= hash_bits <= 32,
        ensures
            encoded == switch_encoding(
                P::spec_exponent() as u32,
                B::spec_number_of_bits() as u32,
                index as u32,
                register as u32,
                original_hash,
                hash_bits as u32,
            ),
    {
        proof {
            P::lemma_exponent_range();
            B::lemma_number_of_bits_range();
            vstd::arithmetic::power2::lemma2_to64();
            vstd::arithmetic::power2::lemma_pow2_strictly_increases(P::spec_exponent() as nat, 32);
        }
        let p = P::exponent() as u32;
        let b = B::number_of_bits() as u32;
        let hb = hash_bits as u32;
        let mut composite_hash = (index as u32) << (hb - p);
        if p + b == hb {
            return composite_hash | (register as u32);
        }
        if (register as u32) > b + 1 {
            composite_hash = composite_hash | (1u32 << (hb - p - 1));
            let register_offset = hb - p - 1 - b;
            composite_hash = composite_hash | ((register as u32) << register_offset);
            let mut censored_hash = (original_hash >> ((64 - hb + p + b) as u64)) as u32;
            proof {
                crate::bitstream::lemma_shl_one_positive(register_offset as u64);
            }
            let mask = (1u32 << register_offset) - 1;
            censored_hash = censored_hash & mask;
            composite_hash | censored_hash
        } else {
            let censored_hash = ((!original_hash) >> ((64 - hb + 1 + p) as u64)) as u32;
            composite_hash | censored_hash
        }
    }

    /// Splits a composite hash of `hash_bits` bits into its index, its register and the bits
    /// that follow them.
    pub fn scompose_hash(hash: u32, hash_bits: u8) -> (fragment: HashFragment<P, B>)
        requires
            P::spec_exponent() + B::spec_number_of_bits() <= hash_bits <= 32,
        ensures
            (fragment.register as u32, fragment.index) == switch_decoding(
                P::spec_exponent() as u32,
                B::spec_number_of_bits() as u32,
                hash,
                hash_bits as u32,
            ),
            fragment.hash_remainder == switch_remainder(
                P::spec_exponent() as u32,
                B::spec_number_of_bits() as u32,
                hash,
                hash_bits as u32,
            ),
    {
        proof {
            P::lemma_exponent_range();
            B::lemma_number_of_bits_range();
        }
        let p = P::exponent() as u32;
        let b = B::number_of_bits() as u32;
        let hb = hash_bits as u32;
        let mask = mask_of::<B>();
        let index = hash >> (hb - p);
        if p + b == hb {
            let register = ((hash as u64) & mask) as u8;
            proof {
                lemma_masked_register(hash, mask, register_mask(b as u8) as u32);
            }
            return HashFragment {
                index,
                register,
                hash_remainder: 0,
                precision: core::marker::PhantomData,
                bits: core::marker::PhantomData,
            };
        }
        if flag::<P>(hash, hash_bits) {
            let shift = hb - 1 - p - b;
            proof {
                crate::bitstream::lemma_shl_one_positive(shift as u64);
            }
            let hash_remainder_mask = (1u32 << shift) - 1;
            let register = (((hash >> shift) as u64) & mask) as u8;
            proof {
                lemma_masked_register(hash >> shift, mask, register_mask(b as u8) as u32);
            }
            HashFragment {
                index,
                register,
                hash_remainder: hash & hash_remainder_mask,
                precision: core::marker::PhantomData,
                bits: core::marker::PhantomData,
            }
        } else {
            let shift = p + 1 + (64 - hb);
            let restored = !((hash as u64) << (shift as u64));
            let rest_bits = hb - 1 - p;
            proof {
                crate::bitstream::lemma_shl_one_positive(rest_bits as u64);
            }
            let hash_remainder_mask = (1u32 << rest_bits) - 1;
            let hash_remainder = hash & hash_remainder_mask;
            let leading_zeros = (restored | (1u64 << (64 - mask))).leading_zeros();
            proof {
                axiom_u64_leading_zeros(restored | (1u64 << (64 - mask)));
                let rest = hash_remainder;
                let sh = shift as u64;
                assert((rest as u64) << sh == (hash as u64) << sh) by (bit_vector)
                    requires
                        rest == hash & hash_remainder_mask,
                        hash_remainder_mask == ((1u32 << rest_bits) - 1) as u32,
                        sh == (p + 1 + 64 - hb) as u64,
                        rest_bits == hb - 1 - p,
                        p < hb,
                        hb <= 32,
                ;
            }
            let register = (leading_zeros + 1) as u8;
            HashFragment {
                index,
                register,
                hash_remainder,
                precision: core::marker::PhantomData,
                bits: core::marker::PhantomData,
            }
        }
    }

    /// Decodes a composite hash of `hash_bits` bits into its register and its index.
    pub fn decode(hash: u32, hash_bits: u8) -> (decoded: (u8, usize))
        requires
            P::spec_exponent() + B::spec_number_of_bits() <= hash_bits <= 32,
        ensures
            decodes_to(P::spec_exponent() as u32,
                B::spec_number_of_bits() as u32,
                hash,
                hash_bits as u32, decoded.0, decoded.1),
    {
        let fragmented = Self::scompose_hash(hash, hash_bits);
        (fragmented.register, fragmented.index as usize)
    }

    /// Puts a composite hash of `hash_bits` bits together from its index, its register and
    /// the bits that follow them.
    pub fn compose_hash(index: u32, register: u8, hash_remainder: u32, hash_bits: u8) -> (hash: u32)
        requires
            0 < register,
            P::spec_exponent() + B::spec_number_of_bits() <= hash_bits <= 32,
        ensures
            hash == switch_composition(
                P::spec_exponent() as u32,
                B::spec_number_of_bits() as u32,
                index,
                register as u32,
                hash_remainder,
                hash_bits as u32,
            ),
    {
        proof {
            P::lemma_exponent_range();
            B::lemma_number_of_bits_range();
        }
        let p = P::exponent() as u32;
        let b = B::number_of_bits() as u32;
        let hb = hash_bits as u32;
        let mut hash = index << (hb - p);
        if p + b == hb {
            return hash | (register as u32);
        }
        if (register as u32) - 1 > b {
            let shift = hb - 1 - p - b;
            hash = hash | (((register as u32) << shift) | (1u32 << (hb - p - 1)));
        }
        hash = hash | hash_remainder;
        proof {
            let h0 = index << ((hb - p) as u32);
            let r = register as u32;
            let sh = (hb - 1 - p - b) as u32;
            assert((h0 | ((r << sh) | (1u32 << ((hb - p - 1) as u32)))) | hash_remainder == h0 | (r
                << sh) | (1u32 << ((hb - p - 1) as u32)) | hash_remainder) by (bit_vector);
        }
        hash
    }
}

impl<P: Precision, B: Bits> SwitchHash<P, B> {
    /// Cuts a composite hash of `hash_bits` bits down to `hash_bits - shift` bits, without the
    /// original hash.
    pub fn downgrade(hash: u32, hash_bits: u8, shift: u8) -> (downgraded: u32)
        requires
            P::spec_exponent() + B::spec_number_of_bits() + shift <= hash_bits <= 32,
            shift > 0 ==> (hash as u64) < (1u64 << (hash_bits as u64)),
            shift > 0 ==> switch_decoding(
                P::spec_exponent() as u32,
                B::spec_number_of_bits() as u32,
                hash,
                hash_bits as u32,
            ).0 > 0,
        ensures
            downgraded == switch_downgrading(
                P::spec_exponent() as u32,
                B::spec_number_of_bits() as u32,
                hash,
                hash_bits as u32,
                shift as u32,
            ),
    {
        proof {
            P::lemma_exponent_range();
            B::lemma_number_of_bits_range();
        }
        if shift == 0 {
            return hash;
        }
        let p = P::exponent();
        let b = B::number_of_bits();
        let fragmented = Self::scompose_hash(hash, hash_bits);
        if fragmented.register - 1 > b {
            if hash_bits - shift == p + b {
                (fragmented.index << (b as u32)) | (fragmented.register as u32)
            } else {
                hash >> (shift as u32)
            }
        } else {
            let hb = hash_bits as u32;
            let pp = p as u32;
            let restored = !((fragmented.hash_remainder as u64) << ((pp + 1 + 64 - hb) as u64));
            proof {
                let i = fragmented.index;
                assert(i < (1u32 << pp)) by (bit_vector)
                    requires
                        i == hash >> ((hb - pp) as u32),
                        (hash as u64) < (1u64 << (hb as u64)),
                        pp < hb,
                        hb <= 32,
                ;
                vstd::arithmetic::power2::lemma2_to64();
                vstd::arithmetic::power2::lemma_pow2_strictly_increases(pp as nat, 32);
                vstd::bits::lemma_u32_shl_is_mul(1, pp);
                if p + b != hash_bits && !switch_flag(pp, hash, hb) {
                    let q = (64 - register_mask(b)) as u64;
                    let y = !((fragmented.hash_remainder as u64) << ((pp + 1 + 64 - hb) as u64));
                    let x = y | (1u64 << q);
                    crate::bitstream::lemma_or_bit_set(y, q);
                    crate::hyperloglog::lemma_leading_zeros_bound(x, q);
                }
            }
            Self::encode(
                fragmented.index as usize,
                fragmented.register,
                restored,
                hash_bits - shift,
            )
        }
    }
}

/// The low bits of a word kept by a register mask, read through a byte.
proof fn lemma_masked_register(h: u32, mask: u64, m32: u32)
    by (bit_vector)
    requires
        mask == m32 as u64,
        m32 == 15 || m32 == 31 || m32 == 63,
    ensures
        ((h as u64) & mask) as u8 as u32 == h & m32,
{
}

/// Where the register of a hash is at most `b + 1`, the highest set bit of the hash is the
/// one at `64 - register`.
proof fn lemma_split_leading_one(p: u8, b: u8, hash: u64)
    requires
        4 <= p <= 18,
        4 <= b <= 6,
        hash_register(p, b, hash) <= b + 1,
    ensures
        hash >> ((64 - hash_register(p, b, hash)) as u64) == 1,
{
    crate::hyperloglog::lemma_hash_register_range(p, b, hash);
    let c = crate::hyperloglog::censored_hash(p, b, hash);
    let k = (hash_register(p, b, hash) - 1) as u64;
    axiom_u64_leading_zeros(c);
    crate::hyperloglog::lemma_leading_zeros_shift(c, k);
    let s = (63 - k) as u64;
    let pp = p as u64;
    let q = (64 - register_mask(b)) as u64;
    assert(hash >> s == 1) by (bit_vector)
        requires
            c == (hash | (1u64 << pp)) || c == (hash | (1u64 << pp)) | (1u64 << q),
            c >> s == 1,
            pp <= 18,
            q <= 49,
            57 <= s < 64,
    ;
}

/// The encoding of a register of `b` bits and an index of `p` bits with `p + b` bits.
pub proof fn lemma_decode_narrow(p: u32, b: u32, index: u32, register: u32, hash: u64, hb: u32)
    requires
        4 <= p <= 18,
        4 <= b <= 6,
        hb == p + b,
        index < (1u32 << p),
        0 < register <= register_mask(b as u8),
    ensures
        switch_decoding(p, b, switch_encoding(p, b, index, register, hash, hb), hb) == (
            register,
            index,
        ),
        (switch_encoding(p, b, index, register, hash, hb) as u64) < (1u64 << (hb as u64)),
{
    let m = register_mask(b as u8) as u32;
    let e = (index << b) | register;
    assert(e & m == register && e >> b == index && (e as u64) < (1u64 << (hb as u64))) by (bit_vector)
        requires
            e == (index << b) | register,
            index < (1u32 << p),
            register <= m,
            m == 15 && b == 4 || m == 31 && b == 5 || m == 63 && b == 6,
            p <= 18,
            hb == p + b,
    ;
}

/// A composite hash of a valid split decodes to the register and the index it was made from,
/// fits in its number of bits, and is put back together from its parts.
pub proof fn lemma_switch_decode_encode(
    p: u8,
    b: u8,
    index: u64,
    register: u32,
    hash: u64,
    hb: u32,
)
    requires
        4 <= p <= 18,
        4 <= b <= 6,
        p + b <= hb <= 32,
        is_hash_split(p, b, index, register, hash),
    ensures
        switch_decoding(
            p as u32,
            b as u32,
            switch_encoding(p as u32, b as u32, index as u32, register, hash, hb),
            hb,
        ) == (register, index as u32),
        (switch_encoding(p as u32, b as u32, index as u32, register, hash, hb) as u64) < (1u64 << (
        hb as u64)),
        switch_composition(
            p as u32,
            b as u32,
            index as u32,
            register,
            switch_remainder(
                p as u32,
                b as u32,
                switch_encoding(p as u32, b as u32, index as u32, register, hash, hb),
                hb,
            ),
            hb,
        ) == switch_encoding(p as u32, b as u32, index as u32, register, hash, hb),
        hb != p + b ==> (switch_flag(
            p as u32,
            switch_encoding(p as u32, b as u32, index as u32, register, hash, hb),
            hb,
        ) <==> register > b + 1),
{
    crate::hyperloglog::lemma_hash_register_range(p, b, hash);
    let pp = p as u32;
    let bb = b as u32;
    let pl = p as u64;
    let i = index as u32;
    assert(index < (1u64 << pl) && i == index && i < (1u32 << pp)) by (bit_vector)
        requires
            index == hash & (((1u64 << pl) - 1) as u64),
            pl == pp as u64,
            i == index as u32,
            pl <= 18,
    ;
    let e = switch_encoding(pp, bb, i, register, hash, hb);
    let m = register_mask(b) as u32;
    if hb == pp + bb {
        lemma_decode_narrow(pp, bb, i, register, hash, hb);
        assert(switch_remainder(pp, bb, e, hb) == 0);
        assert(switch_composition(pp, bb, i, register, 0, hb) == e);
    } else if register > bb + 1 {
        let off = (hb - pp - 1 - bb) as u32;
        let kept = ((hash >> ((64 - hb + pp + bb) as u64)) as u32) & low_mask32(off);
        let head = i << ((hb - pp) as u32);
        let fl = 1u32 << ((hb - pp - 1) as u32);
        assert(e == head | fl | (register << off) | kept);
        assert((e >> ((hb - pp - 1) as u32)) & 1 == 1 && (e >> off) & m == register && e >> ((hb
            - pp) as u32) == i && (e as u64) < (1u64 << (hb as u64)) && e & low_mask32(off) == kept
            && head | (register << off) | fl | kept == e) by (bit_vector)
            requires
                e == head | fl | (register << off) | kept,
                head == i << ((hb - pp) as u32),
                fl == 1u32 << ((hb - pp - 1) as u32),
                kept == ((hash >> ((64 - hb + pp + bb) as u64)) as u32) & low_mask32(off),
                low_mask32(off) == ((1u32 << off) - 1) as u32,
                off == hb - pp - 1 - bb,
                i < (1u32 << pp),
                register <= m,
                m == 15 && bb == 4 || m == 31 && bb == 5 || m == 63 && bb == 6,
                4 <= pp <= 18,
                pp + bb < hb <= 32,
        ;
    } else {
        let s = (64 - hb + 1 + pp) as u64;
        let low = ((!hash) >> s) as u32;
        let head = i << ((hb - pp) as u32);
        let rb = (hb - 1 - pp) as u32;
        assert(e == head | low);
        lemma_split_leading_one(p, b, hash);
        let k = (register - 1) as u64;
        let cap = 1u64 << ((64 - register_mask(b)) as u64);
        let q = (64 - register_mask(b)) as u64;
        assert((e >> ((hb - pp - 1) as u32)) & 1 == 0 && e >> ((hb - pp) as u32) == i && (e as u64)
            < (1u64 << (hb as u64)) && e & low_mask32(rb) == low && head | low == e && (!(((e
            & low_mask32(rb)) as u64) << ((pp + 1 + 64 - hb) as u64)) | (1u64 << q)) >> ((63
            - k) as u64) == 1) by (bit_vector)
            requires
                e == head | low,
                head == i << ((hb - pp) as u32),
                low == ((!hash) >> s) as u32,
                s == (64 - hb + 1 + pp) as u64,
                rb == hb - 1 - pp,
                low_mask32(rb) == ((1u32 << rb) - 1) as u32,
                i < (1u32 << pp),
                hash >> ((63 - k) as u64) == 1,
                k <= bb,
                q == 49 || q == 33 || q == 1,
                4 <= bb <= 6,
                4 <= pp <= 18,
                pp + bb < hb <= 32,
        ;
        crate::hyperloglog::lemma_leading_zeros_shift(
            !(((e & low_mask32(rb)) as u64) << ((pp + 1 + 64 - hb) as u64)) | cap,
            k,
        );
    }
}

/// Cutting the composite hash of a valid split down by `shift` bits gives the composite hash
/// of the split with `hb - shift` bits.
pub proof fn lemma_switch_downgrade_encode(
    p: u8,
    b: u8,
    index: u64,
    register: u32,
    hash: u64,
    hb: u32,
    shift: u32,
)
    requires
        4 <= p <= 18,
        4 <= b <= 6,
        p + b + shift <= hb <= 32,
        is_hash_split(p, b, index, register, hash),
    ensures
        switch_downgrading(
            p as u32,
            b as u32,
            switch_encoding(p as u32, b as u32, index as u32, register, hash, hb),
            hb,
            shift,
        ) == switch_encoding(p as u32, b as u32, index as u32, register, hash, (hb - shift) as u32),
{
    lemma_switch_decode_encode(p, b, index, register, hash, hb);
    crate::hyperloglog::lemma_hash_register_range(p, b, hash);
    let pp = p as u32;
    let bb = b as u32;
    let pl = p as u64;
    let i = index as u32;
    let h2 = (hb - shift) as u32;
    assert(i == index && i < (1u32 << pp)) by (bit_vector)
        requires
            index == hash & (((1u64 << pl) - 1) as u64),
            pl == pp as u64,
            i == index as u32,
            pl <= 18,
    ;
    let e = switch_encoding(pp, bb, i, register, hash, hb);
    if shift == 0 {
    } else if register > bb + 1 {
        if h2 != pp + bb {
            let off = (hb - pp - 1 - bb) as u32;
            let off2 = (h2 - pp - 1 - bb) as u32;
            assert(e >> shift == switch_encoding(pp, bb, i, register, hash, h2)) by (bit_vector)
                requires
                    e == (i << ((hb - pp) as u32)) | (1u32 << ((hb - pp - 1) as u32)) | (register
                        << off) | (((hash >> ((64 - hb + pp + bb) as u64)) as u32) & (((1u32
                        << off) - 1) as u32)),
                    switch_encoding(pp, bb, i, register, hash, h2) == (i << ((h2 - pp) as u32)) | (
                    1u32 << ((h2 - pp - 1) as u32)) | (register << off2) | (((hash >> ((64 - h2
                        + pp + bb) as u64)) as u32) & (((1u32 << off2) - 1) as u32)),
                    off == hb - pp - 1 - bb,
                    off2 == h2 - pp - 1 - bb,
                    h2 == hb - shift,
                    i < (1u32 << pp),
                    register < 64,
                    4 <= pp <= 18,
                    4 <= bb <= 6,
                    pp + bb < h2,
                    hb <= 32,
            ;
        }
    } else {
        if h2 != pp + bb {
            let rb = (hb - 1 - pp) as u32;
            let s = (64 - hb + 1 + pp) as u64;
            let s2 = (64 - h2 + 1 + pp) as u64;
            let rest = switch_remainder(pp, bb, e, hb);
            assert(rest == e & low_mask32(rb));
            assert(((!restored_hash(pp, rest, hb)) >> s2) as u32 == ((!hash) >> s2) as u32)
                by (bit_vector)
                requires
                    e == (i << ((hb - pp) as u32)) | (((!hash) >> s) as u32),
                    rest == e & (((1u32 << rb) - 1) as u32),
                    restored_hash(pp, rest, hb) == !((rest as u64) << ((pp + 1 + 64 - hb) as u64)),
                    rb == hb - 1 - pp,
                    s == (64 - hb + 1 + pp) as u64,
                    s2 == (64 - h2 + 1 + pp) as u64,
                    h2 == hb - shift,
                    i < (1u32 << pp),
                    4 <= pp <= 18,
                    pp + 4 < h2,
                    hb <= 32,
            ;
        }
    }
}

/// The hash list holds `n` composite hashes of `hb` bits, `hb / 8` bytes each, in strictly
/// decreasing order.
pub open spec fn is_hash_list(hashes: Seq<u8>, n: nat, hb: u8) -> bool {
    &&& hb % 8 == 0
    &&& 8 <= hb <= 32
    &&& n * (hb / 8) as nat <= hashes.len()
    &&& strictly_decreasing(stored_hashes(hashes, n, (hb / 8) as nat))
}

impl<P: Precision, B: Bits> SwitchHash<P, B> {
    /// Whether the hash list holds the composite hash of the register `register` of index
    /// `index` taken from `original_hash`.
    pub fn find(
        hashes: &[u8],
        number_of_hashes: u32,
        index: usize,
        register: u8,
        original_hash: u64,
        hash_bits: u8,
        bit_index: u32,
    ) -> (found: bool)
        requires
            0 < register <= register_mask(B::spec_number_of_bits()),
            (index as nat) < vstd::arithmetic::power2::pow2(P::spec_exponent() as nat),
            P::spec_exponent() + B::spec_number_of_bits() <= hash_bits,
            smallest_viable_bits(P::spec_exponent(), B::spec_number_of_bits()) <= hash_bits,
            is_hash_list(hashes@, number_of_hashes as nat, hash_bits),
        ensures
            found == stored_hashes(hashes@, number_of_hashes as nat, (hash_bits / 8) as nat).contains(
                switch_encoding(
                    P::spec_exponent() as u32,
                    B::spec_number_of_bits() as u32,
                    index as u32,
                    register as u32,
                    original_hash,
                    hash_bits as u32,
                ) as nat,
            ),
    {
        let encoded_hash = Self::encode(index, register, original_hash, hash_bits);
        let width = (hash_bits / 8) as usize;
        let ghost s = stored_hashes(hashes@, number_of_hashes as nat, width as nat);
        match search_desc(hashes, number_of_hashes as usize, width, encoded_hash) {
            Ok(position) => {
                assert(s[position as int] == encoded_hash);
                true
            },
            Err(position) => {
                assert forall|j: int| 0 <= j < s.len() implies s[j] != encoded_hash by {
                    if j < position {
                        assert(s[j] > encoded_hash);
                    } else {
                        assert(s[j] < encoded_hash);
                    }
                }
                false
            },
        }
    }

    /// Inserts the composite hash of the register `register` of index `index` taken from
    /// `original_hash` in the hash list, keeping it strictly decreasing.
    ///
    /// Returns `Ok(None)` when the hash is already there, `Ok(Some(bits))` with the new number
    /// of bits of the list when it was inserted, and an error when the buffer has no room for
    /// one more hash: `Saturation` with the bit index of the list when the hashes are already
    /// as short as they get, `ExtendableSaturation` otherwise.
    pub fn insert_sorted_desc(
        hashes: &mut [u8],
        number_of_hashes: u32,
        bit_index: u32,
        index: usize,
        register: u8,
        original_hash: u64,
        hash_bits: u8,
    ) -> (res: Result<Option<u32>, SaturationError>)
        requires
            0 < register <= register_mask(B::spec_number_of_bits()),
            (index as nat) < vstd::arithmetic::power2::pow2(P::spec_exponent() as nat),
            P::spec_exponent() + B::spec_number_of_bits() <= hash_bits,
            smallest_viable_bits(P::spec_exponent(), B::spec_number_of_bits()) <= hash_bits,
            is_hash_list(old(hashes)@, number_of_hashes as nat, hash_bits),
            bit_index == number_of_hashes * hash_bits,
            bit_index + hash_bits <= u32::MAX,
        ensures
            ({
                let width = (hash_bits / 8) as nat;
                let s = stored_hashes(old(hashes)@, number_of_hashes as nat, width);
                let e = switch_encoding(
                    P::spec_exponent() as u32,
                    B::spec_number_of_bits() as u32,
                    index as u32,
                    register as u32,
                    original_hash,
                    hash_bits as u32,
                ) as nat;
                &&& final(hashes)@.len() == old(hashes)@.len()
                &&& s.contains(e) ==> res == Ok::<Option<u32>, SaturationError>(None) && final(hashes)@
                    == old(hashes)@
                &&& !s.contains(e) && bit_index / 8 + width > old(hashes)@.len() ==> final(hashes)@
                    == old(hashes)@ && res == if hash_bits == smallest_viable_bits(
                    P::spec_exponent(),
                    B::spec_number_of_bits(),
                ) {
                    Err::<Option<u32>, SaturationError>(SaturationError::Saturation(bit_index))
                } else {
                    Err::<Option<u32>, SaturationError>(SaturationError::ExtendableSaturation)
                }
                &&& !s.contains(e) && bit_index / 8 + width <= old(hashes)@.len() ==> {
                    &&& res == Ok::<Option<u32>, SaturationError>(
                        Some(((number_of_hashes + 1) * hash_bits) as u32),
                    )
                    &&& is_hash_list(final(hashes)@, (number_of_hashes + 1) as nat, hash_bits)
                    &&& exists|position: int|
                        0 <= position <= number_of_hashes && stored_hashes(
                            final(hashes)@,
                            (number_of_hashes + 1) as nat,
                            width,
                        ) == s.insert(position, e)
                    &&& forall|q: int|
                        (number_of_hashes + 1) * width <= q < old(hashes)@.len() ==> #[trigger] final(hashes)@[q] == old(hashes)@[q]
                }
            }),
    {
        let ghost old_hashes = hashes@;
        let width = (hash_bits / 8) as usize;
        let encoded_hash = Self::encode(index, register, original_hash, hash_bits);
        let ghost s = stored_hashes(hashes@, number_of_hashes as nat, width as nat);
        match search_desc(hashes, number_of_hashes as usize, width, encoded_hash) {
            Ok(position) => {
                assert(s[position as int] == encoded_hash);
                Ok(None)
            },
            Err(position) => {
                assert forall|j: int| 0 <= j < s.len() implies s[j] != encoded_hash by {
                    if j < position {
                        assert(s[j] > encoded_hash);
                    } else {
                        assert(s[j] < encoded_hash);
                    }
                }
                if (bit_index / 8) as usize + width > hashes.len() {
                    if hash_bits == smallest_viable_switch_hash::<P, B>() {
                        return Err(SaturationError::Saturation(bit_index));
                    }
                    return Err(SaturationError::ExtendableSaturation);
                }
                proof {
                    assert(bit_index / 8 == number_of_hashes * width) by (nonlinear_arith)
                        requires
                            bit_index == number_of_hashes * hash_bits,
                            hash_bits == 8 * width,
                    ;
                    assert((number_of_hashes + 1) * width == number_of_hashes * width + width)
                        by (nonlinear_arith);
                    P::lemma_exponent_range();
                    B::lemma_number_of_bits_range();
                    vstd::arithmetic::power2::lemma2_to64();
                    vstd::arithmetic::power2::lemma_pow2_strictly_increases(
                        P::spec_exponent() as nat,
                        32,
                    );
                    vstd::bits::lemma_u32_shl_is_mul(1, P::spec_exponent() as u32);
                    lemma_switch_encoding_fits(
                        P::spec_exponent() as u32,
                        B::spec_number_of_bits() as u32,
                        index as u32,
                        register as u32,
                        original_hash,
                        hash_bits as u32,
                    );
                }
                insert_hash_at(hashes, number_of_hashes as usize, width, position, encoded_hash);
                proof {
                    let t = stored_hashes(hashes@, (number_of_hashes + 1) as nat, width as nat);
                    assert(t == s.insert(position as int, encoded_hash as nat));
                    assert forall|a: int, b: int| 0 <= a < b < t.len() implies t[a] > t[b] by {
                        if b < position {
                        } else if a < position && b == position {
                            assert(s[a] > encoded_hash);
                        } else if a < position {
                            assert(s[b - 1] < encoded_hash);
                        } else if a == position {
                            assert(s[b - 1] < encoded_hash);
                        } else {
                            assert(s[a - 1] > s[b - 1]);
                        }
                    }
                    assert((number_of_hashes + 1) * hash_bits == bit_index + hash_bits)
                        by (nonlinear_arith)
                        requires
                            bit_index == number_of_hashes * hash_bits,
                    ;
                    assert(number_of_hashes + 1 <= u32::MAX) by (nonlinear_arith)
                        requires
                            (number_of_hashes + 1) * hash_bits <= u32::MAX,
                            hash_bits >= 8,
                    ;
                }
                Ok(Some((number_of_hashes + 1) * (hash_bits as u32)))
            },
        }
    }
}

/// The composite hash fits in its number of bits, whatever it is made from.
pub proof fn lemma_switch_encoding_fits(p: u32, b: u32, index: u32, register: u32, hash: u64, hb: u32)
    requires
        4 <= p <= 18,
        4 <= b <= 6,
        p + b <= hb <= 32,
        index < (1u32 << p),
        register <= register_mask(b as u8),
    ensures
        (switch_encoding(p, b, index, register, hash, hb) as nat) < vstd::arithmetic::power2::pow2(
            hb as nat,
        ),
{
    let e = switch_encoding(p, b, index, register, hash, hb);
    let m = register_mask(b as u8) as u32;
    let hl = hb as u64;
    if hb == p + b {
        assert((e as u64) < (1u64 << hl)) by (bit_vector)
            requires
                e == (index << ((hb - p) as u32)) | register,
                index < (1u32 << p),
                register <= m,
                m == 15 && b == 4 || m == 31 && b == 5 || m == 63 && b == 6,
                hb == p + b,
                hl == hb as u64,
                p <= 18,
        ;
    } else if register > b + 1 {
        let off = (hb - p - 1 - b) as u32;
        assert((e as u64) < (1u64 << hl)) by (bit_vector)
            requires
                e == (index << ((hb - p) as u32)) | (1u32 << ((hb - p - 1) as u32)) | (register << off)
                    | (((hash >> ((64 - hb + p + b) as u64)) as u32) & (((1u32 << off) - 1) as u32)),
                off == hb - p - 1 - b,
                index < (1u32 << p),
                register <= m,
                m == 15 && b == 4 || m == 31 && b == 5 || m == 63 && b == 6,
                p + b < hb <= 32,
                hl == hb as u64,
                4 <= p <= 18,
        ;
    } else {
        assert((e as u64) < (1u64 << hl)) by (bit_vector)
            requires
                e == (index << ((hb - p) as u32)) | (((!hash) >> ((64 - hb + 1 + p) as u64)) as u32),
                index < (1u32 << p),
                p + b < hb <= 32,
                hl == hb as u64,
                4 <= p <= 18,
        ;
    }
    vstd::arithmetic::power2::lemma2_to64();
    vstd::arithmetic::power2::lemma_pow2_strictly_increases(hl as nat, 33);
    vstd::bits::lemma_u64_shl_is_mul(1, hl);
}

/// The sequence with each run of equal consecutive items cut down to one item.
pub open spec fn dedup_consecutive(s: Seq<nat>) -> Seq<nat>
    decreases s.len(),
{
    if s.len() == 0 {
        s
    } else if s.len() >= 2 && s.last() == s[s.len() - 2] {
        dedup_consecutive(s.drop_last())
    } else {
        dedup_consecutive(s.drop_last()).push(s.last())
    }
}

/// Each hash of a list cut down by `shift` bits.
pub open spec fn downgraded_hashes(p: u32, b: u32, s: Seq<nat>, hb: u32, shift: u32) -> Seq<nat> {
    Seq::new(s.len(), |i: int| switch_downgrading(p, b, s[i] as u32, hb, shift) as nat)
}

/// The last item of a sequence survives the cutting of runs.
proof fn lemma_dedup_last(s: Seq<nat>)
    requires
        s.len() > 0,
    ensures
        dedup_consecutive(s).len() > 0,
        dedup_consecutive(s).last() == s.last(),
        dedup_consecutive(s).len() <= s.len(),
    decreases s.len(),
{
    if s.len() >= 2 {
        lemma_dedup_last(s.drop_last());
    } else {
        assert(s.drop_last().len() == 0);
        assert(dedup_consecutive(s.drop_last()) == s.drop_last());
    }
}

/// A composite hash cut down by `shift` bits fits in `hb - shift` bits.
proof fn lemma_switch_downgrading_fits(p: u32, b: u32, hash: u32, hb: u32, shift: u32)
    requires
        4 <= p <= 18,
        4 <= b <= 6,
        p + b + shift <= hb <= 32,
        0 < shift,
        (hash as u64) < (1u64 << (hb as u64)),
    ensures
        (switch_downgrading(p, b, hash, hb, shift) as nat) < vstd::arithmetic::power2::pow2(
            (hb - shift) as nat,
        ),
{
    let (register, index) = switch_decoding(p, b, hash, hb);
    let m = register_mask(b as u8) as u32;
    let h2 = (hb - shift) as u32;
    let hl = hb as u64;
    assert(index < (1u32 << p)) by (bit_vector)
        requires
            index == hash >> ((hb - p) as u32),
            (hash as u64) < (1u64 << hl),
            hl == hb as u64,
            p < hb,
            hb <= 32,
    ;
    vstd::arithmetic::power2::lemma2_to64();
    vstd::arithmetic::power2::lemma_pow2_strictly_increases(h2 as nat, 33);
    vstd::bits::lemma_u64_shl_is_mul(1, h2 as u64);
    let d = switch_downgrading(p, b, hash, hb, shift);
    let h2l = h2 as u64;
    if register > b + 1 {
        assert(hb != p + b);
        assert(register == (hash >> ((hb - p - 1 - b) as u32)) & m || register == leading_register(
            p,
            b,
            switch_remainder(p, b, hash, hb),
            hb,
        ));
        if h2 == p + b {
            if switch_flag(p, hash, hb) {
                let r = (hash >> ((hb - p - 1 - b) as u32)) & m;
                assert((((index << b) | r) as u64) < (1u64 << h2l)) by (bit_vector)
                    requires
                        index < (1u32 << p),
                        r == (hash >> ((hb - p - 1 - b) as u32)) & m,
                        m == 15 && b == 4 || m == 31 && b == 5 || m == 63 && b == 6,
                        h2 == p + b,
                        h2l == h2 as u64,
                        p <= 18,
                ;
            } else {
                let rest = switch_remainder(p, b, hash, hb);
                let q = (64 - register_mask(b as u8)) as u64;
                let x = !((rest as u64) << ((p + 1 + 64 - hb) as u64)) | (1u64 << q);
                crate::bitstream::lemma_or_bit_set(!((rest as u64) << ((p + 1 + 64 - hb) as u64)), q);
                crate::hyperloglog::lemma_leading_zeros_bound(x, q);
                assert((((index << b) | register) as u64) < (1u64 << h2l)) by (bit_vector)
                    requires
                        index < (1u32 << p),
                        register <= m,
                        m == 15 && b == 4 || m == 31 && b == 5 || m == 63 && b == 6,
                        h2 == p + b,
                        h2l == h2 as u64,
                        p <= 18,
                ;
            }
        } else {
            assert(((hash >> shift) as u64) < (1u64 << h2l)) by (bit_vector)
                requires
                    (hash as u64) < (1u64 << hl),
                    hl == hb as u64,
                    h2l == (hb - shift) as u64,
                    shift <= hb,
                    hb <= 32,
            ;
        }
    } else {
        vstd::arithmetic::power2::lemma_pow2_strictly_increases(p as nat, 32);
        vstd::bits::lemma_u32_shl_is_mul(1, p);
        if hb != p + b && !switch_flag(p, hash, hb) {
            let rest = switch_remainder(p, b, hash, hb);
            let q = (64 - register_mask(b as u8)) as u64;
            let x = !((rest as u64) << ((p + 1 + 64 - hb) as u64)) | (1u64 << q);
            crate::bitstream::lemma_or_bit_set(!((rest as u64) << ((p + 1 + 64 - hb) as u64)), q);
            crate::hyperloglog::lemma_leading_zeros_bound(x, q);
            vstd::std_specs::bits::axiom_u64_leading_zeros(x);
        }
        assert(register <= m);
        lemma_switch_encoding_fits(
            p,
            b,
            index,
            register,
            restored_hash(p, switch_remainder(p, b, hash, hb), hb),
            h2,
        );
    }
}

impl<P: Precision, B: Bits> SwitchHash<P, B> {
    /// Cuts every hash of the list down by `shift` bits, in place, keeping one hash of each
    /// run of equal results; returns the number of hashes dropped and the new number of bits
    /// of the list.
    #[verifier::spinoff_prover]
    #[verifier::rlimit(40)]
    pub fn downgrade_inplace(
        hashes: &mut [u8],
        number_of_hashes: u32,
        bit_index: u32,
        hash_bits: u8,
        shift: u8,
    ) -> (res: (u32, u32))
        requires
            bit_index == hash_bits * number_of_hashes,
            shift > 0 ==> {
                &&& hash_bits % 8 == 0
                &&& 16 <= hash_bits <= 32
                &&& shift % 8 == 0
                &&& P::spec_exponent() + B::spec_number_of_bits() + shift <= hash_bits
                &&& number_of_hashes * (hash_bits / 8) <= old(hashes)@.len()
                &&& forall|i: int|
                    0 <= i < number_of_hashes ==> (#[trigger] switch_decoding(
                        P::spec_exponent() as u32,
                        B::spec_number_of_bits() as u32,
                        stored_hashes(
                            old(hashes)@,
                            number_of_hashes as nat,
                            (hash_bits / 8) as nat,
                        )[i] as u32,
                        hash_bits as u32,
                    )).0 > 0
            },
        ensures
            final(hashes)@.len() == old(hashes)@.len(),
            shift == 0 ==> res == (0u32, bit_index) && final(hashes)@ == old(hashes)@,
            shift > 0 ==> {
                let d = dedup_consecutive(
                    downgraded_hashes(
                        P::spec_exponent() as u32,
                        B::spec_number_of_bits() as u32,
                        stored_hashes(
                            old(hashes)@,
                            number_of_hashes as nat,
                            (hash_bits / 8) as nat,
                        ),
                        hash_bits as u32,
                        shift as u32,
                    ),
                );
                &&& res.0 == number_of_hashes - d.len()
                &&& res.1 == d.len() * (hash_bits - shift)
                &&& stored_hashes(final(hashes)@, d.len(), ((hash_bits - shift) / 8) as nat) == d
            },
    {
        if shift == 0 {
            return (0, bit_index);
        }
        proof {
            P::lemma_exponent_range();
            B::lemma_number_of_bits_range();
        }
        let ghost old_hashes = hashes@;
        let ghost p = P::spec_exponent() as u32;
        let ghost b = B::spec_number_of_bits() as u32;
        let hash_bytes = (hash_bits / 8) as usize;
        let downgraded_hash_bytes = ((hash_bits - shift) / 8) as usize;
        let ghost s = stored_hashes(old_hashes, number_of_hashes as nat, hash_bytes as nat);
        let ghost m = downgraded_hashes(p, b, s, hash_bits as u32, shift as u32);
        let n = number_of_hashes as usize;
        let _len = hashes.len();
        let mut previous_downgraded_hash = u32::MAX;
        let mut duplicates: usize = 0;
        let mut i: usize = 0;
        proof {
            assert(m.take(0) =~= Seq::<nat>::empty());
            assert(stored_hashes(hashes@, 0, downgraded_hash_bytes as nat) =~= Seq::<nat>::empty());
        }
        while i < n
            invariant
                P::spec_exponent() == p,
                B::spec_number_of_bits() == b,
                4 <= p <= 18,
                4 <= b <= 6,
                hash_bits % 8 == 0,
                16 <= hash_bits <= 32,
                shift % 8 == 0,
                0 < shift,
                p + b + shift <= hash_bits,
                hash_bytes == hash_bits / 8,
                downgraded_hash_bytes == (hash_bits - shift) / 8,
                n == number_of_hashes,
                n * hash_bytes <= _len,
                _len == hashes@.len(),
                _len == old_hashes.len(),
                s == stored_hashes(old_hashes, n as nat, hash_bytes as nat),
                m == downgraded_hashes(p, b, s, hash_bits as u32, shift as u32),
                forall|k: int|
                    0 <= k < n ==> (#[trigger] switch_decoding(
                        p,
                        b,
                        s[k] as u32,
                        hash_bits as u32,
                    )).0 > 0,
                i <= n,
                duplicates <= i,
                dedup_consecutive(m.take(i as int)).len() == i - duplicates,
                stored_hashes(hashes@, (i - duplicates) as nat, downgraded_hash_bytes as nat)
                    == dedup_consecutive(m.take(i as int)),
                i == 0 ==> previous_downgraded_hash == u32::MAX,
                i > 0 ==> previous_downgraded_hash == m[i - 1],
                forall|q: int| i * hash_bytes <= q < _len ==> #[trigger] hashes@[q] == old_hashes[q],
            decreases n - i,
        {
            proof {
                assert((i + 1) * hash_bytes == i * hash_bytes + hash_bytes) by (nonlinear_arith);
                assert((i + 1) * hash_bytes <= n * hash_bytes) by (nonlinear_arith)
                    requires
                        i < n,
                ;
                lemma_le_value_frame(
                    hashes@,
                    old_hashes,
                    i * hash_bytes,
                    i * hash_bytes,
                    hash_bytes as nat,
                );
                lemma_le_value_bound(old_hashes, i * hash_bytes, hash_bytes as nat);
                vstd::arithmetic::power2::lemma2_to64();
                vstd::bits::lemma_u64_shl_is_mul(1, hash_bits as u64);
                vstd::arithmetic::power2::lemma_pow2_strictly_increases(hash_bits as nat, 33);
                assert(8 * hash_bytes == hash_bits);
            }
            let current_hash = read_hash(hashes, i, hash_bytes);
            assert(current_hash == s[i as int]);
            assert(switch_decoding(p, b, s[i as int] as u32, hash_bits as u32).0 > 0);
            let downgraded_hash = Self::downgrade(current_hash, hash_bits, shift);
            proof {
                lemma_switch_downgrading_fits(
                    p,
                    b,
                    current_hash,
                    hash_bits as u32,
                    shift as u32,
                );
                assert(m[i as int] == downgraded_hash);
                assert(m.take(i + 1).drop_last() =~= m.take(i as int));
                vstd::arithmetic::power2::lemma_pow2_strictly_increases(
                    (hash_bits - shift) as nat,
                    32,
                );
            }
            if downgraded_hash == previous_downgraded_hash {
                duplicates += 1;
                i += 1;
                proof {
                    assert(m.take(i as int)[i - 1] == m[i - 1]);
                    assert(m.take(i as int)[i - 2] == m[i - 2]);
                }
            } else {
                previous_downgraded_hash = downgraded_hash;
                let slot = i - duplicates;
                let ghost before_write = hashes@;
                proof {
                    assert((slot + 1) * downgraded_hash_bytes == slot * downgraded_hash_bytes
                        + downgraded_hash_bytes) by (nonlinear_arith);
                    assert((slot + 1) * downgraded_hash_bytes <= (i + 1) * hash_bytes)
                        by (nonlinear_arith)
                        requires
                            slot <= i,
                            downgraded_hash_bytes <= hash_bytes,
                    ;
                    assert(8 * downgraded_hash_bytes == hash_bits - shift);
                }
                write_hash(hashes, slot, downgraded_hash_bytes, downgraded_hash);
                proof {
                    let prev = dedup_consecutive(m.take(i as int));
                    let next = dedup_consecutive(m.take(i + 1));
                    if i > 0 {
                        assert(m.take(i + 1)[i - 1] == m[i - 1]);
                    }
                    assert(next == prev.push(m[i as int]));
                    let t = stored_hashes(hashes@, (slot + 1) as nat, downgraded_hash_bytes as nat);
                    assert forall|k: int| 0 <= k < slot + 1 implies #[trigger] t[k] == next[k] by {
                        if k < slot {
                            assert((k + 1) * downgraded_hash_bytes <= slot * downgraded_hash_bytes)
                                by (nonlinear_arith)
                                requires
                                    k < slot,
                            ;
                            assert(k * downgraded_hash_bytes + downgraded_hash_bytes == (k + 1)
                                * downgraded_hash_bytes) by (nonlinear_arith);
                            assert(0 <= k * downgraded_hash_bytes) by (nonlinear_arith)
                                requires
                                    0 <= k,
                            ;
                            lemma_le_value_frame(
                                hashes@,
                                before_write,
                                k * downgraded_hash_bytes,
                                k * downgraded_hash_bytes,
                                downgraded_hash_bytes as nat,
                            );
                            assert(stored_hashes(
                                before_write,
                                slot as nat,
                                downgraded_hash_bytes as nat,
                            )[k] == prev[k]);
                        }
                    }
                    assert(t =~= next);
                }
                i += 1;
            }
        }
        proof {
            assert(m.take(n as int) =~= m);
            assert((n - duplicates) * (hash_bits - shift) <= n * hash_bits) by (nonlinear_arith)
                requires
                    duplicates <= n,
                    shift <= hash_bits,
            ;
            assert(n * hash_bits == bit_index) by (nonlinear_arith)
                requires
                    bit_index == hash_bits * number_of_hashes,
                    n == number_of_hashes,
            ;
        }
        let kept = (number_of_hashes - duplicates as u32) * ((hash_bits - shift) as u32);
        (duplicates as u32, kept)
    }

    /// The number of bits of the hashes after one downgrade: eight fewer.
    pub fn target_downgraded_hash_bits(
        _number_of_hashes: u32,
        _bit_index: u32,
        hash_bits: u8,
    ) -> (bits: u8)
        requires
            hash_bits != smallest_viable_bits(P::spec_exponent(), B::spec_number_of_bits()),
            hash_bits >= 8,
        ensures
            bits == hash_bits - 8,
    {
        hash_bits - 8
    }
}

/// The composite hashes of a list can be cut down by `shift` bits: each fits in its bits and
/// holds a register.
pub open spec fn downgradable(p: u32, b: u32, s: Seq<nat>, hb: u32, shift: u32) -> bool {
    shift > 0 ==> forall|k: int|
        0 <= k < s.len() ==> (#[trigger] switch_decoding(p, b, s[k] as u32, hb)).0 > 0
}

/// Reads a hash list hash by hash, decoding each hash into its register and its index.
pub struct DecodedIter<'a, P: Precision, B: Bits> {
    hashes: &'a [u8],
    number_of_hashes: u32,
    hash_bits: u8,
    position: u32,
    _phantom: core::marker::PhantomData<SwitchHash<P, B>>,
}

/// Reads a hash list hash by hash, cutting each hash down by a number of bits.
pub struct DowngradedIter<'a, P: Precision, B: Bits> {
    hashes: &'a [u8],
    number_of_hashes: u32,
    hash_bits: u8,
    shift: u8,
    position: u32,
    _phantom: core::marker::PhantomData<SwitchHash<P, B>>,
}

impl<'a, P: Precision, B: Bits> DecodedIter<'a, P, B> {
    /// The hashes of the list.
    pub closed spec fn hashes(self) -> Seq<nat> {
        stored_hashes(self.hashes@, self.number_of_hashes as nat, (self.hash_bits / 8) as nat)
    }

    /// The number of hashes read so far.
    pub closed spec fn position(self) -> nat {
        self.position as nat
    }

    /// The number of bits of each hash.
    pub closed spec fn bits(self) -> u8 {
        self.hash_bits
    }

    /// The number of bits of the hashes read so far, kept to 32 bits.
    pub open spec fn buffered_end(self) -> u32 {
        ((self.position() * self.bits()) % 0x1_0000_0000) as u32
    }

    /// The list is well formed.
    pub closed spec fn wf(self) -> bool {
        &&& self.hash_bits % 8 == 0
        &&& P::spec_exponent() + B::spec_number_of_bits() <= self.hash_bits <= 32
        &&& self.number_of_hashes * (self.hash_bits / 8) as nat <= self.hashes@.len()
        &&& self.position <= self.number_of_hashes
    }

    /// Decodes the next hash of the list into its register and its index.
    pub fn next(&mut self) -> (item: Option<(u8, usize)>)
        requires
            old(self).wf(),
        ensures
            final(self).wf(),
            final(self).hashes() == old(self).hashes(),
            final(self).bits() == old(self).bits(),
            old(self).position() < old(self).hashes().len() ==> {
                &&& final(self).position() == old(self).position() + 1
                &&& item matches Some((register, index)) && decodes_to(P::spec_exponent() as u32,
                    B::spec_number_of_bits() as u32,
                    old(self).hashes()[old(self).position() as int] as u32,
                    old(self).bits() as u32, register, index)
            },
            old(self).position() >= old(self).hashes().len() ==> item is None && final(self).position()
                == old(self).position(),
    {
        if self.position >= self.number_of_hashes {
            return None;
        }
        let width = (self.hash_bits / 8) as usize;
        proof {
            P::lemma_exponent_range();
            B::lemma_number_of_bits_range();
            assert((self.position + 1) * width <= self.number_of_hashes * width) by (nonlinear_arith)
                requires
                    self.position < self.number_of_hashes,
            ;
            assert((self.position + 1) * width == self.position * width + width) by (nonlinear_arith);
        }
        let hash = read_hash(self.hashes, self.position as usize, width);
        self.position = self.position + 1;
        Some(SwitchHash::<P, B>::decode(hash, self.hash_bits))
    }
}

impl<'a, P: Precision, B: Bits> LastBufferedBit for DecodedIter<'a, P, B> {
    fn last_buffered_bit(&self) -> (bit: u32)
        ensures
            bit == self.buffered_end(),
    {
        self.position.wrapping_mul(self.hash_bits as u32)
    }

    fn hash_bits(&self) -> (bits: u8)
        ensures
            bits == self.bits(),
    {
        self.hash_bits
    }
}

impl<'a, P: Precision, B: Bits> DowngradedIter<'a, P, B> {
    /// The hashes of the list.
    pub closed spec fn hashes(self) -> Seq<nat> {
        stored_hashes(self.hashes@, self.number_of_hashes as nat, (self.hash_bits / 8) as nat)
    }

    /// The number of hashes read so far.
    pub closed spec fn position(self) -> nat {
        self.position as nat
    }

    /// The number of bits of each hash.
    pub closed spec fn bits(self) -> u8 {
        self.hash_bits
    }

    /// The number of bits of the hashes read so far, kept to 32 bits.
    pub open spec fn buffered_end(self) -> u32 {
        ((self.position() * self.bits()) % 0x1_0000_0000) as u32
    }

    /// The number of bits each hash is cut down by.
    pub closed spec fn cut(self) -> u8 {
        self.shift
    }

    /// The list is well formed and its hashes can be cut down.
    pub closed spec fn wf(self) -> bool {
        &&& self.hash_bits % 8 == 0
        &&& P::spec_exponent() + B::spec_number_of_bits() + self.shift <= self.hash_bits <= 32
        &&& self.number_of_hashes * (self.hash_bits / 8) as nat <= self.hashes@.len()
        &&& self.position <= self.number_of_hashes
        &&& downgradable(
            P::spec_exponent() as u32,
            B::spec_number_of_bits() as u32,
            self.hashes(),
            self.hash_bits as u32,
            self.shift as u32,
        )
    }

    /// Cuts the next hash of the list down.
    pub fn next(&mut self) -> (item: Option<u32>)
        requires
            old(self).wf(),
        ensures
            final(self).wf(),
            final(self).hashes() == old(self).hashes(),
            final(self).bits() == old(self).bits(),
            final(self).cut() == old(self).cut(),
            old(self).position() < old(self).hashes().len() ==> {
                &&& final(self).position() == old(self).position() + 1
                &&& item == Some(
                    switch_downgrading(
                        P::spec_exponent() as u32,
                        B::spec_number_of_bits() as u32,
                        old(self).hashes()[old(self).position() as int] as u32,
                        old(self).bits() as u32,
                        old(self).cut() as u32,
                    ),
                )
            },
            old(self).position() >= old(self).hashes().len() ==> item is None && final(self).position()
                == old(self).position(),
    {
        if self.position >= self.number_of_hashes {
            return None;
        }
        let width = (self.hash_bits / 8) as usize;
        proof {
            P::lemma_exponent_range();
            B::lemma_number_of_bits_range();
            assert((self.position + 1) * width <= self.number_of_hashes * width) by (nonlinear_arith)
                requires
                    self.position < self.number_of_hashes,
            ;
            assert((self.position + 1) * width == self.position * width + width) by (nonlinear_arith);
            lemma_le_value_bound(self.hashes@, self.position * width, width as nat);
            vstd::arithmetic::power2::lemma2_to64();
            vstd::arithmetic::power2::lemma_pow2_strictly_increases(self.hash_bits as nat, 33);
            vstd::bits::lemma_u64_shl_is_mul(1, self.hash_bits as u64);
            assert(8 * width == self.hash_bits);
        }
        let hash = read_hash(self.hashes, self.position as usize, width);
        proof {
            assert(hash == self.hashes()[self.position as int]);
            if self.shift > 0 {
                assert(switch_decoding(
                    P::spec_exponent() as u32,
                    B::spec_number_of_bits() as u32,
                    self.hashes()[self.position as int] as u32,
                    self.hash_bits as u32,
                ).0 > 0);
            }
        }
        self.position = self.position + 1;
        Some(SwitchHash::<P, B>::downgrade(hash, self.hash_bits, self.shift))
    }
}

impl<'a, P: Precision, B: Bits> LastBufferedBit for DowngradedIter<'a, P, B> {
    fn last_buffered_bit(&self) -> (bit: u32)
        ensures
            bit == self.buffered_end(),
    {
        self.position.wrapping_mul(self.hash_bits as u32)
    }

    fn hash_bits(&self) -> (bits: u8)
        ensures
            bits == self.bits(),
    {
        self.hash_bits
    }
}

impl<P: Precision, B: Bits> SwitchHash<P, B> {
    /// A reader that decodes the hashes of a list one by one.
    pub fn decoded(hashes: &[u8], number_of_hashes: u32, hash_bits: u8, bit_index: u32) -> (iter:
        DecodedIter<'_, P, B>)
        requires
            smallest_viable_bits(P::spec_exponent(), B::spec_number_of_bits()) <= hash_bits,
            P::spec_exponent() + B::spec_number_of_bits() <= hash_bits,
            is_hash_list(hashes@, number_of_hashes as nat, hash_bits),
            bit_index == number_of_hashes * hash_bits,
        ensures
            iter.wf(),
            iter.position() == 0,
            iter.bits() == hash_bits,
            iter.hashes() == stored_hashes(hashes@, number_of_hashes as nat, (hash_bits / 8) as nat),
    {
        DecodedIter {
            hashes,
            number_of_hashes,
            hash_bits,
            position: 0,
            _phantom: core::marker::PhantomData,
        }
    }

    /// A reader that cuts the hashes of a list down by `shift` bits one by one.
    pub fn downgraded(
        hashes: &[u8],
        number_of_hashes: u32,
        hash_bits: u8,
        bit_index: u32,
        shift: u8,
    ) -> (iter: DowngradedIter<'_, P, B>)
        requires
            P::spec_exponent() + B::spec_number_of_bits() + shift <= hash_bits,
            is_hash_list(hashes@, number_of_hashes as nat, hash_bits),
            bit_index == number_of_hashes * hash_bits,
            downgradable(
                P::spec_exponent() as u32,
                B::spec_number_of_bits() as u32,
                stored_hashes(hashes@, number_of_hashes as nat, (hash_bits / 8) as nat),
                hash_bits as u32,
                shift as u32,
            ),
        ensures
            iter.wf(),
            iter.position() == 0,
            iter.bits() == hash_bits,
            iter.cut() == shift,
            iter.hashes() == stored_hashes(hashes@, number_of_hashes as nat, (hash_bits / 8) as nat),
    {
        DowngradedIter {
            hashes,
            number_of_hashes,
            hash_bits,
            shift,
            position: 0,
            _phantom: core::marker::PhantomData,
        }
    }
}

} // verus!
