//! The gap hash: switch hashes stored, once the plain list is full, as the gaps between
//! consecutive hashes of the decreasing list.
//!
//! A gap between a hash and the next, smaller one is a pair: the difference of their uniform
//! parts (index and remainder, read as one number; zig-zag coded so that it is never negative)
//! and the register of the smaller hash minus one. The first is written with a Rice code, the
//! second with a unary code.
use crate::bitstream::{bits_of, overwrite, stream_of_words, zeros};
use crate::bitwriter::BitWriter;
use crate::precisions::{register_mask, Bits, Precision};
use crate::switch::{
    largest_viable_bits, lemma_switch_decode_encode, switch_composition, switch_decoding,
    switch_downgrading, switch_encoding, switch_remainder, SwitchHash,
};
use vstd::arithmetic::power2::pow2;
use crate::hyperloglog::is_hash_split;
use vstd::prelude::*;

use crate::switch::decodes_to;

verus! {

/// The composite hash that stores its list as gaps between consecutive hashes.
#[derive(Debug)]
pub struct GapHash<P: Precision, B: Bits> {
    switch: core::marker::PhantomData<SwitchHash<P, B>>,
}

/// The gap between two consecutive hashes of a decreasing list.
#[derive(Debug, Clone, Copy, PartialEq, Eq, Structural)]
pub struct GapFragment {
    /// The zig-zag coded difference of the uniform parts of the two hashes.
    pub uniform_delta: u32,
    /// The register of the second hash, minus one.
    pub geometric_minus_one: u8,
}

/// The number of bits of a switch hash after its index and flag; none when the hash is made
/// of its index and register alone.
pub open spec fn remainder_size(p: u32, b: u32, hb: u32) -> u32 {
    if hb == p + b {
        0
    } else {
        (hb - 1 - p) as u32
    }
}

/// The part of a switch hash expected to be uniformly distributed: its index followed by the
/// bits after the index, the flag and the register.
pub open spec fn gap_uniform(p: u32, b: u32, hash: u32, hb: u32) -> u32 {
    (switch_decoding(p, b, hash, hb).1 << remainder_size(p, b, hb)) | switch_remainder(
        p,
        b,
        hash,
        hb,
    )
}

/// The gap between the hash `previous` and the next hash `current` of a decreasing list.
pub open spec fn gap_between(p: u32, b: u32, previous: u32, current: u32, hb: u32) -> GapFragment {
    let register = switch_decoding(p, b, current, hb).0;
    if hb == p + b {
        GapFragment {
            uniform_delta: (switch_decoding(p, b, previous, hb).1 - switch_decoding(
                p,
                b,
                current,
                hb,
            ).1) as u32,
            geometric_minus_one: (register - 1) as u8,
        }
    } else {
        let up = gap_uniform(p, b, previous, hb);
        let uc = gap_uniform(p, b, current, hb);
        GapFragment {
            uniform_delta: if up > uc {
                (2 * (up - uc) - 1) as u32
            } else {
                (2 * (uc - up)) as u32
            },
            geometric_minus_one: (register - 1) as u8,
        }
    }
}

/// The uniform part that a zig-zag coded difference leads to from `previous`.
pub open spec fn uniform_after_gap(previous: u32, delta: u32) -> int {
    if delta % 2 == 0 {
        previous + delta / 2
    } else {
        previous - (delta / 2 + 1)
    }
}

/// The hash that follows `previous` in a decreasing list, given the gap between them.
pub open spec fn hash_after_gap_spec(p: u32, b: u32, previous: u32, gap: GapFragment, hb: u32) -> u32 {
    let register = (gap.geometric_minus_one + 1) as u32;
    if hb == p + b {
        switch_composition(
            p,
            b,
            (switch_decoding(p, b, previous, hb).1 - gap.uniform_delta) as u32,
            register,
            0,
            hb,
        )
    } else {
        let u = uniform_after_gap(gap_uniform(p, b, previous, hb), gap.uniform_delta) as u32;
        let size = remainder_size(p, b, hb);
        switch_composition(p, b, u >> size, register, u & ((1u32 << size) - 1) as u32, hb)
    }
}

/// A hash of `hb` bits: an index below `2^p` with its flag and remainder.
pub open spec fn fits_bits(hash: u32, hb: u32) -> bool {
    (hash as u64) < (1u64 << (hb as u64))
}

impl<P: Precision, B: Bits> GapHash<P, B> {
    /// Returns the gap between the hash `previous_hash` and the next, smaller hash
    /// `hash_to_encode` of a decreasing list of hashes of `hash_bits` bits.
    pub fn into_gap_fragment(previous_hash: u32, hash_to_encode: u32, hash_bits: u8) -> (gap:
        GapFragment)
        requires
            P::spec_exponent() + B::spec_number_of_bits() <= hash_bits <= 32,
            previous_hash > hash_to_encode,
            fits_bits(previous_hash, hash_bits as u32),
            switch_decoding(
                P::spec_exponent() as u32,
                B::spec_number_of_bits() as u32,
                hash_to_encode,
                hash_bits as u32,
            ).0 > 0,
        ensures
            gap == gap_between(
                P::spec_exponent() as u32,
                B::spec_number_of_bits() as u32,
                previous_hash,
                hash_to_encode,
                hash_bits as u32,
            ),
    {
        proof {
            P::lemma_exponent_range();
            B::lemma_number_of_bits_range();
        }
        let p = P::exponent();
        let b = B::number_of_bits();
        let previous_fragment = SwitchHash::<P, B>::scompose_hash(previous_hash, hash_bits);
        let fragment_to_encode = SwitchHash::<P, B>::scompose_hash(hash_to_encode, hash_bits);
        proof {
            lemma_uniform_bounds(
                p as u32,
                b as u32,
                previous_hash,
                hash_to_encode,
                hash_bits as u32,
            );
        }
        if p + b == hash_bits {
            GapFragment {
                uniform_delta: previous_fragment.index - fragment_to_encode.index,
                geometric_minus_one: fragment_to_encode.register - 1,
            }
        } else {
            let previous_uniform = previous_fragment.uniform(hash_bits);
            let to_encode_uniform = fragment_to_encode.uniform(hash_bits);
            proof {
                vstd::arithmetic::power2::lemma2_to64();
            }
            let uniform_delta = if previous_uniform > to_encode_uniform {
                let difference = previous_uniform - to_encode_uniform;
                proof {
                    vstd::bits::lemma_u32_shl_is_mul(difference, 1);
                }
                (difference << 1) - 1
            } else {
                let difference = to_encode_uniform - previous_uniform;
                proof {
                    vstd::bits::lemma_u32_shl_is_mul(difference, 1);
                }
                difference << 1
            };
            GapFragment { uniform_delta, geometric_minus_one: fragment_to_encode.register - 1 }
        }
    }

    /// The hash that follows `previous_hash` in a decreasing list of hashes of `hash_bits`
    /// bits, given the gap between them.
    pub fn hash_after_gap(previous_hash: u32, gap: GapFragment, hash_bits: u8) -> (hash: u32)
        requires
            P::spec_exponent() + B::spec_number_of_bits() <= hash_bits <= 32,
            gap.geometric_minus_one < 255,
            hash_bits == P::spec_exponent() + B::spec_number_of_bits() ==> gap.uniform_delta
                <= switch_decoding(
                P::spec_exponent() as u32,
                B::spec_number_of_bits() as u32,
                previous_hash,
                hash_bits as u32,
            ).1,
            hash_bits != P::spec_exponent() + B::spec_number_of_bits() ==> 0 <= uniform_after_gap(
                gap_uniform(
                    P::spec_exponent() as u32,
                    B::spec_number_of_bits() as u32,
                    previous_hash,
                    hash_bits as u32,
                ),
                gap.uniform_delta,
            ) <= u32::MAX,
        ensures
            hash == hash_after_gap_spec(
                P::spec_exponent() as u32,
                B::spec_number_of_bits() as u32,
                previous_hash,
                gap,
                hash_bits as u32,
            ),
    {
        proof {
            P::lemma_exponent_range();
            B::lemma_number_of_bits_range();
        }
        let p = P::exponent();
        let b = B::number_of_bits();
        let previous = SwitchHash::<P, B>::scompose_hash(previous_hash, hash_bits);
        if p + b == hash_bits {
            let index = previous.index - gap.uniform_delta;
            return SwitchHash::<P, B>::compose_hash(
                index,
                gap.geometric_minus_one + 1,
                0,
                hash_bits,
            );
        }
        let previous_uniform = previous.uniform(hash_bits);
        proof {
            crate::bitstream::lemma_u32_halving(gap.uniform_delta);
        }
        let uniform = if gap.uniform_delta & 1 == 0 {
            previous_uniform + (gap.uniform_delta >> 1)
        } else {
            previous_uniform - ((gap.uniform_delta >> 1) + 1)
        };
        let remainder_size = (hash_bits - 1 - p) as u32;
        proof {
            crate::bitstream::lemma_shl_one_positive(remainder_size as u64);
        }
        let index = uniform >> remainder_size;
        let remainder = uniform & ((1u32 << remainder_size) - 1);
        SwitchHash::<P, B>::compose_hash(index, gap.geometric_minus_one + 1, remainder, hash_bits)
    }
}

/// The uniform parts of hashes of `hb` bits lie below `2^(hb - 1)`; of two hashes in
/// decreasing order, the first has the index at least as large.
pub proof fn lemma_uniform_bounds(p: u32, b: u32, previous: u32, current: u32, hb: u32)
    requires
        4 <= p <= 18,
        4 <= b <= 6,
        p + b <= hb <= 32,
        previous > current,
        fits_bits(previous, hb),
    ensures
        switch_decoding(p, b, previous, hb).1 >= switch_decoding(p, b, current, hb).1,
        hb != p + b ==> gap_uniform(p, b, previous, hb) < 0x8000_0000,
        hb != p + b ==> gap_uniform(p, b, current, hb) < 0x8000_0000,
{
    let hl = hb as u64;
    let ip = switch_decoding(p, b, previous, hb).1;
    let ic = switch_decoding(p, b, current, hb).1;
    assert(ip >= ic) by (bit_vector)
        requires
            ip == previous >> ((hb - p) as u32),
            ic == current >> ((hb - p) as u32),
            previous > current,
            p < hb <= 32,
    ;
    if hb != p + b {
        let s = (hb - 1 - p) as u32;
        let rp = switch_remainder(p, b, previous, hb);
        let rc = switch_remainder(p, b, current, hb);
        let fb = (hb - 1 - p - b) as u32;
        assert(rp < (1u32 << s) && rc < (1u32 << s)) by (bit_vector)
            requires
                rp == previous & (((1u32 << fb) - 1) as u32) || rp == previous & (((1u32 << s) - 1) as u32),
                rc == current & (((1u32 << fb) - 1) as u32) || rc == current & (((1u32 << s) - 1) as u32),
                fb <= s,
                s < 32,
        ;
        assert(((ip << s) | rp) < 0x8000_0000 && ((ic << s) | rc) < 0x8000_0000) by (bit_vector)
            requires
                ip == previous >> ((hb - p) as u32),
                ic == current >> ((hb - p) as u32),
                (previous as u64) < (1u64 << hl),
                hl == hb as u64,
                previous > current,
                rp < (1u32 << s),
                rc < (1u32 << s),
                s == hb - 1 - p,
                p + 4 < hb <= 32,
        ;
    }
}

/// Following the gap between two hashes of valid splits leads from the first to the second.
pub proof fn lemma_gap_roundtrip(
    p: u8,
    b: u8,
    previous: (u64, u32, u64),
    current: (u64, u32, u64),
    hb: u32,
)
    requires
        4 <= p <= 18,
        4 <= b <= 6,
        p + b <= hb <= 32,
        is_hash_split(p, b, previous.0, previous.1, previous.2),
        is_hash_split(p, b, current.0, current.1, current.2),
        switch_encoding(p as u32, b as u32, previous.0 as u32, previous.1, previous.2, hb)
            > switch_encoding(p as u32, b as u32, current.0 as u32, current.1, current.2, hb),
    ensures
        ({
            let pe = switch_encoding(p as u32, b as u32, previous.0 as u32, previous.1, previous.2, hb);
            let ce = switch_encoding(p as u32, b as u32, current.0 as u32, current.1, current.2, hb);
            hash_after_gap_spec(
                p as u32,
                b as u32,
                pe,
                gap_between(p as u32, b as u32, pe, ce, hb),
                hb,
            ) == ce
        }),
{
    let pp = p as u32;
    let bb = b as u32;
    let pe = switch_encoding(pp, bb, previous.0 as u32, previous.1, previous.2, hb);
    let ce = switch_encoding(pp, bb, current.0 as u32, current.1, current.2, hb);
    lemma_switch_decode_encode(p, b, previous.0, previous.1, previous.2, hb);
    lemma_switch_decode_encode(p, b, current.0, current.1, current.2, hb);
    crate::hyperloglog::lemma_hash_register_range(p, b, current.2);
    lemma_uniform_bounds(pp, bb, pe, ce, hb);
    let gap = gap_between(pp, bb, pe, ce, hb);
    lemma_split_uniform_parts(p, b, current.0, current.1, current.2, hb);
    if hb == pp + bb {
        assert(switch_remainder(pp, bb, ce, hb) == 0);
    }
}

/// The uniform part of the hash of a register taken from a hash splits back into the index
/// and the remainder of that hash.
pub proof fn lemma_split_uniform_parts(p: u8, b: u8, index: u64, register: u32, hash: u64, hb: u32)
    requires
        4 <= p <= 18,
        4 <= b <= 6,
        p + b <= hb <= 32,
        is_hash_split(p, b, index, register, hash),
    ensures
        index as u32 == index,
        (index as u32) < (1u32 << (p as u32)),
        hb != p + b ==> ({
            let e = switch_encoding(p as u32, b as u32, index as u32, register, hash, hb);
            let s = remainder_size(p as u32, b as u32, hb);
            &&& gap_uniform(p as u32, b as u32, e, hb) >> s == index as u32
            &&& gap_uniform(p as u32, b as u32, e, hb) & (((1u32 << s) - 1) as u32)
                == switch_remainder(p as u32, b as u32, e, hb)
        }),
{
    let pp = p as u32;
    let bb = b as u32;
    let ce = switch_encoding(pp, bb, index as u32, register, hash, hb);
    lemma_switch_decode_encode(p, b, index, register, hash, hb);
    let rc = switch_remainder(pp, bb, ce, hb);
    let ic = index as u32;
    assert(ic == index && ic < (1u32 << pp)) by (bit_vector)
        requires
            index == hash & (((1u64 << (pp as u64)) - 1) as u64),
            ic == index as u32,
            pp <= 18,
    ;
    if hb != pp + bb {
        let s = (hb - 1 - pp) as u32;
        let fb = (hb - 1 - pp - bb) as u32;
        let uc = gap_uniform(pp, bb, ce, hb);
        assert(uc >> s == ic && uc & (((1u32 << s) - 1) as u32) == rc) by (bit_vector)
            requires
                uc == (ic << s) | rc,
                rc == ce & (((1u32 << fb) - 1) as u32) || rc == ce & (((1u32 << s) - 1) as u32),
                fb <= s,
                ic < (1u32 << pp),
                s == hb - 1 - pp,
                pp < hb <= 32,
        ;
    }
}

/// The uniform part of the hash before a gap, recovered from the hash after it.
pub open spec fn uniform_before_gap(current: u32, delta: u32) -> int {
    if delta % 2 == 1 {
        (delta + 1) / 2 + current
    } else {
        current - delta / 2
    }
}

/// The zig-zag code of the difference from `from` to `to`.
pub open spec fn zigzag(from: int, to: int) -> int {
    if from > to {
        2 * (from - to) - 1
    } else {
        2 * (to - from)
    }
}

/// The gap from the unknown hash that precedes `current` (the gap between them is `gap`) to
/// the hash `replacement`.
pub open spec fn applied_gap(p: u32, b: u32, current: u32, gap: GapFragment, replacement: u32, hb: u32) -> GapFragment {
    let register = switch_decoding(p, b, replacement, hb).0;
    if hb == p + b {
        GapFragment {
            uniform_delta: (gap.uniform_delta + switch_decoding(p, b, current, hb).1
                - switch_decoding(p, b, replacement, hb).1) as u32,
            geometric_minus_one: (register - 1) as u8,
        }
    } else {
        GapFragment {
            uniform_delta: zigzag(
                uniform_before_gap(gap_uniform(p, b, current, hb), gap.uniform_delta),
                gap_uniform(p, b, replacement, hb) as int,
            ) as u32,
            geometric_minus_one: (register - 1) as u8,
        }
    }
}

/// The smallest number of bits of a gap hash: index and register.
pub open spec fn gap_smallest_bits(p: u8, b: u8) -> u8 {
    (p + b) as u8
}

/// Whether the list keeps a rank index: only when it is expected to hold many hashes.
pub open spec fn has_rank_index_spec(p: u8, b: u8) -> bool {
    (pow2(p as nat) * b) as int / ((p + b) as int) > 500
}

/// The number of bits of each bit index kept in the rank index.
pub open spec fn rank_index_bits_spec(p: u8, b: u8) -> u8 {
    (p + if b == 4 {
        2u8
    } else {
        3u8
    }) as u8
}

/// The number of buckets of the rank index.
pub open spec fn rank_index_capacity_spec(p: u8) -> nat {
    pow2((p - 9) as nat)
}

/// The number of bits the rank index takes with hashes of `hb` bits.
pub open spec fn rank_index_total_size_spec(p: u8, b: u8, hb: u8) -> nat {
    if has_rank_index_spec(p, b) {
        ((rank_index_capacity_spec(p) - 1) * (rank_index_bits_spec(p, b) + hb)) as nat
    } else {
        0
    }
}

/// `count` entries of a freshly initialised rank index: a bit index of `bits` ones, then a
/// hash of `hb` zeros.
pub open spec fn empty_rank_index(bits: nat, hb: nat, count: nat) -> Seq<bool>
    decreases count,
{
    if count == 0 {
        Seq::empty()
    } else {
        empty_rank_index(bits, hb, (count - 1) as nat) + Seq::new(bits, |i: int| true) + zeros(hb)
    }
}

/// The lowest `n` bits of `2^n - 1` are ones.
pub proof fn lemma_bits_of_all_ones(n: nat)
    ensures
        bits_of((pow2(n) - 1) as nat, n) == Seq::new(n, |i: int| true),
{
    let ones = Seq::new(n, |i: int| true);
    lemma_value_of_ones(ones);
    crate::bitstream::lemma_bits_of_value_of(ones);
}

proof fn lemma_value_of_ones(s: Seq<bool>)
    requires
        forall|i: int| 0 <= i < s.len() ==> s[i],
    ensures
        crate::bitstream::value_of(s) + 1 == pow2(s.len()),
    decreases s.len(),
{
    vstd::arithmetic::power2::lemma2_to64();
    if s.len() > 0 {
        lemma_value_of_ones(s.drop_last());
        vstd::arithmetic::power2::lemma_pow2_adds((s.len() - 1) as nat, 1);
    }
}

impl<P: Precision, B: Bits> GapHash<P, B> {
    /// Encodes the register `register` of index `index`, taken from the original hash
    /// `original_hash`, into a hash of `hash_bits` bits.
    pub fn encode(index: usize, register: u8, original_hash: u64, hash_bits: u8) -> (encoded: u32)
        requires
            0 < register <= register_mask(B::spec_number_of_bits()),
            (index as nat) < pow2(P::spec_exponent() as nat),
            P::spec_exponent() + B::spec_number_of_bits() <= hash_bits <= 32,
        ensures
            encoded == switch_encoding(
                P::spec_exponent() as u32,
                B::spec_number_of_bits() as u32,
                index as u32,
                register as u32,
                original_hash,
                hash_bits as u32,
            ),
    {
        SwitchHash::<P, B>::encode(index, register, original_hash, hash_bits)
    }

    /// Decodes a hash of `hash_bits` bits into its register and its index.
    pub fn decode(hash: u32, hash_bits: u8) -> (decoded: (u8, usize))
        requires
            P::spec_exponent() + B::spec_number_of_bits() <= hash_bits <= 32,
        ensures
            decodes_to(P::spec_exponent() as u32,
                B::spec_number_of_bits() as u32,
                hash,
                hash_bits as u32, decoded.0, decoded.1),
    {
        SwitchHash::<P, B>::decode(hash, hash_bits)
    }

    /// Cuts a hash of `hash_bits` bits down to `hash_bits - shift` bits.
    pub fn downgrade(hash: u32, hash_bits: u8, shift: u8) -> (downgraded: u32)
        requires
            P::spec_exponent() + B::spec_number_of_bits() + shift <= hash_bits <= 32,
            shift > 0 ==> (hash as u64) < (1u64 << (hash_bits as u64)),
            shift > 0 ==> switch_decoding(
                P::spec_exponent() as u32,
                B::spec_number_of_bits() as u32,
                hash,
                hash_bits as u32,
            ).0 > 0,
        ensures
            downgraded == switch_downgrading(
                P::spec_exponent() as u32,
                B::spec_number_of_bits() as u32,
                hash,
                hash_bits as u32,
                shift as u32,
            ),
    {
        SwitchHash::<P, B>::downgrade(hash, hash_bits, shift)
    }

    /// The smallest number of bits of a gap hash.
    pub fn smallest_viable_hash_bits() -> (bits: u8)
        ensures
            bits == gap_smallest_bits(P::spec_exponent(), B::spec_number_of_bits()),
    {
        proof {
            P::lemma_exponent_range();
            B::lemma_number_of_bits_range();
        }
        P::exponent() + B::number_of_bits()
    }

    /// The largest number of bits of a gap hash: that of a switch hash.
    pub fn largest_viable_hash_bits() -> (bits: u8)
        ensures
            bits == largest_viable_bits(P::spec_exponent(), B::spec_number_of_bits()),
    {
        crate::switch::maximal_viable_switch_hash::<P, B>()
    }

    /// Whether a list of `number_of_hashes` hashes of `hash_bits` bits that ends at
    /// `bit_index` is written with prefix-free codes: its hashes are shorter than the largest
    /// or take fewer bits than they would plain.
    pub fn is_prefix_free_encoded(number_of_hashes: u32, hash_bits: u8, bit_index: u32) -> (encoded:
        bool)
        requires
            number_of_hashes * hash_bits <= u32::MAX,
        ensures
            encoded == (hash_bits < largest_viable_bits(P::spec_exponent(), B::spec_number_of_bits())
                || number_of_hashes * hash_bits > bit_index),
    {
        hash_bits < Self::largest_viable_hash_bits() || number_of_hashes * (hash_bits as u32) > bit_index
    }

    /// Whether the list keeps a rank index.
    pub fn has_rank_index() -> (has: bool)
        ensures
            has == has_rank_index_spec(P::spec_exponent(), B::spec_number_of_bits()),
    {
        proof {
            P::lemma_exponent_range();
            B::lemma_number_of_bits_range();
            vstd::arithmetic::power2::lemma2_to64();
            vstd::arithmetic::power2::lemma_pow2_strictly_increases(P::spec_exponent() as nat, 19);
            vstd::bits::lemma_u64_shl_is_mul(1, P::spec_exponent() as u64);
        }
        let p = P::exponent() as u64;
        let b = B::number_of_bits() as u64;
        let registers = 1u64 << p;
        proof {
            assert(registers * b < 0x1_0000_0000) by (nonlinear_arith)
                requires
                    registers < 524288,
                    b <= 6,
            ;
        }
        registers * b / (p + b) > 500
    }

    /// The number of bits of each bit index kept in the rank index.
    pub fn rank_index_bits() -> (bits: u8)
        ensures
            bits == rank_index_bits_spec(P::spec_exponent(), B::spec_number_of_bits()),
    {
        proof {
            P::lemma_exponent_range();
            B::lemma_number_of_bits_range();
        }
        P::exponent() + if B::number_of_bits() == 4 {
            2
        } else {
            3
        }
    }

    /// The base-two logarithm of the number of buckets of the rank index.
    pub fn rank_index_exponent() -> (exponent: u8)
        requires
            P::spec_exponent() >= 9,
        ensures
            exponent == P::spec_exponent() - 9,
    {
        P::exponent() - 9
    }

    /// The number of buckets of the rank index.
    pub fn rank_index_capacity() -> (capacity: u32)
        requires
            P::spec_exponent() >= 9,
        ensures
            capacity == rank_index_capacity_spec(P::spec_exponent()),
            P::spec_exponent() >= 10 ==> capacity >= 2,
            capacity <= 512,
    {
        proof {
            P::lemma_exponent_range();
            vstd::arithmetic::power2::lemma2_to64();
            vstd::arithmetic::power2::lemma_pow2_strictly_increases((P::spec_exponent() - 9) as nat, 10);
            if P::spec_exponent() >= 11 {
                vstd::arithmetic::power2::lemma_pow2_strictly_increases(
                    1,
                    (P::spec_exponent() - 9) as nat,
                );
            }
            vstd::bits::lemma_u32_shl_is_mul(1, (P::spec_exponent() - 9) as u32);
        }
        1u32 << (Self::rank_index_exponent() as u32)
    }

    /// The number of bits the rank index takes with hashes of `hash_bits` bits.
    pub fn rank_index_total_size(hash_bits: u8) -> (size: u32)
        requires
            has_rank_index_spec(P::spec_exponent(), B::spec_number_of_bits()) ==> rank_index_bits_spec(
                P::spec_exponent(),
                B::spec_number_of_bits(),
            ) + hash_bits <= 255,
        ensures
            size == rank_index_total_size_spec(P::spec_exponent(), B::spec_number_of_bits(), hash_bits),
            hash_bits <= 32 ==> size <= 511 * 53,
            size <= 511 * 255,
    {
        if Self::has_rank_index() {
            proof {
                P::lemma_exponent_range();
                B::lemma_number_of_bits_range();
                lemma_rank_index_precision(P::spec_exponent(), B::spec_number_of_bits());
            }
            let capacity = Self::rank_index_capacity();
            let bits = Self::rank_index_bits();
            proof {
                if hash_bits <= 32 {
                    assert((capacity - 1) * ((bits + hash_bits) as u32) <= 511 * 53) by (nonlinear_arith)
                        requires
                            2 <= capacity <= 512,
                            bits + hash_bits <= 53,
                    ;
                }
                assert((capacity - 1) * ((bits + hash_bits) as u32) <= 511 * 255) by (nonlinear_arith)
                    requires
                        2 <= capacity <= 512,
                        bits + hash_bits <= 255,
                ;
            }
            (capacity - 1) * ((bits + hash_bits) as u32)
        } else {
            0
        }
    }

    /// The number of bits the rank index takes, rounded up to whole bytes.
    pub fn rank_index_padded_size(hash_bits: u8) -> (size: u32)
        requires
            has_rank_index_spec(P::spec_exponent(), B::spec_number_of_bits()) ==> rank_index_bits_spec(
                P::spec_exponent(),
                B::spec_number_of_bits(),
            ) + hash_bits <= 255,
        ensures
            size == (rank_index_total_size_spec(P::spec_exponent(), B::spec_number_of_bits(), hash_bits)
                + 7) / 8 * 8,
    {
        let total = Self::rank_index_total_size(hash_bits);
        (total + 7) / 8 * 8
    }

    /// The bit index at which the rank index starts in a buffer of `words` words.
    pub fn rank_index_offset(hashes: &[u64], hash_bits: u8) -> (offset: u32)
        requires
            hash_bits <= 32,
            hashes@.len() <= 0x01ff_ffff,
            rank_index_total_size_spec(P::spec_exponent(), B::spec_number_of_bits(), hash_bits) <= 64
                * hashes@.len(),
        ensures
            offset == 64 * hashes@.len() - rank_index_total_size_spec(
                P::spec_exponent(),
                B::spec_number_of_bits(),
                hash_bits,
            ),
    {
        proof {
            P::lemma_exponent_range();
            B::lemma_number_of_bits_range();
        }
        (hashes.len() as u32) * 64 - Self::rank_index_total_size(hash_bits)
    }

    /// Writes an empty rank index at the end of the buffer: each bucket gets a bit index of
    /// all ones and a hash of zeros.
    pub fn initialize_rank_index(hashes: &mut Vec<u64>, hash_bits: u8)
        requires
            has_rank_index_spec(P::spec_exponent(), B::spec_number_of_bits()),
            hash_bits <= 32,
            0 < old(hashes)@.len() <= 0x01ff_ffff,
            rank_index_total_size_spec(P::spec_exponent(), B::spec_number_of_bits(), hash_bits) <= 64
                * old(hashes)@.len(),
        ensures
            final(hashes)@.len() == old(hashes)@.len(),
            stream_of_words(final(hashes)@) == overwrite(
                stream_of_words(old(hashes)@),
                64 * old(hashes)@.len() - rank_index_total_size_spec(
                    P::spec_exponent(),
                    B::spec_number_of_bits(),
                    hash_bits,
                ),
                empty_rank_index(
                    rank_index_bits_spec(P::spec_exponent(), B::spec_number_of_bits()) as nat,
                    hash_bits as nat,
                    (rank_index_capacity_spec(P::spec_exponent()) - 1) as nat,
                ),
            ),
    {
        proof {
            P::lemma_exponent_range();
            B::lemma_number_of_bits_range();
            vstd::arithmetic::power2::lemma2_to64();
            lemma_rank_index_precision(P::spec_exponent(), B::spec_number_of_bits());
        }
        let words = hashes.len();
        let offset = Self::rank_index_offset(hashes.as_slice(), hash_bits);
        let mut data: Vec<u64> = Vec::new();
        core::mem::swap(&mut data, hashes);
        let ghost initial = stream_of_words(data@);
        let mut writer = BitWriter::new(data);
        let bits = Self::rank_index_bits();
        let capacity = Self::rank_index_capacity();
        let ghost entry = (bits + hash_bits) as nat;
        proof {
            assert((capacity - 1) * entry >= 1) by (nonlinear_arith)
                requires
                    capacity >= 2,
                    entry >= 1,
            ;
        }
        proof {
            crate::bitstream::lemma_shl_one_positive(bits as u64);
            lemma_bits_of_all_ones(bits as nat);
            vstd::bits::lemma_u32_shl_is_mul(1, bits as u32);
            crate::bitstream::lemma_bits_of_zero(hash_bits as nat);
            vstd::arithmetic::power2::lemma_pow2_strictly_increases(bits as nat, 32);
            assert(empty_rank_index(bits as nat, hash_bits as nat, 0) =~= Seq::<bool>::empty());
            assert(overwrite(initial, offset as int, Seq::<bool>::empty()) =~= initial);
        }
        let mask = (1u32 << (bits as u32)) - 1;
        if offset < 64 * (words as u32) {
            writer.seek(offset);
        }
        let mut k: u32 = 1;
        while k < capacity
            invariant
                writer.wf(),
                writer.capacity() == 64 * words,
                1 <= k <= capacity,
                capacity == rank_index_capacity_spec(P::spec_exponent()),
                capacity <= 512,
                entry == bits + hash_bits,
                offset + (capacity - 1) * entry == 64 * words,
                offset < 64 * words ==> writer.position() == offset + (k - 1) * entry,
                offset == 64 * words ==> capacity == 1,
                mask as nat == pow2(bits as nat) - 1,
                bits <= 32,
                hash_bits <= 32,
                bits_of(mask as nat, bits as nat) == Seq::new(bits as nat, |i: int| true),
                bits_of(0, hash_bits as nat) == zeros(hash_bits as nat),
                writer.view() == overwrite(
                    initial,
                    offset as int,
                    empty_rank_index(bits as nat, hash_bits as nat, (k - 1) as nat),
                ),
                initial.len() == 64 * words,
            decreases capacity - k,
        {
            proof {
                assert((k - 1) * entry + entry <= (capacity - 1) * entry) by (nonlinear_arith)
                    requires
                        k < capacity,
                ;
                assert((k - 1) * entry + entry == k * entry) by (nonlinear_arith);
            }
            let ghost before = writer.view();
            writer.write_bits(mask as u64, bits);
            writer.write_bits(0, hash_bits);
            proof {
                let pos = offset + (k - 1) * entry;
                let pat = empty_rank_index(bits as nat, hash_bits as nat, (k - 1) as nat);
                assert(pat.len() == (k - 1) * entry) by {
                    lemma_empty_rank_index_len(bits as nat, hash_bits as nat, (k - 1) as nat);
                }
                crate::bitstream::lemma_overwrite_compose(
                    initial,
                    offset as int,
                    pat,
                    Seq::new(bits as nat, |i: int| true),
                );
                crate::bitstream::lemma_overwrite_compose(
                    initial,
                    offset as int,
                    pat + Seq::new(bits as nat, |i: int| true),
                    zeros(hash_bits as nat),
                );
            }
            k += 1;
        }
        *hashes = writer.into_words();
        proof {
            lemma_empty_rank_index_len(bits as nat, hash_bits as nat, (capacity - 1) as nat);
        }
    }

    /// The gap from the unknown hash before `current_hash` (given by the gap between them) to
    /// `replacement_hash`, which takes the place of `current_hash` after it.
    pub fn apply_gap(
        current_hash: u32,
        current_hash_gap_fragment: GapFragment,
        replacement_hash: u32,
        hash_bits: u8,
    ) -> (gap: GapFragment)
        requires
            P::spec_exponent() + B::spec_number_of_bits() <= hash_bits <= 32,
            switch_decoding(
                P::spec_exponent() as u32,
                B::spec_number_of_bits() as u32,
                replacement_hash,
                hash_bits as u32,
            ).0 > 0,
            hash_bits == P::spec_exponent() + B::spec_number_of_bits() ==> {
                let delta = current_hash_gap_fragment.uniform_delta;
                let ic = switch_decoding(
                    P::spec_exponent() as u32,
                    B::spec_number_of_bits() as u32,
                    current_hash,
                    hash_bits as u32,
                ).1;
                let ir = switch_decoding(
                    P::spec_exponent() as u32,
                    B::spec_number_of_bits() as u32,
                    replacement_hash,
                    hash_bits as u32,
                ).1;
                delta + ic <= u32::MAX && delta + ic >= ir
            },
            hash_bits != P::spec_exponent() + B::spec_number_of_bits() ==> {
                let delta = current_hash_gap_fragment.uniform_delta;
                let uc = gap_uniform(
                    P::spec_exponent() as u32,
                    B::spec_number_of_bits() as u32,
                    current_hash,
                    hash_bits as u32,
                );
                let ur = gap_uniform(
                    P::spec_exponent() as u32,
                    B::spec_number_of_bits() as u32,
                    replacement_hash,
                    hash_bits as u32,
                );
                &&& delta < u32::MAX
                &&& 0 <= uniform_before_gap(uc, delta) < 0x8000_0000
                &&& ur < 0x8000_0000
            },
        ensures
            gap == applied_gap(
                P::spec_exponent() as u32,
                B::spec_number_of_bits() as u32,
                current_hash,
                current_hash_gap_fragment,
                replacement_hash,
                hash_bits as u32,
            ),
    {
        proof {
            P::lemma_exponent_range();
            B::lemma_number_of_bits_range();
            vstd::arithmetic::power2::lemma2_to64();
        }
        let p = P::exponent();
        let b = B::number_of_bits();
        let current_hash_fragment = SwitchHash::<P, B>::scompose_hash(current_hash, hash_bits);
        let replacement_hash_fragment = SwitchHash::<P, B>::scompose_hash(
            replacement_hash,
            hash_bits,
        );
        if p + b == hash_bits {
            let previous_hash_index = current_hash_gap_fragment.uniform_delta
                + current_hash_fragment.index;
            let uniform_delta = previous_hash_index - replacement_hash_fragment.index;
            GapFragment {
                uniform_delta,
                geometric_minus_one: replacement_hash_fragment.register - 1,
            }
        } else {
            let current_hash_uniform = current_hash_fragment.uniform(hash_bits);
            let replacement_hash_uniform = replacement_hash_fragment.uniform(hash_bits);
            let delta = current_hash_gap_fragment.uniform_delta;
            proof {
                crate::bitstream::lemma_u32_halving(delta);
                crate::bitstream::lemma_u32_halving((delta + 1) as u32);
            }
            let previous_uniform = if delta & 1 == 1 {
                ((delta + 1) >> 1) + current_hash_uniform
            } else {
                current_hash_uniform - (delta >> 1)
            };
            let uniform_delta = if previous_uniform > replacement_hash_uniform {
                let difference = previous_uniform - replacement_hash_uniform;
                proof {
                    vstd::bits::lemma_u32_shl_is_mul(difference, 1);
                }
                (difference << 1) - 1
            } else {
                let difference = replacement_hash_uniform - previous_uniform;
                proof {
                    vstd::bits::lemma_u32_shl_is_mul(difference, 1);
                }
                difference << 1
            };
            GapFragment {
                uniform_delta,
                geometric_minus_one: replacement_hash_fragment.register - 1,
            }
        }
    }
}

/// The length of a freshly initialised rank index.
proof fn lemma_empty_rank_index_len(bits: nat, hb: nat, count: nat)
    ensures
        empty_rank_index(bits, hb, count).len() == count * (bits + hb),
    decreases count,
{
    if count > 0 {
        lemma_empty_rank_index_len(bits, hb, (count - 1) as nat);
        let previous = empty_rank_index(bits, hb, (count - 1) as nat);
        assert(empty_rank_index(bits, hb, count).len() == previous.len() + bits + hb);
        assert((count - 1) * (bits + hb) + bits + hb == count * (bits + hb)) by (nonlinear_arith)
            requires
                count >= 1,
        ;
    } else {
        assert(count * (bits + hb) == 0) by (nonlinear_arith)
            requires
                count == 0,
        ;
    }
}

/// A list keeps a rank index only with a precision of at least ten.
pub proof fn lemma_rank_index_precision(p: u8, b: u8)
    requires
        4 <= p <= 18,
        4 <= b <= 6,
        has_rank_index_spec(p, b),
    ensures
        p >= 10,
{
    if p < 10 {
        vstd::arithmetic::power2::lemma2_to64();
        if p < 9 {
            vstd::arithmetic::power2::lemma_pow2_strictly_increases(p as nat, 9);
        }
        let x = pow2(p as nat);
        assert((x * b) as int / ((p + b) as int) <= 500) by (nonlinear_arith)
            requires
                x <= 512,
                b <= 6,
                p + b >= 8,
        ;
    }
}

/// Re-pointing a gap to a hash that takes the place of the second hash gives the gap between
/// the first hash and the new one; the gap and the hashes are ones that `apply_gap` accepts.
pub proof fn lemma_apply_gap_rebases(
    p: u32,
    b: u32,
    previous: u32,
    current: u32,
    replacement: u32,
    hb: u32,
)
    requires
        4 <= p <= 18,
        4 <= b <= 6,
        p + b <= hb <= 32,
        previous > replacement,
        previous > current,
        fits_bits(previous, hb),
    ensures
        applied_gap(p, b, current, gap_between(p, b, previous, current, hb), replacement, hb)
            == gap_between(p, b, previous, replacement, hb),
        hb == p + b ==> gap_between(p, b, previous, current, hb).uniform_delta + switch_decoding(
            p,
            b,
            current,
            hb,
        ).1 <= u32::MAX && gap_between(p, b, previous, current, hb).uniform_delta + switch_decoding(
            p,
            b,
            current,
            hb,
        ).1 >= switch_decoding(p, b, replacement, hb).1,
        hb != p + b ==> {
            let delta = gap_between(p, b, previous, current, hb).uniform_delta;
            &&& delta < u32::MAX
            &&& 0 <= uniform_before_gap(gap_uniform(p, b, current, hb), delta) < 0x8000_0000
            &&& gap_uniform(p, b, replacement, hb) < 0x8000_0000
        },
{
    lemma_uniform_bounds(p, b, previous, current, hb);
    lemma_uniform_bounds(p, b, previous, replacement, hb);
    let x = applied_gap(p, b, current, gap_between(p, b, previous, current, hb), replacement, hb);
    let y = gap_between(p, b, previous, replacement, hb);
    assert(x.uniform_delta == y.uniform_delta);
    assert(x.geometric_minus_one == y.geometric_minus_one);
}

} // verus!
