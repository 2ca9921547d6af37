//! Precisions and register widths of the counters.
//!
//! A precision fixes the number of registers (`2^exponent`), a register width fixes how many
//! bits each register occupies. Both are zero-sized marker types, and the composite hashes are
//! generic over them.
use vstd::prelude::*;

verus! {

/// The precision of a counter: it has `2^exponent` registers.
pub trait Precision {
    /// The exponent of the precision, as seen by specifications.
    spec fn spec_exponent() -> u8;

    /// Returns the exponent of the precision.
    fn exponent() -> (exponent: u8)
        ensures
            exponent == Self::spec_exponent(),
    ;

    /// Every precision has an exponent between 4 and 18.
    proof fn lemma_exponent_range()
        ensures
            4 <= Self::spec_exponent() <= 18,
    ;
}

/// The number of bits of each register of a counter.
pub trait Bits {
    /// The number of bits of each register, as seen by specifications.
    spec fn spec_number_of_bits() -> u8;

    /// Returns the number of bits of each register.
    fn number_of_bits() -> (bits: u8)
        ensures
            bits == Self::spec_number_of_bits(),
    ;

    /// Every register has 4, 5 or 6 bits.
    proof fn lemma_number_of_bits_range()
        ensures
            4 <= Self::spec_number_of_bits() <= 6,
    ;
}

/// The largest value that fits in a register of `bits` bits.
pub open spec fn register_mask(bits: u8) -> u64 {
    if bits == 4 {
        15
    } else if bits == 5 {
        31
    } else {
        63
    }
}

/// Returns the largest value that fits in a register of the given width.
pub fn mask_of<B: Bits>() -> (mask: u64)
    ensures
        mask == register_mask(B::spec_number_of_bits()),
        mask + 1 == vstd::arithmetic::power2::pow2(B::spec_number_of_bits() as nat),
{
    proof {
        B::lemma_number_of_bits_range();
        vstd::arithmetic::power2::lemma2_to64();
    }
    let bits = B::number_of_bits();
    if bits == 4 {
        15
    } else if bits == 5 {
        31
    } else {
        63
    }
}

/// Precision with `2^4` registers.
#[derive(Debug, Clone, Copy, PartialEq, Eq, Default)]
pub struct Precision4;

impl Precision for Precision4 {
    open spec fn spec_exponent() -> u8 {
        4
    }

    fn exponent() -> (exponent: u8) {
        4
    }

    proof fn lemma_exponent_range() {
    }
}

/// Precision with `2^5` registers.
#[derive(Debug, Clone, Copy, PartialEq, Eq, Default)]
pub struct Precision5;

impl Precision for Precision5 {
    open spec fn spec_exponent() -> u8 {
        5
    }

    fn exponent() -> (exponent: u8) {
        5
    }

    proof fn lemma_exponent_range() {
    }
}

/// Precision with `2^6` registers.
#[derive(Debug, Clone, Copy, PartialEq, Eq, Default)]
pub struct Precision6;

impl Precision for Precision6 {
    open spec fn spec_exponent() -> u8 {
        6
    }

    fn exponent() -> (exponent: u8) {
        6
    }

    proof fn lemma_exponent_range() {
    }
}

/// Precision with `2^7` registers.
#[derive(Debug, Clone, Copy, PartialEq, Eq, Default)]
pub struct Precision7;

impl Precision for Precision7 {
    open spec fn spec_exponent() -> u8 {
        7
    }

    fn exponent() -> (exponent: u8) {
        7
    }

    proof fn lemma_exponent_range() {
    }
}

/// Precision with `2^8` registers.
#[derive(Debug, Clone, Copy, PartialEq, Eq, Default)]
pub struct Precision8;

impl Precision for Precision8 {
    open spec fn spec_exponent() -> u8 {
        8
    }

    fn exponent() -> (exponent: u8) {
        8
    }

    proof fn lemma_exponent_range() {
    }
}

/// Precision with `2^9` registers.
#[derive(Debug, Clone, Copy, PartialEq, Eq, Default)]
pub struct Precision9;

impl Precision for Precision9 {
    open spec fn spec_exponent() -> u8 {
        9
    }

    fn exponent() -> (exponent: u8) {
        9
    }

    proof fn lemma_exponent_range() {
    }
}

/// Precision with `2^10` registers.
#[derive(Debug, Clone, Copy, PartialEq, Eq, Default)]
pub struct Precision10;

impl Precision for Precision10 {
    open spec fn spec_exponent() -> u8 {
        10
    }

    fn exponent() -> (exponent: u8) {
        10
    }

    proof fn lemma_exponent_range() {
    }
}

/// Precision with `2^11` registers.
#[derive(Debug, Clone, Copy, PartialEq, Eq, Default)]
pub struct Precision11;

impl Precision for Precision11 {
    open spec fn spec_exponent() -> u8 {
        11
    }

    fn exponent() -> (exponent: u8) {
        11
    }

    proof fn lemma_exponent_range() {
    }
}

/// Precision with `2^12` registers.
#[derive(Debug, Clone, Copy, PartialEq, Eq, Default)]
pub struct Precision12;

impl Precision for Precision12 {
    open spec fn spec_exponent() -> u8 {
        12
    }

    fn exponent() -> (exponent: u8) {
        12
    }

    proof fn lemma_exponent_range() {
    }
}

/// Precision with `2^13` registers.
#[derive(Debug, Clone, Copy, PartialEq, Eq, Default)]
pub struct Precision13;

impl Precision for Precision13 {
    open spec fn spec_exponent() -> u8 {
        13
    }

    fn exponent() -> (exponent: u8) {
        13
    }

    proof fn lemma_exponent_range() {
    }
}

/// Precision with `2^14` registers.
#[derive(Debug, Clone, Copy, PartialEq, Eq, Default)]
pub struct Precision14;

impl Precision for Precision14 {
    open spec fn spec_exponent() -> u8 {
        14
    }

    fn exponent() -> (exponent: u8) {
        14
    }

    proof fn lemma_exponent_range() {
    }
}

/// Precision with `2^15` registers.
#[derive(Debug, Clone, Copy, PartialEq, Eq, Default)]
pub struct Precision15;

impl Precision for Precision15 {
    open spec fn spec_exponent() -> u8 {
        15
    }

    fn exponent() -> (exponent: u8) {
        15
    }

    proof fn lemma_exponent_range() {
    }
}

/// Precision with `2^16` registers.
#[derive(Debug, Clone, Copy, PartialEq, Eq, Default)]
pub struct Precision16;

impl Precision for Precision16 {
    open spec fn spec_exponent() -> u8 {
        16
    }

    fn exponent() -> (exponent: u8) {
        16
    }

    proof fn lemma_exponent_range() {
    }
}

/// Precision with `2^17` registers.
#[derive(Debug, Clone, Copy, PartialEq, Eq, Default)]
pub struct Precision17;

impl Precision for Precision17 {
    open spec fn spec_exponent() -> u8 {
        17
    }

    fn exponent() -> (exponent: u8) {
        17
    }

    proof fn lemma_exponent_range() {
    }
}

/// Precision with `2^18` registers.
#[derive(Debug, Clone, Copy, PartialEq, Eq, Default)]
pub struct Precision18;

impl Precision for Precision18 {
    open spec fn spec_exponent() -> u8 {
        18
    }

    fn exponent() -> (exponent: u8) {
        18
    }

    proof fn lemma_exponent_range() {
    }
}

/// Registers of 4 bits.
#[derive(Debug, Clone, Copy, PartialEq, Eq, Default)]
pub struct Bits4;

impl Bits for Bits4 {
    open spec fn spec_number_of_bits() -> u8 {
        4
    }

    fn number_of_bits() -> (bits: u8) {
        4
    }

    proof fn lemma_number_of_bits_range() {
    }
}

/// Registers of 5 bits.
#[derive(Debug, Clone, Copy, PartialEq, Eq, Default)]
pub struct Bits5;

impl Bits for Bits5 {
    open spec fn spec_number_of_bits() -> u8 {
        5
    }

    fn number_of_bits() -> (bits: u8) {
        5
    }

    proof fn lemma_number_of_bits_range() {
    }
}

/// Registers of 6 bits.
#[derive(Debug, Clone, Copy, PartialEq, Eq, Default)]
pub struct Bits6;

impl Bits for Bits6 {
    open spec fn spec_number_of_bits() -> u8 {
        6
    }

    fn number_of_bits() -> (bits: u8) {
        6
    }

    proof fn lemma_number_of_bits_range() {
    }
}

} // verus!
