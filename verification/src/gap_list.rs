//! The prefix-free code of a decreasing list of gap hashes, and the iterators that decode it.
//!
//! The list starts with its first hash, written on `hash_bits` bits; every following hash is
//! written as the gap from the hash before it: the Rice code of the uniform difference,
//! followed by the unary code of the register minus one.
use crate::bitreader::BitReader;
use crate::bitstream::{
    bits_of, is_zero_run, lemma_value_of_bits_of, lemma_zero_run_unique, unary_code, value_of,
};
use crate::bitwriter::rice_code;
use crate::composite_hash::LastBufferedBit;
use crate::gaps::{
    fits_bits, gap_between, gap_uniform, lemma_uniform_bounds, remainder_size, uniform_after_gap,
    GapFragment, GapHash,
};
use crate::switch::switch_remainder;
use crate::switch::{
    switch_downgrading, DecodedIter, DowngradedIter, downgradable,
    is_hash_list, largest_viable_bits, smallest_viable_bits, switch_decoding, switch_encoding,
};
use crate::gaps::{has_rank_index_spec, rank_index_total_size_spec};
use crate::rank_index::{rank_bucket, search_start};
use crate::shared::stored_hashes;
use crate::precisions::register_mask;
use crate::bitstream::{stream_of, stream_of_words, words_of_bytes};
use crate::switch::{switch_composition, SwitchHash};
use crate::precisions::{Bits, Precision};
use vstd::arithmetic::power2::{lemma_pow2_adds, lemma_pow2_pos, pow2};
use vstd::prelude::*;

use crate::switch::decodes_to;

verus! {

/// The Rice parameters of the uniform part of the gaps at precision `p` with registers of `b`
/// bits: the parameter for lists of `p + b + i` bits stands at position `i`.
#[verifier::opaque]
pub open spec fn rice_coefficients(p: u8, b: u8) -> Seq<u8> {
    match (p, b) {
        (4, 4) => seq![0u8],
        (4, 5) => seq![0u8],
        (4, 6) => seq![0u8],
        (5, 4) => seq![0u8],
        (5, 5) => seq![0u8],
        (5, 6) => seq![0u8],
        (6, 4) => seq![0u8],
        (6, 5) => seq![0u8],
        (6, 6) => seq![0u8, 7],
        (7, 4) => seq![0u8, 6, 7, 8],
        (7, 5) => seq![0u8, 7, 8],
        (7, 6) => seq![0u8, 7],
        (8, 4) => seq![0u8, 6, 7, 8, 9, 10, 11, 12, 14, 15],
        (8, 5) => seq![0u8, 7, 8, 9, 10, 11, 12, 13, 14],
        (8, 6) => seq![0u8, 7, 9, 10, 11, 12, 13, 14],
        (9, 4) => seq![0u8, 6, 7, 8, 9, 10, 11, 12, 14, 15],
        (9, 5) => seq![0u8, 7, 8, 9, 10, 11, 12, 13, 14],
        (9, 6) => seq![0u8, 7, 9, 10, 11, 12, 13, 14],
        (10, 4) => seq![0u8, 6, 7, 8, 9, 10, 11, 12, 14, 15],
        (10, 5) => seq![0u8, 7, 8, 9, 10, 11, 12, 13, 14],
        (10, 6) => seq![0u8, 7, 9, 10, 11, 12, 13, 14],
        (11, 4) => seq![0u8, 6, 7, 8, 9, 10, 11, 13, 14, 15],
        (11, 5) => seq![0u8, 7, 8, 9, 10, 11, 12, 13, 14],
        (11, 6) => seq![0u8, 7, 9, 10, 11, 12, 13, 14],
        (12, 4) => seq![0u8, 6, 7, 8, 9, 10, 11, 13, 14],
        (12, 5) => seq![0u8, 7, 8, 9, 10, 11, 12, 13],
        (12, 6) => seq![0u8, 7, 9, 10, 11, 12, 13],
        (13, 4) => seq![0u8, 6, 7, 8, 9, 10, 11, 13],
        (13, 5) => seq![0u8, 7, 8, 9, 10, 11, 12],
        (13, 6) => seq![0u8, 7, 9, 10, 11, 12],
        (14, 4) => seq![0u8, 6, 7, 8, 9, 10, 11],
        (14, 5) => seq![0u8, 7, 8, 9, 10, 11],
        (14, 6) => seq![0u8, 7, 9, 10, 11],
        (15, 4) => seq![0u8, 6, 7, 8, 9, 10, 11, 13, 14, 15, 16, 17, 18, 19],
        (15, 5) => seq![0u8, 7, 8, 9, 10, 11, 12, 13, 14, 15, 16, 18, 19],
        (15, 6) => seq![0u8, 7, 9, 10, 11, 12, 13, 14, 15, 16, 17, 18],
        (16, 4) => seq![0u8, 6, 7, 8, 9, 10, 11, 13, 14, 15, 16, 17, 18],
        (16, 5) => seq![0u8, 7, 8, 9, 10, 11, 12, 13, 14, 15, 16, 18],
        (16, 6) => seq![0u8, 7, 9, 10, 11, 12, 13, 14, 15, 16, 17],
        (17, 4) => seq![0u8, 6, 7, 8, 9, 10, 11, 13, 14, 15, 16, 17],
        (17, 5) => seq![0u8, 7, 8, 9, 10, 11, 12, 13, 14, 15, 16],
        (17, 6) => seq![0u8, 7, 9, 10, 11, 12, 13, 14, 15, 16],
        (18, 4) => seq![0u8, 6, 7, 8, 9, 10, 11, 13, 14, 15, 16],
        (18, 5) => seq![0u8, 7, 8, 9, 10, 11, 12, 13, 14, 15],
        (18, 6) => seq![0u8, 7, 9, 10, 11, 12, 13, 14, 15],
        _ => Seq::empty(),
    }
}

/// Whether every number of `s` is below `bound`.
pub open spec fn all_below(s: Seq<u8>, bound: u8) -> bool
    decreases s.len(),
{
    if s.len() == 0 {
        true
    } else {
        s.last() < bound && all_below(s.drop_last(), bound)
    }
}

proof fn lemma_all_below(s: Seq<u8>, bound: u8)
    requires
        all_below(s, bound),
    ensures
        forall|i: int| 0 <= i < s.len() ==> s[i] < bound,
    decreases s.len(),
{
    if s.len() > 0 {
        lemma_all_below(s.drop_last(), bound);
        assert forall|i: int| 0 <= i < s.len() implies s[i] < bound by {
            if i < s.len() - 1 {
                assert(s.drop_last()[i] == s[i]);
            }
        }
    }
}

/// Every Rice parameter of the table is below thirty-two.
#[verifier::spinoff_prover]
#[verifier::rlimit(100)]
pub proof fn lemma_rice_coefficients_small(p: u8, b: u8)
    requires
        4 <= p <= 18,
        4 <= b <= 6,
    ensures
        forall|i: int| 0 <= i < rice_coefficients(p, b).len() ==> rice_coefficients(p, b)[i] < 32,
        0 < rice_coefficients(p, b).len(),
        p + b + rice_coefficients(p, b).len() <= 33,
{
    if p == 4 && b == 4 {
        assert(all_below(rice_coefficients(4, 4), 32) && 0 < rice_coefficients(4, 4).len() && 4 + 4 + rice_coefficients(4, 4).len() <= 33) by {
            reveal(rice_coefficients);
            reveal_with_fuel(all_below, 16);
        }
    }
    if p == 4 && b == 5 {
        assert(all_below(rice_coefficients(4, 5), 32) && 0 < rice_coefficients(4, 5).len() && 4 + 5 + rice_coefficients(4, 5).len() <= 33) by {
            reveal(rice_coefficients);
            reveal_with_fuel(all_below, 16);
        }
    }
    if p == 4 && b == 6 {
        assert(all_below(rice_coefficients(4, 6), 32) && 0 < rice_coefficients(4, 6).len() && 4 + 6 + rice_coefficients(4, 6).len() <= 33) by {
            reveal(rice_coefficients);
            reveal_with_fuel(all_below, 16);
        }
    }
    if p == 5 && b == 4 {
        assert(all_below(rice_coefficients(5, 4), 32) && 0 < rice_coefficients(5, 4).len() && 5 + 4 + rice_coefficients(5, 4).len() <= 33) by {
            reveal(rice_coefficients);
            reveal_with_fuel(all_below, 16);
        }
    }
    if p == 5 && b == 5 {
        assert(all_below(rice_coefficients(5, 5), 32) && 0 < rice_coefficients(5, 5).len() && 5 + 5 + rice_coefficients(5, 5).len() <= 33) by {
            reveal(rice_coefficients);
            reveal_with_fuel(all_below, 16);
        }
    }
    if p == 5 && b == 6 {
        assert(all_below(rice_coefficients(5, 6), 32) && 0 < rice_coefficients(5, 6).len() && 5 + 6 + rice_coefficients(5, 6).len() <= 33) by {
            reveal(rice_coefficients);
            reveal_with_fuel(all_below, 16);
        }
    }
    if p == 6 && b == 4 {
        assert(all_below(rice_coefficients(6, 4), 32) && 0 < rice_coefficients(6, 4).len() && 6 + 4 + rice_coefficients(6, 4).len() <= 33) by {
            reveal(rice_coefficients);
            reveal_with_fuel(all_below, 16);
        }
    }
    if p == 6 && b == 5 {
        assert(all_below(rice_coefficients(6, 5), 32) && 0 < rice_coefficients(6, 5).len() && 6 + 5 + rice_coefficients(6, 5).len() <= 33) by {
            reveal(rice_coefficients);
            reveal_with_fuel(all_below, 16);
        }
    }
    if p == 6 && b == 6 {
        assert(all_below(rice_coefficients(6, 6), 32) && 0 < rice_coefficients(6, 6).len() && 6 + 6 + rice_coefficients(6, 6).len() <= 33) by {
            reveal(rice_coefficients);
            reveal_with_fuel(all_below, 16);
        }
    }
    if p == 7 && b == 4 {
        assert(all_below(rice_coefficients(7, 4), 32) && 0 < rice_coefficients(7, 4).len() && 7 + 4 + rice_coefficients(7, 4).len() <= 33) by {
            reveal(rice_coefficients);
            reveal_with_fuel(all_below, 16);
        }
    }
    if p == 7 && b == 5 {
        assert(all_below(rice_coefficients(7, 5), 32) && 0 < rice_coefficients(7, 5).len() && 7 + 5 + rice_coefficients(7, 5).len() <= 33) by {
            reveal(rice_coefficients);
            reveal_with_fuel(all_below, 16);
        }
    }
    if p == 7 && b == 6 {
        assert(all_below(rice_coefficients(7, 6), 32) && 0 < rice_coefficients(7, 6).len() && 7 + 6 + rice_coefficients(7, 6).len() <= 33) by {
            reveal(rice_coefficients);
            reveal_with_fuel(all_below, 16);
        }
    }
    if p == 8 && b == 4 {
        assert(all_below(rice_coefficients(8, 4), 32) && 0 < rice_coefficients(8, 4).len() && 8 + 4 + rice_coefficients(8, 4).len() <= 33) by {
            reveal(rice_coefficients);
            reveal_with_fuel(all_below, 16);
        }
    }
    if p == 8 && b == 5 {
        assert(all_below(rice_coefficients(8, 5), 32) && 0 < rice_coefficients(8, 5).len() && 8 + 5 + rice_coefficients(8, 5).len() <= 33) by {
            reveal(rice_coefficients);
            reveal_with_fuel(all_below, 16);
        }
    }
    if p == 8 && b == 6 {
        assert(all_below(rice_coefficients(8, 6), 32) && 0 < rice_coefficients(8, 6).len() && 8 + 6 + rice_coefficients(8, 6).len() <= 33) by {
            reveal(rice_coefficients);
            reveal_with_fuel(all_below, 16);
        }
    }
    if p == 9 && b == 4 {
        assert(all_below(rice_coefficients(9, 4), 32) && 0 < rice_coefficients(9, 4).len() && 9 + 4 + rice_coefficients(9, 4).len() <= 33) by {
            reveal(rice_coefficients);
            reveal_with_fuel(all_below, 16);
        }
    }
    if p == 9 && b == 5 {
        assert(all_below(rice_coefficients(9, 5), 32) && 0 < rice_coefficients(9, 5).len() && 9 + 5 + rice_coefficients(9, 5).len() <= 33) by {
            reveal(rice_coefficients);
            reveal_with_fuel(all_below, 16);
        }
    }
    if p == 9 && b == 6 {
        assert(all_below(rice_coefficients(9, 6), 32) && 0 < rice_coefficients(9, 6).len() && 9 + 6 + rice_coefficients(9, 6).len() <= 33) by {
            reveal(rice_coefficients);
            reveal_with_fuel(all_below, 16);
        }
    }
    if p == 10 && b == 4 {
        assert(all_below(rice_coefficients(10, 4), 32) && 0 < rice_coefficients(10, 4).len() && 10 + 4 + rice_coefficients(10, 4).len() <= 33) by {
            reveal(rice_coefficients);
            reveal_with_fuel(all_below, 16);
        }
    }
    if p == 10 && b == 5 {
        assert(all_below(rice_coefficients(10, 5), 32) && 0 < rice_coefficients(10, 5).len() && 10 + 5 + rice_coefficients(10, 5).len() <= 33) by {
            reveal(rice_coefficients);
            reveal_with_fuel(all_below, 16);
        }
    }
    if p == 10 && b == 6 {
        assert(all_below(rice_coefficients(10, 6), 32) && 0 < rice_coefficients(10, 6).len() && 10 + 6 + rice_coefficients(10, 6).len() <= 33) by {
            reveal(rice_coefficients);
            reveal_with_fuel(all_below, 16);
        }
    }
    if p == 11 && b == 4 {
        assert(all_below(rice_coefficients(11, 4), 32) && 0 < rice_coefficients(11, 4).len() && 11 + 4 + rice_coefficients(11, 4).len() <= 33) by {
            reveal(rice_coefficients);
            reveal_with_fuel(all_below, 16);
        }
    }
    if p == 11 && b == 5 {
        assert(all_below(rice_coefficients(11, 5), 32) && 0 < rice_coefficients(11, 5).len() && 11 + 5 + rice_coefficients(11, 5).len() <= 33) by {
            reveal(rice_coefficients);
            reveal_with_fuel(all_below, 16);
        }
    }
    if p == 11 && b == 6 {
        assert(all_below(rice_coefficients(11, 6), 32) && 0 < rice_coefficients(11, 6).len() && 11 + 6 + rice_coefficients(11, 6).len() <= 33) by {
            reveal(rice_coefficients);
            reveal_with_fuel(all_below, 16);
        }
    }
    if p == 12 && b == 4 {
        assert(all_below(rice_coefficients(12, 4), 32) && 0 < rice_coefficients(12, 4).len() && 12 + 4 + rice_coefficients(12, 4).len() <= 33) by {
            reveal(rice_coefficients);
            reveal_with_fuel(all_below, 16);
        }
    }
    if p == 12 && b == 5 {
        assert(all_below(rice_coefficients(12, 5), 32) && 0 < rice_coefficients(12, 5).len() && 12 + 5 + rice_coefficients(12, 5).len() <= 33) by {
            reveal(rice_coefficients);
            reveal_with_fuel(all_below, 16);
        }
    }
    if p == 12 && b == 6 {
        assert(all_below(rice_coefficients(12, 6), 32) && 0 < rice_coefficients(12, 6).len() && 12 + 6 + rice_coefficients(12, 6).len() <= 33) by {
            reveal(rice_coefficients);
            reveal_with_fuel(all_below, 16);
        }
    }
    if p == 13 && b == 4 {
        assert(all_below(rice_coefficients(13, 4), 32) && 0 < rice_coefficients(13, 4).len() && 13 + 4 + rice_coefficients(13, 4).len() <= 33) by {
            reveal(rice_coefficients);
            reveal_with_fuel(all_below, 16);
        }
    }
    if p == 13 && b == 5 {
        assert(all_below(rice_coefficients(13, 5), 32) && 0 < rice_coefficients(13, 5).len() && 13 + 5 + rice_coefficients(13, 5).len() <= 33) by {
            reveal(rice_coefficients);
            reveal_with_fuel(all_below, 16);
        }
    }
    if p == 13 && b == 6 {
        assert(all_below(rice_coefficients(13, 6), 32) && 0 < rice_coefficients(13, 6).len() && 13 + 6 + rice_coefficients(13, 6).len() <= 33) by {
            reveal(rice_coefficients);
            reveal_with_fuel(all_below, 16);
        }
    }
    if p == 14 && b == 4 {
        assert(all_below(rice_coefficients(14, 4), 32) && 0 < rice_coefficients(14, 4).len() && 14 + 4 + rice_coefficients(14, 4).len() <= 33) by {
            reveal(rice_coefficients);
            reveal_with_fuel(all_below, 16);
        }
    }
    if p == 14 && b == 5 {
        assert(all_below(rice_coefficients(14, 5), 32) && 0 < rice_coefficients(14, 5).len() && 14 + 5 + rice_coefficients(14, 5).len() <= 33) by {
            reveal(rice_coefficients);
            reveal_with_fuel(all_below, 16);
        }
    }
    if p == 14 && b == 6 {
        assert(all_below(rice_coefficients(14, 6), 32) && 0 < rice_coefficients(14, 6).len() && 14 + 6 + rice_coefficients(14, 6).len() <= 33) by {
            reveal(rice_coefficients);
            reveal_with_fuel(all_below, 16);
        }
    }
    if p == 15 && b == 4 {
        assert(all_below(rice_coefficients(15, 4), 32) && 0 < rice_coefficients(15, 4).len() && 15 + 4 + rice_coefficients(15, 4).len() <= 33) by {
            reveal(rice_coefficients);
            reveal_with_fuel(all_below, 16);
        }
    }
    if p == 15 && b == 5 {
        assert(all_below(rice_coefficients(15, 5), 32) && 0 < rice_coefficients(15, 5).len() && 15 + 5 + rice_coefficients(15, 5).len() <= 33) by {
            reveal(rice_coefficients);
            reveal_with_fuel(all_below, 16);
        }
    }
    if p == 15 && b == 6 {
        assert(all_below(rice_coefficients(15, 6), 32) && 0 < rice_coefficients(15, 6).len() && 15 + 6 + rice_coefficients(15, 6).len() <= 33) by {
            reveal(rice_coefficients);
            reveal_with_fuel(all_below, 16);
        }
    }
    if p == 16 && b == 4 {
        assert(all_below(rice_coefficients(16, 4), 32) && 0 < rice_coefficients(16, 4).len() && 16 + 4 + rice_coefficients(16, 4).len() <= 33) by {
            reveal(rice_coefficients);
            reveal_with_fuel(all_below, 16);
        }
    }
    if p == 16 && b == 5 {
        assert(all_below(rice_coefficients(16, 5), 32) && 0 < rice_coefficients(16, 5).len() && 16 + 5 + rice_coefficients(16, 5).len() <= 33) by {
            reveal(rice_coefficients);
            reveal_with_fuel(all_below, 16);
        }
    }
    if p == 16 && b == 6 {
        assert(all_below(rice_coefficients(16, 6), 32) && 0 < rice_coefficients(16, 6).len() && 16 + 6 + rice_coefficients(16, 6).len() <= 33) by {
            reveal(rice_coefficients);
            reveal_with_fuel(all_below, 16);
        }
    }
    if p == 17 && b == 4 {
        assert(all_below(rice_coefficients(17, 4), 32) && 0 < rice_coefficients(17, 4).len() && 17 + 4 + rice_coefficients(17, 4).len() <= 33) by {
            reveal(rice_coefficients);
            reveal_with_fuel(all_below, 16);
        }
    }
    if p == 17 && b == 5 {
        assert(all_below(rice_coefficients(17, 5), 32) && 0 < rice_coefficients(17, 5).len() && 17 + 5 + rice_coefficients(17, 5).len() <= 33) by {
            reveal(rice_coefficients);
            reveal_with_fuel(all_below, 16);
        }
    }
    if p == 17 && b == 6 {
        assert(all_below(rice_coefficients(17, 6), 32) && 0 < rice_coefficients(17, 6).len() && 17 + 6 + rice_coefficients(17, 6).len() <= 33) by {
            reveal(rice_coefficients);
            reveal_with_fuel(all_below, 16);
        }
    }
    if p == 18 && b == 4 {
        assert(all_below(rice_coefficients(18, 4), 32) && 0 < rice_coefficients(18, 4).len() && 18 + 4 + rice_coefficients(18, 4).len() <= 33) by {
            reveal(rice_coefficients);
            reveal_with_fuel(all_below, 16);
        }
    }
    if p == 18 && b == 5 {
        assert(all_below(rice_coefficients(18, 5), 32) && 0 < rice_coefficients(18, 5).len() && 18 + 5 + rice_coefficients(18, 5).len() <= 33) by {
            reveal(rice_coefficients);
            reveal_with_fuel(all_below, 16);
        }
    }
    if p == 18 && b == 6 {
        assert(all_below(rice_coefficients(18, 6), 32) && 0 < rice_coefficients(18, 6).len() && 18 + 6 + rice_coefficients(18, 6).len() <= 33) by {
            reveal(rice_coefficients);
            reveal_with_fuel(all_below, 16);
        }
    }
    lemma_all_below(rice_coefficients(p, b), 32);
}

/// The code of a gap with Rice parameter `k`: the Rice code of its uniform difference, then the
/// unary code of its register minus one.
pub open spec fn gap_code(gap: GapFragment, k: nat) -> Seq<bool> {
    rice_code(gap.uniform_delta as nat, k) + unary_code(gap.geometric_minus_one as nat)
}

/// Whether the stream `s` holds, from position `pos`, the code of `gap` with Rice parameter `k`,
/// with both unary parts short enough to be read.
pub open spec fn holds_gap(s: Seq<bool>, pos: int, gap: GapFragment, k: nat) -> bool {
    &&& 0 <= pos
    &&& pos + gap_code(gap, k).len() <= s.len()
    &&& s.subrange(pos, pos + gap_code(gap, k).len()) == gap_code(gap, k)
    &&& gap.uniform_delta as nat / pow2(k) <= 254
    &&& gap.geometric_minus_one <= 254
}

/// The gap whose code the stream `s` holds from position `pos`.
pub open spec fn gap_at(s: Seq<bool>, pos: int, k: nat) -> GapFragment {
    choose|gap: GapFragment| holds_gap(s, pos, gap, k)
}

/// The parts of a gap code in a stream: a zero run, the low bits of the uniform difference,
/// and a second zero run.
proof fn lemma_gap_code_parts(s: Seq<bool>, pos: int, gap: GapFragment, k: nat)
    requires
        holds_gap(s, pos, gap, k),
        k < 32,
    ensures
        ({
            let d = gap.uniform_delta as nat;
            let z = d / pow2(k);
            &&& is_zero_run(s, pos, z as int)
            &&& value_of(s.subrange(pos + z + 1, pos + z + 1 + k)) == d % pow2(k)
            &&& (z + 1) * pow2(k) <= pow2(32)
            &&& is_zero_run(s, pos + z + 1 + k, gap.geometric_minus_one as int)
            &&& gap_code(gap, k).len() == z + 1 + k + gap.geometric_minus_one + 1
            &&& d == z * pow2(k) + d % pow2(k)
        }),
{
    let d = gap.uniform_delta as nat;
    lemma_pow2_pos(k);
    let z = d / pow2(k);
    let u = unary_code(z);
    let r = bits_of(d, k);
    let g = unary_code(gap.geometric_minus_one as nat);
    let code = gap_code(gap, k);
    assert(code == u + r + g);
    let len = code.len() as int;
    assert(len == z + 1 + k + gap.geometric_minus_one + 1);
    assert forall|j: int| pos <= j <= pos + z implies #[trigger] s[j] == (j == pos + z) by {
        assert(s.subrange(pos, pos + len)[j - pos] == code[j - pos]);
    }
    assert(s.subrange(pos + z + 1, pos + z + 1 + k) =~= r) by {
        assert forall|j: int| 0 <= j < k implies #[trigger] s.subrange(
            pos + z + 1,
            pos + z + 1 + k,
        )[j] == r[j] by {
            assert(s.subrange(pos, pos + len)[z + 1 + j] == code[z + 1 + j]);
            assert((u + r)[z + 1 + j] == r[j]);
        }
    }
    lemma_value_of_bits_of(d, k);
    let q = pos + z + 1 + k;
    assert forall|j: int| q <= j <= q + gap.geometric_minus_one implies #[trigger] s[j] == (j
        == q + gap.geometric_minus_one) by {
        assert(s.subrange(pos, pos + len)[j - pos] == code[j - pos]);
    }
    vstd::arithmetic::div_mod::lemma_fundamental_div_mod(d as int, pow2(k) as int);
    vstd::arithmetic::mul::lemma_mul_is_commutative(z as int, pow2(k) as int);
    let c = pow2((32 - k) as nat);
    lemma_pow2_adds(k, (32 - k) as nat);
    vstd::arithmetic::power2::lemma2_to64();
    assert(pow2(32) == 0x1_0000_0000);
    assert(z * pow2(k) < c * pow2(k)) by {
        vstd::arithmetic::mul::lemma_mul_is_commutative(c as int, pow2(k) as int);
    }
    vstd::arithmetic::mul::lemma_mul_strict_inequality_converse(z as int, c as int, pow2(k) as int);
    vstd::arithmetic::mul::lemma_mul_inequality((z + 1) as int, c as int, pow2(k) as int);
    vstd::arithmetic::mul::lemma_mul_is_commutative(c as int, pow2(k) as int);
}

/// A stream holds at most one gap code at a position: the code is prefix-free.
pub proof fn lemma_gap_code_unique(s: Seq<bool>, pos: int, a: GapFragment, b: GapFragment, k: nat)
    requires
        holds_gap(s, pos, a, k),
        holds_gap(s, pos, b, k),
        k < 32,
    ensures
        a == b,
{
    lemma_gap_code_parts(s, pos, a, k);
    lemma_gap_code_parts(s, pos, b, k);
    let za = (a.uniform_delta as nat / pow2(k)) as int;
    let zb = (b.uniform_delta as nat / pow2(k)) as int;
    lemma_zero_run_unique(s, pos, za, zb);
    lemma_zero_run_unique(
        s,
        pos + za + 1 + k,
        a.geometric_minus_one as int,
        b.geometric_minus_one as int,
    );
}

/// Reads the code of a gap with Rice parameter `k`.
pub fn read_gap(reader: &mut BitReader, k: u8) -> (gap: GapFragment)
    requires
        old(reader).wf(),
        k < 32,
        exists|g: GapFragment| holds_gap(old(reader).view(), old(reader).position() as int, g, k as nat),
    ensures
        final(reader).wf(),
        final(reader).view() == old(reader).view(),
        final(reader).words() == old(reader).words(),
        final(reader).limit() == old(reader).limit(),
        holds_gap(old(reader).view(), old(reader).position() as int, gap, k as nat),
        gap == gap_at(old(reader).view(), old(reader).position() as int, k as nat),
        final(reader).position() == old(reader).position() + gap_code(gap, k as nat).len(),
{
    let ghost s = reader.view();
    let ghost pos = reader.position() as int;
    let ghost g = gap_at(s, pos, k as nat);
    let ghost d = g.uniform_delta as nat;
    let ghost z = d / pow2(k as nat);
    proof {
        reader.lemma_view_len();
        lemma_gap_code_parts(s, pos, g, k as nat);
        assert(z <= 255 && is_zero_run(s, pos, z as int) && pos + z + 1 + k <= reader.limit() && (z
            + 1) * pow2(k as nat) <= pow2(32));
    }
    let uniform_delta = reader.read_rice(k);
    proof {
        let z2 = choose|z2: int|
            is_zero_run(s, pos, z2) && reader.position() == pos + z2 + 1 + k && uniform_delta
                == z2 * pow2(k as nat) + value_of(s.subrange(pos + z2 + 1, pos + z2 + 1 + k));
        lemma_zero_run_unique(s, pos, z as int, z2);
        reader.lemma_view_len();
        assert(is_zero_run(s, pos + z + 1 + k, g.geometric_minus_one as int));
    }
    let geometric_minus_one = reader.read_unary();
    proof {
        lemma_zero_run_unique(
            s,
            pos + z + 1 + k,
            g.geometric_minus_one as int,
            geometric_minus_one as int,
        );
    }
    GapFragment { uniform_delta, geometric_minus_one }
}

impl<P: Precision, B: Bits> GapHash<P, B> {
    /// The Rice parameters of the uniform part of the gaps, for each number of hash bits from
    /// the smallest on.
    pub(crate) fn rice_coefficient_table() -> (table: Vec<u8>)
        ensures
            table@ == rice_coefficients(P::spec_exponent(), B::spec_number_of_bits()),
    {
        proof {
            reveal(rice_coefficients);
        }
        match (P::exponent(), B::number_of_bits()) {
            (4, 4) => vec![0u8],
            (4, 5) => vec![0u8],
            (4, 6) => vec![0u8],
            (5, 4) => vec![0u8],
            (5, 5) => vec![0u8],
            (5, 6) => vec![0u8],
            (6, 4) => vec![0u8],
            (6, 5) => vec![0u8],
            (6, 6) => vec![0u8, 7],
            (7, 4) => vec![0u8, 6, 7, 8],
            (7, 5) => vec![0u8, 7, 8],
            (7, 6) => vec![0u8, 7],
            (8, 4) => vec![0u8, 6, 7, 8, 9, 10, 11, 12, 14, 15],
            (8, 5) => vec![0u8, 7, 8, 9, 10, 11, 12, 13, 14],
            (8, 6) => vec![0u8, 7, 9, 10, 11, 12, 13, 14],
            (9, 4) => vec![0u8, 6, 7, 8, 9, 10, 11, 12, 14, 15],
            (9, 5) => vec![0u8, 7, 8, 9, 10, 11, 12, 13, 14],
            (9, 6) => vec![0u8, 7, 9, 10, 11, 12, 13, 14],
            (10, 4) => vec![0u8, 6, 7, 8, 9, 10, 11, 12, 14, 15],
            (10, 5) => vec![0u8, 7, 8, 9, 10, 11, 12, 13, 14],
            (10, 6) => vec![0u8, 7, 9, 10, 11, 12, 13, 14],
            (11, 4) => vec![0u8, 6, 7, 8, 9, 10, 11, 13, 14, 15],
            (11, 5) => vec![0u8, 7, 8, 9, 10, 11, 12, 13, 14],
            (11, 6) => vec![0u8, 7, 9, 10, 11, 12, 13, 14],
            (12, 4) => vec![0u8, 6, 7, 8, 9, 10, 11, 13, 14],
            (12, 5) => vec![0u8, 7, 8, 9, 10, 11, 12, 13],
            (12, 6) => vec![0u8, 7, 9, 10, 11, 12, 13],
            (13, 4) => vec![0u8, 6, 7, 8, 9, 10, 11, 13],
            (13, 5) => vec![0u8, 7, 8, 9, 10, 11, 12],
            (13, 6) => vec![0u8, 7, 9, 10, 11, 12],
            (14, 4) => vec![0u8, 6, 7, 8, 9, 10, 11],
            (14, 5) => vec![0u8, 7, 8, 9, 10, 11],
            (14, 6) => vec![0u8, 7, 9, 10, 11],
            (15, 4) => vec![0u8, 6, 7, 8, 9, 10, 11, 13, 14, 15, 16, 17, 18, 19],
            (15, 5) => vec![0u8, 7, 8, 9, 10, 11, 12, 13, 14, 15, 16, 18, 19],
            (15, 6) => vec![0u8, 7, 9, 10, 11, 12, 13, 14, 15, 16, 17, 18],
            (16, 4) => vec![0u8, 6, 7, 8, 9, 10, 11, 13, 14, 15, 16, 17, 18],
            (16, 5) => vec![0u8, 7, 8, 9, 10, 11, 12, 13, 14, 15, 16, 18],
            (16, 6) => vec![0u8, 7, 9, 10, 11, 12, 13, 14, 15, 16, 17],
            (17, 4) => vec![0u8, 6, 7, 8, 9, 10, 11, 13, 14, 15, 16, 17],
            (17, 5) => vec![0u8, 7, 8, 9, 10, 11, 12, 13, 14, 15, 16],
            (17, 6) => vec![0u8, 7, 9, 10, 11, 12, 13, 14, 15, 16],
            (18, 4) => vec![0u8, 6, 7, 8, 9, 10, 11, 13, 14, 15, 16],
            (18, 5) => vec![0u8, 7, 8, 9, 10, 11, 12, 13, 14, 15],
            (18, 6) => vec![0u8, 7, 9, 10, 11, 12, 13, 14, 15],
            _ => Vec::new(),
        }
    }

    /// The Rice parameter of the uniform part of the gaps of a list of `hash_bits` bits.
    pub fn uniform_coefficient(hash_bits: u8) -> (k: u8)
        requires
            P::spec_exponent() + B::spec_number_of_bits() <= hash_bits,
            hash_bits - P::spec_exponent() - B::spec_number_of_bits() < rice_coefficients(
                P::spec_exponent(),
                B::spec_number_of_bits(),
            ).len(),
        ensures
            k == rice_coefficients(P::spec_exponent(), B::spec_number_of_bits())[hash_bits
                - P::spec_exponent() - B::spec_number_of_bits()],
            k < 32,
    {
        let table = Self::rice_coefficient_table();
        let smallest = P::exponent() + B::number_of_bits();
        proof {
            P::lemma_exponent_range();
            B::lemma_number_of_bits_range();
            lemma_rice_coefficients_small(P::spec_exponent(), B::spec_number_of_bits());
        }
        table[(hash_bits - smallest) as usize]
    }
}

/// Whether the gap `gap` can follow a hash whose uniform part (its index, when the hash holds
/// nothing more) is `state`: the uniform part it leads to is a 32-bit number.
pub open spec fn step_in_range(p: u32, b: u32, hb: u32, state: u32, gap: GapFragment) -> bool {
    if hb == p + b {
        gap.uniform_delta <= state
    } else {
        0 <= uniform_after_gap(state, gap.uniform_delta) <= u32::MAX
    }
}

/// The uniform part (the index, when the hash holds nothing more) that the gap `gap` leads to
/// from `state`.
pub open spec fn uniform_step(p: u32, b: u32, hb: u32, state: u32, gap: GapFragment) -> u32 {
    if hb == p + b {
        (state - gap.uniform_delta) as u32
    } else {
        uniform_after_gap(state, gap.uniform_delta) as u32
    }
}

/// The hash of `hb` bits with the uniform part `uniform` (the index, when the hash holds nothing
/// more) and the register `register`.
pub open spec fn hash_of_uniform(p: u32, b: u32, hb: u32, uniform: u32, register: u32) -> u32 {
    if hb == p + b {
        switch_composition(p, b, uniform, register, 0, hb)
    } else {
        let size = remainder_size(p, b, hb);
        switch_composition(p, b, uniform >> size, register, uniform & ((1u32 << size) - 1) as u32, hb)
    }
}

/// A hash of `hb` bits that its uniform part and its register compose back.
pub open spec fn is_canonical(p: u32, b: u32, hash: u32, hb: u32) -> bool {
    &&& fits_bits(hash, hb)
    &&& 0 < switch_decoding(p, b, hash, hb).0 <= 255
    &&& hash_of_uniform(p, b, hb, gap_uniform(p, b, hash, hb), switch_decoding(p, b, hash, hb).0)
        == hash
}

/// A gap whose unary parts are short enough to be written and read with Rice parameter `k`.
pub open spec fn is_codable_gap(gap: GapFragment, k: nat) -> bool {
    gap.uniform_delta as nat / pow2(k) <= 254 && gap.geometric_minus_one <= 254
}

/// A strictly decreasing list of canonical hashes whose gaps can be coded with Rice parameter
/// `k`.
pub open spec fn is_gap_list(p: u32, b: u32, hashes: Seq<u32>, hb: u32, k: nat) -> bool {
    &&& forall|i: int, j: int| 0 <= i < j < hashes.len() ==> hashes[i] > hashes[j]
    &&& forall|i: int| 0 <= i < hashes.len() ==> is_canonical(p, b, #[trigger] hashes[i], hb)
    &&& forall|i: int|
        0 < i < hashes.len() ==> is_codable_gap(
            #[trigger] gap_between(p, b, hashes[i - 1], hashes[i], hb),
            k,
        )
}

/// The prefix-free code of a decreasing list of hashes of `hb` bits: the first hash in full,
/// then the code of each gap, with Rice parameter `k`.
pub open spec fn gap_list_code(p: u32, b: u32, hashes: Seq<u32>, hb: u32, k: nat) -> Seq<bool>
    decreases hashes.len(),
{
    if hashes.len() == 0 {
        Seq::empty()
    } else if hashes.len() == 1 {
        bits_of(hashes[0] as nat, hb as nat)
    } else {
        let n = hashes.len() - 1;
        gap_list_code(p, b, hashes.drop_last(), hb, k) + gap_code(
            gap_between(p, b, hashes[n - 1], hashes[n], hb),
            k,
        )
    }
}

/// Whether the stream `s` starts with the code of a list of `n` hashes that ends at bit
/// `end`.
pub open spec fn holds_gap_list(
    p: u32,
    b: u32,
    s: Seq<bool>,
    n: nat,
    hb: u32,
    k: nat,
    end: nat,
) -> bool {
    exists|hashes: Seq<u32>| #[trigger]
        is_gap_list(p, b, hashes, hb, k) && hashes.len() == n && gap_list_code(p, b, hashes, hb, k).len()
            == end && end <= s.len() && s.subrange(0, end as int) == gap_list_code(
            p,
            b,
            hashes,
            hb,
            k,
        )
}

/// The hashes whose code the stream `s` starts with.
pub open spec fn coded_hashes(p: u32, b: u32, s: Seq<bool>, n: nat, hb: u32, k: nat, end: nat) -> Seq<
    u32,
> {
    choose|hashes: Seq<u32>|
        is_gap_list(p, b, hashes, hb, k) && hashes.len() == n && gap_list_code(p, b, hashes, hb, k).len()
            == end && end <= s.len() && s.subrange(0, end as int) == gap_list_code(
            p,
            b,
            hashes,
            hb,
            k,
        )
}

/// The code of a list grows by the code of one gap with each hash.
pub proof fn lemma_gap_list_code_take(p: u32, b: u32, hashes: Seq<u32>, hb: u32, k: nat, i: int)
    requires
        1 <= i,
        0 < hashes.len(),
    ensures
        i < hashes.len() ==> gap_list_code(p, b, hashes.take(i + 1), hb, k) == gap_list_code(
            p,
            b,
            hashes.take(i),
            hb,
            k,
        ) + gap_code(gap_between(p, b, hashes[i - 1], hashes[i], hb), k),
        gap_list_code(p, b, hashes.take(1), hb, k) == bits_of(hashes[0] as nat, hb as nat),
{
    if i < hashes.len() {
        assert(hashes.take(i + 1).drop_last() =~= hashes.take(i));
    }
}

/// The code of a part of a list starts the code of the list.
pub proof fn lemma_gap_list_code_prefix(p: u32, b: u32, hashes: Seq<u32>, hb: u32, k: nat, i: int)
    requires
        0 <= i <= hashes.len(),
        0 < hb,
    ensures
        gap_list_code(p, b, hashes.take(i), hb, k).len() <= gap_list_code(p, b, hashes, hb, k).len(),
        gap_list_code(p, b, hashes, hb, k).subrange(
            0,
            gap_list_code(p, b, hashes.take(i), hb, k).len() as int,
        ) == gap_list_code(p, b, hashes.take(i), hb, k),
        i < hashes.len() ==> gap_list_code(p, b, hashes.take(i), hb, k).len() < gap_list_code(
            p,
            b,
            hashes,
            hb,
            k,
        ).len(),
    decreases hashes.len() - i,
{
    let n = hashes.len() as int;
    let whole = gap_list_code(p, b, hashes, hb, k);
    if i == n {
        assert(hashes.take(i) =~= hashes);
        assert(whole.subrange(0, whole.len() as int) =~= whole);
    } else {
        lemma_gap_list_code_prefix(p, b, hashes, hb, k, i + 1);
        lemma_gap_list_code_take(p, b, hashes, hb, k, if i == 0 { 1 } else { i });
        let a = gap_list_code(p, b, hashes.take(i), hb, k);
        let c = gap_list_code(p, b, hashes.take(i + 1), hb, k);
        if i == 0 {
            assert(hashes.take(0).len() == 0);
            assert(a.len() == 0);
            assert(whole.subrange(0, 0) =~= a);
            assert(hashes.take(1).len() == 1);
            assert(c.len() == hb);
        } else {
            lemma_gap_list_code_take(p, b, hashes, hb, k, i);
            let g = gap_code(gap_between(p, b, hashes[i - 1], hashes[i], hb), k);
            assert(g.len() > 0);
            assert(whole.subrange(0, a.len() as int) =~= c.subrange(0, a.len() as int));
            assert(c.subrange(0, a.len() as int) =~= a);
        }
    }
}

/// Following the gap between two canonical hashes of a decreasing list leads from the uniform
/// part of the first to that of the second, and the register of the gap is that of the second.
pub proof fn lemma_gap_step(p: u32, b: u32, previous: u32, current: u32, hb: u32)
    requires
        4 <= p <= 18,
        4 <= b <= 6,
        p + b <= hb <= 32,
        previous > current,
        is_canonical(p, b, previous, hb),
        is_canonical(p, b, current, hb),
    ensures
        ({
            let gap = gap_between(p, b, previous, current, hb);
            &&& step_in_range(p, b, hb, gap_uniform(p, b, previous, hb), gap)
            &&& uniform_step(p, b, hb, gap_uniform(p, b, previous, hb), gap) == gap_uniform(
                p,
                b,
                current,
                hb,
            )
            &&& gap.geometric_minus_one + 1 == switch_decoding(p, b, current, hb).0
        }),
{
    lemma_uniform_bounds(p, b, previous, current, hb);
    if hb == p + b {
        let ip = switch_decoding(p, b, previous, hb).1;
        let ic = switch_decoding(p, b, current, hb).1;
        crate::bitstream::lemma_u32_shift_or_zero(ip);
        crate::bitstream::lemma_u32_shift_or_zero(ic);
    }
}

/// The first hash of a coded list stands in full at its start.
pub proof fn lemma_reads_first_hash(p: u32, b: u32, hashes: Seq<u32>, hb: u32, k: nat, s: Seq<bool>)
    requires
        4 <= p <= 18,
        4 <= b <= 6,
        p + b <= hb <= 32,
        is_gap_list(p, b, hashes, hb, k),
        0 < hashes.len(),
        gap_list_code(p, b, hashes, hb, k).len() <= s.len(),
        s.subrange(0, gap_list_code(p, b, hashes, hb, k).len() as int) == gap_list_code(
            p,
            b,
            hashes,
            hb,
            k,
        ),
    ensures
        gap_list_code(p, b, hashes.take(1), hb, k).len() == hb,
        hb <= s.len(),
        value_of(s.subrange(0, hb as int)) == hashes[0],
{
    lemma_gap_list_code_take(p, b, hashes, hb, k, 1);
    lemma_gap_list_code_prefix(p, b, hashes, hb, k, 1);
    let code = gap_list_code(p, b, hashes, hb, k);
    assert(s.subrange(0, hb as int) =~= code.subrange(0, hb as int));
    lemma_value_of_bits_of(hashes[0] as nat, hb as nat);
    assert(is_canonical(p, b, hashes[0], hb));
    let h = hashes[0];
    let hl = hb as u64;
    vstd::arithmetic::power2::lemma2_to64();
    if hb < 32 {
        vstd::arithmetic::power2::lemma_pow2_strictly_increases(hb as nat, 32);
    }
    vstd::arithmetic::power2::lemma_pow2_strictly_increases(hb as nat, 64);
    vstd::bits::lemma_u64_shl_is_mul(1, hl);
    vstd::arithmetic::div_mod::lemma_small_mod(h as nat, pow2(hb as nat));
}

/// A stream that starts with the code of a list holds, after the code of its first `i`
/// hashes, the code of the gap to hash `i`, which leads there from hash `i - 1`.
#[verifier::spinoff_prover]
pub proof fn lemma_reads_gap_list(
    p: u32,
    b: u32,
    hashes: Seq<u32>,
    hb: u32,
    k: nat,
    s: Seq<bool>,
    i: int,
)
    requires
        4 <= p <= 18,
        4 <= b <= 6,
        p + b <= hb <= 32,
        k < 32,
        is_gap_list(p, b, hashes, hb, k),
        gap_list_code(p, b, hashes, hb, k).len() <= s.len(),
        s.subrange(0, gap_list_code(p, b, hashes, hb, k).len() as int) == gap_list_code(
            p,
            b,
            hashes,
            hb,
            k,
        ),
        1 <= i < hashes.len(),
    ensures
        ({
            let pos = gap_list_code(p, b, hashes.take(i), hb, k).len() as int;
            let gap = gap_between(p, b, hashes[i - 1], hashes[i], hb);
            &&& holds_gap(s, pos, gap, k)
            &&& gap_at(s, pos, k) == gap
            &&& gap_list_code(p, b, hashes.take(i + 1), hb, k).len() == pos + gap_code(gap, k).len()
            &&& step_in_range(p, b, hb, gap_uniform(p, b, hashes[i - 1], hb), gap)
            &&& uniform_step(p, b, hb, gap_uniform(p, b, hashes[i - 1], hb), gap) == gap_uniform(
                p,
                b,
                hashes[i],
                hb,
            )
            &&& hash_of_uniform(
                p,
                b,
                hb,
                gap_uniform(p, b, hashes[i], hb),
                (gap.geometric_minus_one + 1) as u32,
            ) == hashes[i]
        }),
{
    let code = gap_list_code(p, b, hashes, hb, k);
    let pos = gap_list_code(p, b, hashes.take(i), hb, k).len() as int;
    let gap = gap_between(p, b, hashes[i - 1], hashes[i], hb);
    let g = gap_code(gap, k);
    lemma_gap_list_code_take(p, b, hashes, hb, k, i);
    lemma_gap_list_code_prefix(p, b, hashes, hb, k, i + 1);
    let c = gap_list_code(p, b, hashes.take(i + 1), hb, k);
    assert(s.subrange(pos, pos + g.len()) =~= g) by {
        assert forall|j: int| 0 <= j < g.len() implies #[trigger] s.subrange(pos, pos + g.len())[j]
            == g[j] by {
            assert(s.subrange(0, code.len() as int)[pos + j] == code[pos + j]);
            assert(code.subrange(0, c.len() as int)[pos + j] == c[pos + j]);
        }
    }
    assert(is_codable_gap(gap, k));
    assert(is_canonical(p, b, hashes[i - 1], hb));
    assert(is_canonical(p, b, hashes[i], hb));
    lemma_gap_step(p, b, hashes[i - 1], hashes[i], hb);
    lemma_gap_code_unique(s, pos, gap, gap_at(s, pos, k), k);
}

/// The hash of a register taken from a hash is canonical: its uniform part and its register
/// compose it back.
pub proof fn lemma_encoding_canonical(p: u8, b: u8, index: u64, register: u32, hash: u64, hb: u32)
    requires
        4 <= p <= 18,
        4 <= b <= 6,
        p + b <= hb <= 32,
        crate::hyperloglog::is_hash_split(p, b, index, register, hash),
    ensures
        is_canonical(
            p as u32,
            b as u32,
            switch_encoding(p as u32, b as u32, index as u32, register, hash, hb),
            hb,
        ),
{
    let pp = p as u32;
    let bb = b as u32;
    let e = switch_encoding(pp, bb, index as u32, register, hash, hb);
    crate::switch::lemma_switch_decode_encode(p, b, index, register, hash, hb);
    crate::hyperloglog::lemma_hash_register_range(p, b, hash);
    crate::gaps::lemma_split_uniform_parts(p, b, index, register, hash, hb);
    if hb == pp + bb {
        assert(switch_remainder(pp, bb, e, hb) == 0);
        crate::bitstream::lemma_u32_shift_or_zero(index as u32);
    }
}

/// Two lists of `n` hashes whose codes a stream starts with agree on their first `i` hashes.
proof fn lemma_gap_list_prefixes_agree(
    p: u32,
    b: u32,
    a: Seq<u32>,
    c: Seq<u32>,
    hb: u32,
    k: nat,
    s: Seq<bool>,
    i: int,
)
    requires
        4 <= p <= 18,
        4 <= b <= 6,
        p + b <= hb <= 32,
        k < 32,
        is_gap_list(p, b, a, hb, k),
        is_gap_list(p, b, c, hb, k),
        a.len() == c.len(),
        1 <= i <= a.len(),
        gap_list_code(p, b, a, hb, k).len() <= s.len(),
        s.subrange(0, gap_list_code(p, b, a, hb, k).len() as int) == gap_list_code(p, b, a, hb, k),
        gap_list_code(p, b, c, hb, k).len() <= s.len(),
        s.subrange(0, gap_list_code(p, b, c, hb, k).len() as int) == gap_list_code(p, b, c, hb, k),
    ensures
        a.take(i) == c.take(i),
    decreases i,
{
    if i == 1 {
        lemma_reads_first_hash(p, b, a, hb, k, s);
        lemma_reads_first_hash(p, b, c, hb, k, s);
        assert(a.take(1) =~= c.take(1));
    } else {
        lemma_gap_list_prefixes_agree(p, b, a, c, hb, k, s, i - 1);
        lemma_reads_gap_list(p, b, a, hb, k, s, i - 1);
        lemma_reads_gap_list(p, b, c, hb, k, s, i - 1);
        assert(a[i - 2] == a.take(i - 1)[i - 2]);
        assert(c[i - 2] == c.take(i - 1)[i - 2]);
        assert(a.take(i) =~= a.take(i - 1).push(a[i - 1]));
        assert(c.take(i) =~= c.take(i - 1).push(c[i - 1]));
    }
}

/// A stream starts with the code of at most one list of `n` hashes: reading the code back
/// gives the hashes that were written.
pub proof fn lemma_gap_list_code_unique(
    p: u32,
    b: u32,
    a: Seq<u32>,
    c: Seq<u32>,
    hb: u32,
    k: nat,
    s: Seq<bool>,
)
    requires
        4 <= p <= 18,
        4 <= b <= 6,
        p + b <= hb <= 32,
        k < 32,
        is_gap_list(p, b, a, hb, k),
        is_gap_list(p, b, c, hb, k),
        a.len() == c.len(),
        gap_list_code(p, b, a, hb, k).len() <= s.len(),
        s.subrange(0, gap_list_code(p, b, a, hb, k).len() as int) == gap_list_code(p, b, a, hb, k),
        gap_list_code(p, b, c, hb, k).len() <= s.len(),
        s.subrange(0, gap_list_code(p, b, c, hb, k).len() as int) == gap_list_code(p, b, c, hb, k),
    ensures
        a == c,
{
    if a.len() == 0 {
        assert(a =~= c);
    } else {
        lemma_gap_list_prefixes_agree(p, b, a, c, hb, k, s, a.len() as int);
        assert(a.take(a.len() as int) =~= a);
        assert(c.take(c.len() as int) =~= c);
    }
}

/// A stream that starts with the code of a list holds that list, and the hashes read from it
/// are those of the list.
pub proof fn lemma_coded_hashes_of_code(p: u32, b: u32, hashes: Seq<u32>, hb: u32, k: nat, s: Seq<bool>)
    requires
        4 <= p <= 18,
        4 <= b <= 6,
        p + b <= hb <= 32,
        k < 32,
        is_gap_list(p, b, hashes, hb, k),
        gap_list_code(p, b, hashes, hb, k).len() <= s.len(),
        s.subrange(0, gap_list_code(p, b, hashes, hb, k).len() as int) == gap_list_code(
            p,
            b,
            hashes,
            hb,
            k,
        ),
    ensures
        holds_gap_list(p, b, s, hashes.len(), hb, k, gap_list_code(p, b, hashes, hb, k).len()),
        coded_hashes(p, b, s, hashes.len(), hb, k, gap_list_code(p, b, hashes, hb, k).len())
            == hashes,
{
    let end = gap_list_code(p, b, hashes, hb, k).len();
    assert(is_gap_list(p, b, hashes, hb, k) && hashes.len() == hashes.len() && gap_list_code(
        p,
        b,
        hashes,
        hb,
        k,
    ).len() == end && end <= s.len() && s.subrange(0, end as int) == gap_list_code(
        p,
        b,
        hashes,
        hb,
        k,
    ));
    let c = coded_hashes(p, b, s, hashes.len(), hb, k, end);
    lemma_gap_list_code_unique(p, b, hashes, c, hb, k, s);
}

/// Reads the bits of a stream up to a given end, in chunks of at most 64 bits.
pub struct BypassIter<'a> {
    bitstream: BitReader<'a>,
    bit_index: u32,
}

impl<'a> BypassIter<'a> {
    /// The stream read.
    pub closed spec fn stream(&self) -> Seq<bool> {
        self.bitstream.view()
    }

    /// The position of the next bit to read.
    pub closed spec fn position(&self) -> nat {
        self.bitstream.position()
    }

    /// The position at which the reading stops.
    pub closed spec fn end(&self) -> nat {
        self.bit_index as nat
    }

    /// The reader's invariant.
    pub closed spec fn wf(&self) -> bool {
        &&& self.bitstream.wf()
        &&& self.bit_index <= self.bitstream.limit()
    }

    /// The next chunk of bits, with its length: the bits from the current position up to the
    /// end, at most 64 of them; nothing once the end is reached.
    pub fn next(&mut self) -> (chunk: Option<(u64, u8)>)
        requires
            old(self).wf(),
        ensures
            final(self).wf(),
            final(self).stream() == old(self).stream(),
            final(self).end() == old(self).end(),
            old(self).end() <= old(self).position() ==> chunk is None && final(self).position()
                == old(self).position(),
            old(self).position() < old(self).end() ==> ({
                let n = if old(self).end() - old(self).position() < 64 {
                    old(self).end() - old(self).position()
                } else {
                    64
                };
                &&& chunk == Some(
                    (
                        value_of(
                            old(self).stream().subrange(
                                old(self).position() as int,
                                old(self).position() + n,
                            ),
                        ) as u64,
                        n as u8,
                    ),
                )
                &&& final(self).position() == old(self).position() + n
            }),
    {
        let position = self.bitstream.last_read_bit_position();
        if position >= self.bit_index {
            return None;
        }
        let remaining = self.bit_index - position;
        let n_bits = if remaining < 64 {
            remaining as u8
        } else {
            64
        };
        let value = self.bitstream.read_bits(n_bits);
        Some((value, n_bits))
    }
}

/// Reads a prefix-free coded list of gap hashes, hash by hash.
///
/// It starts either at the first hash of the list, written in full, or at the code of the gap
/// that leads to a known hash of the list; it then follows the gaps up to the end of the list.
pub struct PrefixCodeIter<'a, P: Precision, B: Bits> {
    bitstream: BitReader<'a>,
    previous: u32,
    first: bool,
    hash_bits: u8,
    maximal_bit_index: u32,
    previous_gap_fragment: Option<GapFragment>,
    previous_index: u32,
    previous_hash_remainder: u32,
    previous_uniform: u32,
    uniform_coefficient: u8,
    _phantom: core::marker::PhantomData<GapHash<P, B>>,
}

impl<'a, P: Precision, B: Bits> PrefixCodeIter<'a, P, B> {
    /// The coded list.
    pub closed spec fn stream(&self) -> Seq<bool> {
        self.bitstream.view()
    }

    /// The position of the next bit to read.
    pub closed spec fn position(&self) -> nat {
        self.bitstream.position()
    }

    /// The number of bits of the buffer.
    pub closed spec fn limit(&self) -> nat {
        self.bitstream.limit()
    }

    /// The position at which the list ends.
    pub closed spec fn end(&self) -> nat {
        self.maximal_bit_index as nat
    }

    /// The number of bits of each hash.
    pub closed spec fn bits(&self) -> u8 {
        self.hash_bits
    }

    /// The number of bits loaded in the reader's register and not read yet.
    pub closed spec fn buffered(&self) -> nat {
        self.bitstream.buffered()
    }

    /// Within the invariant, what the reader has loaded reaches at least its position.
    pub proof fn lemma_buffered_end(&self)
        requires
            self.wf(),
        ensures
            self.buffered_end() == self.position() + 2 * self.buffered(),
    {
        self.bitstream.lemma_buffered_end();
    }

    /// The number of bits of the words loaded so far plus the bits of the reader's register
    /// not read yet, kept to 32 bits.
    pub closed spec fn buffered_end(&self) -> u32 {
        self.bitstream.buffered_end()
    }

    /// The Rice parameter of the uniform part of the gaps.
    pub closed spec fn coefficient(&self) -> u8 {
        self.uniform_coefficient
    }

    /// Whether no hash has been read yet.
    pub closed spec fn is_first(&self) -> bool {
        self.first
    }

    /// The last hash read, or the hash the reading starts from.
    pub closed spec fn previous_hash(&self) -> u32 {
        self.previous
    }

    /// The last gap read.
    pub closed spec fn last_gap(&self) -> Option<GapFragment> {
        self.previous_gap_fragment
    }

    /// The uniform part of the last hash read (its index, when the hash holds nothing more).
    pub closed spec fn uniform_state(&self) -> u32 {
        if self.hash_bits == P::spec_exponent() + B::spec_number_of_bits() {
            self.previous_index
        } else {
            self.previous_uniform
        }
    }

    /// The reader's invariant.
    pub closed spec fn wf(&self) -> bool {
        &&& self.bitstream.wf()
        &&& P::spec_exponent() + B::spec_number_of_bits() <= self.hash_bits <= 32
        &&& self.uniform_coefficient < 32
        &&& self.maximal_bit_index <= self.bitstream.limit()
    }

    /// The hash that the next step returns, if any.
    pub open spec fn next_hash(&self) -> Option<u32> {
        let p = P::spec_exponent() as u32;
        let b = B::spec_number_of_bits() as u32;
        let hb = self.bits() as u32;
        let pos = self.position() as int;
        if self.is_first() {
            if pos == 0 {
                Some(value_of(self.stream().subrange(0, hb as int)) as u32)
            } else {
                Some(self.previous_hash())
            }
        } else if self.end() <= pos {
            None
        } else {
            let gap = gap_at(self.stream(), pos, self.coefficient() as nat);
            Some(
                hash_of_uniform(
                    p,
                    b,
                    hb,
                    uniform_step(p, b, hb, self.uniform_state(), gap),
                    (gap.geometric_minus_one + 1) as u32,
                ),
            )
        }
    }

    /// Whether the stream can be read at the next step: it holds there a gap code (or, at the
    /// very start, the first hash), and the gap leads to a 32-bit uniform part.
    pub open spec fn can_step(&self) -> bool {
        let p = P::spec_exponent() as u32;
        let b = B::spec_number_of_bits() as u32;
        let hb = self.bits() as u32;
        let pos = self.position() as int;
        let k = self.coefficient() as nat;
        if self.is_first() {
            if pos == 0 {
                hb <= self.limit()
            } else {
                exists|gap: GapFragment| holds_gap(self.stream(), pos, gap, k)
            }
        } else if self.end() <= pos {
            true
        } else {
            exists|gap: GapFragment|
                holds_gap(self.stream(), pos, gap, k) && step_in_range(
                    p,
                    b,
                    hb,
                    self.uniform_state(),
                    gap,
                )
        }
    }

    /// Records `hash` as the last hash read, with its uniform part.
    fn start_from(&mut self, hash: u32)
        requires
            old(self).wf(),
        ensures
            final(self).wf(),
            final(self).bitstream == old(self).bitstream,
            final(self).hash_bits == old(self).hash_bits,
            final(self).maximal_bit_index == old(self).maximal_bit_index,
            final(self).uniform_coefficient == old(self).uniform_coefficient,
            final(self).previous_gap_fragment == old(self).previous_gap_fragment,
            final(self).first == old(self).first,
            final(self).previous == hash,
            final(self).uniform_state() == gap_uniform(
                P::spec_exponent() as u32,
                B::spec_number_of_bits() as u32,
                hash,
                old(self).hash_bits as u32,
            ),
    {
        let fragment = SwitchHash::<P, B>::scompose_hash(hash, self.hash_bits);
        self.previous = hash;
        self.previous_uniform = fragment.uniform(self.hash_bits);
        self.previous_index = fragment.index;
        self.previous_hash_remainder = fragment.hash_remainder;
        proof {
            let hb = self.hash_bits as u32;
            if hb == P::spec_exponent() + B::spec_number_of_bits() {
                let i = fragment.index;
                crate::bitstream::lemma_u32_shift_or_zero(i);
            }
        }
    }

    /// A reader of the list coded in `hashes`, which ends at bit `maximal_bit_index`, of hashes
    /// of `hash_bits` bits.
    pub fn new(hashes: &'a [u64], maximal_bit_index: u32, hash_bits: u8) -> (iter: Self)
        requires
            hashes@.len() <= 0x01ff_ffff,
            P::spec_exponent() + B::spec_number_of_bits() <= hash_bits <= 32,
            hash_bits - P::spec_exponent() - B::spec_number_of_bits() < rice_coefficients(
                P::spec_exponent(),
                B::spec_number_of_bits(),
            ).len(),
            maximal_bit_index <= 64 * hashes@.len(),
        ensures
            iter.wf(),
            iter.stream() == crate::bitstream::stream_of_words(hashes@),
            iter.limit() == 64 * hashes@.len(),
            iter.position() == 0,
            iter.is_first(),
            iter.bits() == hash_bits,
            iter.end() == maximal_bit_index,
            iter.last_gap() is None,
            iter.coefficient() == rice_coefficients(P::spec_exponent(), B::spec_number_of_bits())[hash_bits
                - P::spec_exponent() - B::spec_number_of_bits()],
    {
        PrefixCodeIter {
            bitstream: BitReader::new(hashes),
            previous: u32::MAX,
            first: true,
            hash_bits,
            maximal_bit_index,
            previous_gap_fragment: None,
            previous_index: u32::MAX,
            previous_hash_remainder: u32::MAX,
            previous_uniform: u32::MAX,
            uniform_coefficient: GapHash::<P, B>::uniform_coefficient(hash_bits),
            _phantom: core::marker::PhantomData,
        }
    }

    /// A reader of the list coded in `hashes` that starts where the rank index of the list
    /// points a search for `current_hash` to: at the entry of the nearest filled bucket, or else
    /// at the start of the list.
    pub fn new_with_rank_index(
        hashes: &'a [u64],
        maximal_bit_index: u32,
        hash_bits: u8,
        current_hash: u32,
    ) -> (iter: Self)
        requires
            0 < hashes@.len() <= 0x01ff_ffff,
            P::spec_exponent() + B::spec_number_of_bits() <= hash_bits <= 32,
            hash_bits - P::spec_exponent() - B::spec_number_of_bits() < rice_coefficients(
                P::spec_exponent(),
                B::spec_number_of_bits(),
            ).len(),
            maximal_bit_index <= 64 * hashes@.len(),
            has_rank_index_spec(P::spec_exponent(), B::spec_number_of_bits()),
            fits_bits(current_hash, hash_bits as u32),
            rank_index_total_size_spec(P::spec_exponent(), B::spec_number_of_bits(), hash_bits) <= 64
                * hashes@.len(),
            search_start(
                crate::bitstream::stream_of_words(hashes@),
                P::spec_exponent(),
                B::spec_number_of_bits(),
                hash_bits,
                hashes@.len() as nat,
                rank_bucket(P::spec_exponent(), hash_bits, current_hash),
            ).0 <= maximal_bit_index,
        ensures
            iter.wf(),
            iter.stream() == crate::bitstream::stream_of_words(hashes@),
            iter.limit() == 64 * hashes@.len(),
            ({
                let start = search_start(
                    crate::bitstream::stream_of_words(hashes@),
                    P::spec_exponent(),
                    B::spec_number_of_bits(),
                    hash_bits,
                    hashes@.len() as nat,
                    rank_bucket(P::spec_exponent(), hash_bits, current_hash),
                );
                &&& iter.position() == start.0
                &&& iter.previous_hash() == start.1
                &&& iter.uniform_state() == gap_uniform(
                    P::spec_exponent() as u32,
                    B::spec_number_of_bits() as u32,
                    start.1 as u32,
                    hash_bits as u32,
                )
            }),
            iter.is_first(),
            iter.bits() == hash_bits,
            iter.end() == maximal_bit_index,
            iter.last_gap() is None,
            iter.coefficient() == rice_coefficients(P::spec_exponent(), B::spec_number_of_bits())[hash_bits
                - P::spec_exponent() - B::spec_number_of_bits()],
    {
        let (bit_index, bucket_hash) = GapHash::<P, B>::best_search_start(
            hashes,
            hash_bits,
            current_hash,
        );
        let mut iter = PrefixCodeIter {
            bitstream: BitReader::skip(hashes, bit_index),
            previous: u32::MAX,
            first: true,
            hash_bits,
            maximal_bit_index,
            previous_gap_fragment: None,
            previous_index: u32::MAX,
            previous_hash_remainder: u32::MAX,
            previous_uniform: u32::MAX,
            uniform_coefficient: GapHash::<P, B>::uniform_coefficient(hash_bits),
            _phantom: core::marker::PhantomData,
        };
        iter.start_from(bucket_hash);
        iter
    }

    /// The raw reader of the rest of the list, from the next bit to read up to the end of the
    /// list.
    pub fn into_bypass(self) -> (bypass: BypassIter<'a>)
        requires
            self.wf(),
        ensures
            bypass.wf(),
            bypass.stream() == self.stream(),
            bypass.position() == self.position(),
            bypass.end() == self.end(),
    {
        BypassIter { bitstream: self.bitstream, bit_index: self.maximal_bit_index }
    }

    /// The position of the next bit to read.
    pub fn last_read_bit_position(&self) -> (position: u32)
        requires
            self.wf(),
        ensures
            position == self.position(),
    {
        self.bitstream.last_read_bit_position()
    }

    /// What one step of reading does: it returns the next hash and moves past its code.
    pub open spec fn steps_to(&self, next: Self, item: Option<u32>) -> bool {
        &&& next.wf()
        &&& item == self.next_hash()
        &&& next.stream() == self.stream()
        &&& next.limit() == self.limit()
        &&& next.end() == self.end()
        &&& next.bits() == self.bits()
        &&& next.coefficient() == self.coefficient()
        &&& !next.is_first()
        &&& item matches Some(h) ==> next.previous_hash() == h
        &&& item is None ==> next.position() == self.position()
            && next.previous_hash() == self.previous_hash()
            && next.uniform_state() == self.uniform_state()
            && next.last_gap() == self.last_gap()
        &&& self.is_first() ==> next.uniform_state() == gap_uniform(
            P::spec_exponent() as u32,
            B::spec_number_of_bits() as u32,
            next.previous_hash(),
            self.bits() as u32,
        )
        &&& self.is_first() && self.position() == 0 ==> next.position()
            == self.bits() && next.last_gap() == self.last_gap()
        &&& (self.is_first() && self.position() != 0) || item is Some && !self.is_first() ==> ({
            let gap = gap_at(
                self.stream(),
                self.position() as int,
                self.coefficient() as nat,
            );
            &&& holds_gap(
                self.stream(),
                self.position() as int,
                gap,
                self.coefficient() as nat,
            )
            &&& next.position() == self.position() + gap_code(
                gap,
                self.coefficient() as nat,
            ).len()
            &&& next.last_gap() == Some(gap)
        })
        &&& !self.is_first() && item is Some ==> next.uniform_state() == uniform_step(
            P::spec_exponent() as u32,
            B::spec_number_of_bits() as u32,
            self.bits() as u32,
            self.uniform_state(),
            gap_at(self.stream(), self.position() as int, self.coefficient() as nat),
        )
    }

    /// Reads the next hash of the list: the first hash in full, then each following hash
    /// through the gap that leads to it; `None` once the end of the list is reached.
    pub fn next(&mut self) -> (item: Option<u32>)
        requires
            old(self).wf(),
            old(self).can_step(),
        ensures
            old(self).steps_to(*final(self), item),
    {
        proof {
            P::lemma_exponent_range();
            B::lemma_number_of_bits_range();
            self.bitstream.lemma_view_len();
        }
        if self.first {
            self.first = false;
            if self.bitstream.last_read_bit_position() == 0 {
                let value = self.bitstream.read_bits(self.hash_bits);
                proof {
                    crate::bitstream::lemma_value_of_bound(
                        old(self).stream().subrange(0, self.hash_bits as int),
                    );
                    if self.hash_bits < 32 {
                        vstd::arithmetic::power2::lemma_pow2_strictly_increases(
                            self.hash_bits as nat,
                            32,
                        );
                    }
                    vstd::arithmetic::power2::lemma2_to64();
                }
                let hash = value as u32;
                self.start_from(hash);
                return Some(hash);
            } else {
                let gap = read_gap(&mut self.bitstream, self.uniform_coefficient);
                self.previous_gap_fragment = Some(gap);
                let hash = self.previous;
                self.start_from(hash);
                return Some(hash);
            }
        }
        if self.maximal_bit_index <= self.bitstream.last_read_bit_position() {
            return None;
        }
        let ghost state = self.uniform_state();
        proof {
            let g = choose|g: GapFragment|
                holds_gap(self.stream(), self.position() as int, g, self.coefficient() as nat)
                    && step_in_range(
                    P::spec_exponent() as u32,
                    B::spec_number_of_bits() as u32,
                    self.hash_bits as u32,
                    state,
                    g,
                );
            lemma_gap_code_unique(
                self.stream(),
                self.position() as int,
                g,
                gap_at(self.stream(), self.position() as int, self.coefficient() as nat),
                self.coefficient() as nat,
            );
        }
        let gap = read_gap(&mut self.bitstream, self.uniform_coefficient);
        self.previous_gap_fragment = Some(gap);
        if P::exponent() + B::number_of_bits() == self.hash_bits {
            self.previous_index = self.previous_index - gap.uniform_delta;
            let hash = SwitchHash::<P, B>::compose_hash(
                self.previous_index,
                gap.geometric_minus_one + 1,
                0,
                self.hash_bits,
            );
            self.previous = hash;
            return Some(hash);
        }
        proof {
            crate::bitstream::lemma_u32_halving(gap.uniform_delta);
        }
        self.previous_uniform = if gap.uniform_delta & 1 == 0 {
            self.previous_uniform + (gap.uniform_delta >> 1)
        } else {
            self.previous_uniform - ((gap.uniform_delta >> 1) + 1)
        };
        let remainder_size = (self.hash_bits - 1 - P::exponent()) as u32;
        proof {
            crate::bitstream::lemma_shl_one_positive(remainder_size as u64);
        }
        self.previous_index = self.previous_uniform >> remainder_size;
        self.previous_hash_remainder = self.previous_uniform & ((1u32 << remainder_size) - 1);
        let hash = SwitchHash::<P, B>::compose_hash(
            self.previous_index,
            gap.geometric_minus_one + 1,
            self.previous_hash_remainder,
            self.hash_bits,
        );
        self.previous = hash;
        Some(hash)
    }
}

impl<'a, P: Precision, B: Bits> LastBufferedBit for PrefixCodeIter<'a, P, B> {
    fn last_buffered_bit(&self) -> (bit: u32)
        ensures
            bit == self.buffered_end(),
            self.wf() ==> bit == self.position() + 2 * self.buffered(),
    {
        self.bitstream.last_buffered_bit_position()
    }

    fn hash_bits(&self) -> (bits: u8)
        ensures
            bits == self.bits(),
    {
        self.hash_bits
    }
}

/// The number of bytes that a plain list may take in a buffer of `len` bytes: all of them,
/// unless the buffer is larger than half the registers, when its end is kept for the rank
/// index.
pub open spec fn plain_capacity(p: u8, b: u8, len: nat, hb: u8) -> nat {
    let maximal = (pow2(p as nat) * b + 63) / 64 * 8;
    if len > maximal / 2 {
        (len - (rank_index_total_size_spec(p, b, hb) + 7) / 8 * 8) as nat
    } else {
        len
    }
}

/// Whether the end of a buffer of `len` bytes that a rank index reserves fits in it.
pub open spec fn rank_index_fits(p: u8, b: u8, len: nat, hb: u8) -> bool {
    len > (pow2(p as nat) * b + 63) / 64 * 8 / 2 ==> (rank_index_total_size_spec(p, b, hb) + 7) / 8
        * 8 <= len
}

/// Whether a list of `n` hashes of `hb` bits that ends at bit `bit_index` is written with
/// prefix-free codes.
pub open spec fn is_prefix_free(p: u8, b: u8, n: nat, hb: u8, bit_index: nat) -> bool {
    hb < largest_viable_bits(p, b) || n * hb > bit_index
}

/// The Rice parameter of the gaps of a list of `hb` bits.
pub open spec fn gap_coefficient(p: u8, b: u8, hb: u8) -> nat {
    rice_coefficients(p, b)[hb - p - b] as nat
}

/// Whether the buffer `bytes` holds a list of `n` gap hashes of `hb` bits that ends at bit
/// `bit_index`: prefix-free coded, or plain in the part of the buffer left by the rank index.
pub open spec fn is_gap_hash_list(p: u8, b: u8, bytes: Seq<u8>, n: nat, hb: u8, bit_index: nat) -> bool {
    if is_prefix_free(p, b, n, hb, bit_index) {
        &&& 0 < n
        &&& p + b <= hb <= 32
        &&& hb - p - b < rice_coefficients(p, b).len()
        &&& bytes.len() % 8 == 0
        &&& bytes.len() <= 8 * 0x01ff_ffff
        &&& holds_gap_list(
            p as u32,
            b as u32,
            stream_of(bytes),
            n,
            hb as u32,
            gap_coefficient(p, b, hb),
            bit_index,
        )
    } else {
        &&& smallest_viable_bits(p, b) <= hb
        &&& p + b <= hb
        &&& n * hb == bit_index
        &&& rank_index_fits(p, b, bytes.len(), hb)
        &&& is_hash_list(bytes.subrange(0, plain_capacity(p, b, bytes.len(), hb) as int), n, hb)
    }
}

/// The hashes of a list of gap hashes, as numbers.
pub open spec fn gap_hashes(p: u8, b: u8, bytes: Seq<u8>, n: nat, hb: u8, bit_index: nat) -> Seq<nat> {
    if is_prefix_free(p, b, n, hb, bit_index) {
        coded_hashes(
            p as u32,
            b as u32,
            stream_of(bytes),
            n,
            hb as u32,
            gap_coefficient(p, b, hb),
            bit_index,
        ).map_values(|h: u32| h as nat)
    } else {
        stored_hashes(
            bytes.subrange(0, plain_capacity(p, b, bytes.len(), hb) as int),
            n,
            (hb / 8) as nat,
        )
    }
}

impl<P: Precision, B: Bits> GapHash<P, B> {
    /// The part of the buffer that a plain list may take: all of it, unless the buffer is
    /// larger than half the registers, when its end is kept for the rank index.
    fn skip_rank_index(hashes: &[u8], hash_bits: u8) -> (skipped: &[u8])
        requires
            hash_bits <= 32,
            rank_index_fits(P::spec_exponent(), B::spec_number_of_bits(), hashes@.len(), hash_bits),
        ensures
            skipped@ == hashes@.subrange(
                0,
                plain_capacity(P::spec_exponent(), B::spec_number_of_bits(), hashes@.len(), hash_bits)
                    as int,
            ),
    {
        proof {
            P::lemma_exponent_range();
            B::lemma_number_of_bits_range();
            vstd::arithmetic::power2::lemma2_to64();
            vstd::arithmetic::power2::lemma_pow2_strictly_increases(P::spec_exponent() as nat, 19);
            vstd::bits::lemma_usize_shl_is_mul(1, P::spec_exponent() as usize);
        }
        let registers = 1usize << P::exponent();
        proof {
            assert(registers * (B::spec_number_of_bits() as usize) < 0x0100_0000) by (nonlinear_arith)
                requires
                    registers < 524288,
                    B::spec_number_of_bits() <= 6,
            ;
        }
        let maximal_size = (registers * (B::number_of_bits() as usize) + 63) / 64 * 8;
        if hashes.len() > maximal_size / 2 {
            let reserved = Self::rank_index_padded_size(hash_bits) as usize;
            let (head, _tail) = hashes.split_at(hashes.len() - reserved);
            head
        } else {
            assert(hashes@.subrange(0, hashes@.len() as int) =~= hashes@);
            hashes
        }
    }

    /// Whether the list of `number_of_hashes` gap hashes of `hash_bits` bits, which ends at
    /// bit `bit_index` of `hashes`, holds the hash of the register `register` of index `index`
    /// taken from `original_hash`.
    pub fn find(
        hashes: &[u8],
        number_of_hashes: u32,
        index: usize,
        register: u8,
        original_hash: u64,
        hash_bits: u8,
        bit_index: u32,
    ) -> (found: bool)
        requires
            0 < register <= register_mask(B::spec_number_of_bits()),
            (index as nat) < pow2(P::spec_exponent() as nat),
            P::spec_exponent() + B::spec_number_of_bits() <= hash_bits <= 32,
            number_of_hashes * hash_bits <= u32::MAX,
            is_gap_hash_list(
                P::spec_exponent(),
                B::spec_number_of_bits(),
                hashes@,
                number_of_hashes as nat,
                hash_bits,
                bit_index as nat,
            ),
        ensures
            found == gap_hashes(
                P::spec_exponent(),
                B::spec_number_of_bits(),
                hashes@,
                number_of_hashes as nat,
                hash_bits,
                bit_index as nat,
            ).contains(
                switch_encoding(
                    P::spec_exponent() as u32,
                    B::spec_number_of_bits() as u32,
                    index as u32,
                    register as u32,
                    original_hash,
                    hash_bits as u32,
                ) as nat,
            ),
    {
        proof {
            P::lemma_exponent_range();
            B::lemma_number_of_bits_range();
        }
        if !Self::is_prefix_free_encoded(number_of_hashes, hash_bits, bit_index) {
            return SwitchHash::<P, B>::find(
                Self::skip_rank_index(hashes, hash_bits),
                number_of_hashes,
                index,
                register,
                original_hash,
                hash_bits,
                bit_index,
            );
        }
        let encoded_hash = Self::encode(index, register, original_hash, hash_bits);
        let ghost p = P::spec_exponent() as u32;
        let ghost b = B::spec_number_of_bits() as u32;
        let ghost hb = hash_bits as u32;
        let ghost k = gap_coefficient(P::spec_exponent(), B::spec_number_of_bits(), hash_bits);
        let ghost s = stream_of(hashes@);
        let ghost n = number_of_hashes as nat;
        let ghost hs = coded_hashes(p, b, s, n, hb, k, bit_index as nat);
        let words = words_of_bytes(hashes);
        let mut iter = PrefixCodeIter::<P, B>::new(words.as_slice(), bit_index, hash_bits);
        proof {
            lemma_rice_coefficients_small(P::spec_exponent(), B::spec_number_of_bits());
            assert(is_gap_list(p, b, hs, hb, k) && hs.len() == n && gap_list_code(p, b, hs, hb, k).len()
                == bit_index && bit_index <= s.len() && s.subrange(0, bit_index as int)
                == gap_list_code(p, b, hs, hb, k));
            lemma_gap_list_code_prefix(p, b, hs, hb, k, 0);
            assert(hs.take(0).len() == 0);
        }
        let mut i: u32 = 0;
        loop
            invariant
                4 <= p <= 18,
                4 <= b <= 6,
                p + b <= hb <= 32,
                (k as nat) < 32,
                p == P::spec_exponent(),
                b == B::spec_number_of_bits(),
                hb == hash_bits,
                n == number_of_hashes,
                s == stream_of(hashes@),
                k == gap_coefficient(P::spec_exponent(), B::spec_number_of_bits(), hash_bits),
                hs == coded_hashes(p, b, s, n, hb, k, bit_index as nat),
                is_prefix_free(P::spec_exponent(), B::spec_number_of_bits(), n, hash_bits, bit_index as nat),
                encoded_hash == switch_encoding(p, b, index as u32, register as u32, original_hash, hb),
                iter.wf(),
                iter.stream() == s,
                iter.limit() == s.len(),
                iter.end() == bit_index,
                iter.bits() == hash_bits,
                iter.coefficient() == k,
                is_gap_list(p, b, hs, hb, k),
                hs.len() == n,
                0 < n,
                gap_list_code(p, b, hs, hb, k).len() == bit_index,
                bit_index <= s.len(),
                s.subrange(0, bit_index as int) == gap_list_code(p, b, hs, hb, k),
                i <= n,
                i == 0 ==> iter.is_first() && iter.position() == 0,
                i > 0 ==> {
                    &&& !iter.is_first()
                    &&& iter.position() == gap_list_code(p, b, hs.take(i as int), hb, k).len()
                    &&& iter.previous_hash() == hs[i - 1]
                    &&& iter.uniform_state() == gap_uniform(p, b, hs[i - 1], hb)
                },
                forall|j: int| 0 <= j < i ==> hs[j] > encoded_hash,
            decreases n - i,
        {
            proof {
                if i == 0 {
                    lemma_reads_first_hash(p, b, hs, hb, k, s);
                } else if i < n {
                    lemma_reads_gap_list(p, b, hs, hb, k, s, i as int);
                    lemma_gap_list_code_prefix(p, b, hs, hb, k, i as int);
                } else {
                    assert(hs.take(i as int) =~= hs);
                }
            }
            let item = iter.next();
            match item {
                None => {
                    proof {
                        assert(i == n);
                        let mv = hs.map_values(|h: u32| h as nat);
                        assert forall|j: int| 0 <= j < mv.len() implies mv[j] != encoded_hash as nat by {}
                    }
                    return false;
                },
                Some(value) => {
                    proof {
                        assert(i < n);
                        assert(value == hs[i as int]);
                    }
                    if value <= encoded_hash {
                        proof {
                            let mv = hs.map_values(|h: u32| h as nat);
                            if value != encoded_hash {
                                assert forall|j: int| 0 <= j < mv.len() implies mv[j]
                                    != encoded_hash as nat by {
                                    if j > i {
                                        assert(hs[j] < hs[i as int]);
                                    }
                                }
                            } else {
                                assert(mv[i as int] == encoded_hash as nat);
                            }
                        }
                        return value == encoded_hash;
                    }
                },
            }
            i = i + 1;
        }
    }
}

/// Reads a prefix-free coded list, decoding each hash into its register and its index.
pub struct PrefixCodeDecodedIter<'a, P: Precision, B: Bits> {
    iter: PrefixCodeIter<'a, P, B>,
}

impl<'a, P: Precision, B: Bits> PrefixCodeDecodedIter<'a, P, B> {
    /// The reader of the coded hashes.
    pub closed spec fn inner(&self) -> PrefixCodeIter<'a, P, B> {
        self.iter
    }

    /// A decoder of the list coded in `hashes`, which ends at bit `maximal_bit_index`, of
    /// hashes of `hash_bits` bits.
    pub fn new(hashes: &'a [u64], maximal_bit_index: u32, hash_bits: u8) -> (iter: Self)
        requires
            hashes@.len() <= 0x01ff_ffff,
            P::spec_exponent() + B::spec_number_of_bits() <= hash_bits <= 32,
            hash_bits - P::spec_exponent() - B::spec_number_of_bits() < rice_coefficients(
                P::spec_exponent(),
                B::spec_number_of_bits(),
            ).len(),
            maximal_bit_index <= 64 * hashes@.len(),
        ensures
            iter.inner().wf(),
            iter.inner().stream() == stream_of_words(hashes@),
            iter.inner().limit() == 64 * hashes@.len(),
            iter.inner().position() == 0,
            iter.inner().is_first(),
            iter.inner().bits() == hash_bits,
            iter.inner().end() == maximal_bit_index,
            iter.inner().coefficient() == rice_coefficients(
                P::spec_exponent(),
                B::spec_number_of_bits(),
            )[hash_bits - P::spec_exponent() - B::spec_number_of_bits()],
    {
        PrefixCodeDecodedIter { iter: PrefixCodeIter::new(hashes, maximal_bit_index, hash_bits) }
    }

    /// Reads the next hash of the list and decodes it into its register and its index.
    pub fn next(&mut self) -> (item: Option<(u8, usize)>)
        requires
            old(self).inner().wf(),
            old(self).inner().can_step(),
        ensures
            old(self).inner().steps_to(final(self).inner(), old(self).inner().next_hash()),
            match old(self).inner().next_hash() {
                None => item is None,
                Some(hash) => item matches Some((register, index)) && decodes_to(P::spec_exponent() as u32,
                    B::spec_number_of_bits() as u32,
                    hash,
                    old(self).inner().bits() as u32, register, index),
            },
    {
        match self.iter.next() {
            None => None,
            Some(hash) => Some(GapHash::<P, B>::decode(hash, self.iter.hash_bits)),
        }
    }
}

impl<'a, P: Precision, B: Bits> LastBufferedBit for PrefixCodeDecodedIter<'a, P, B> {
    fn last_buffered_bit(&self) -> (bit: u32)
        ensures
            bit == self.inner().buffered_end(),
            self.inner().wf() ==> bit == self.inner().position() + 2 * self.inner().buffered(),
    {
        self.iter.last_buffered_bit()
    }

    fn hash_bits(&self) -> (bits: u8)
        ensures
            bits == self.inner().bits(),
    {
        self.iter.hash_bits()
    }
}

/// Reads a prefix-free coded list, cutting each hash down by a number of bits.
pub struct PrefixCodeDowngradedIter<'a, P: Precision, B: Bits> {
    iter: PrefixCodeIter<'a, P, B>,
    shift: u8,
}

impl<'a, P: Precision, B: Bits> PrefixCodeDowngradedIter<'a, P, B> {
    /// The reader of the coded hashes.
    pub closed spec fn inner(&self) -> PrefixCodeIter<'a, P, B> {
        self.iter
    }

    /// The number of bits each hash is cut down by.
    pub closed spec fn cut(&self) -> u8 {
        self.shift
    }

    /// Whether the next hash can be cut down: it fits in its bits and holds a register.
    pub open spec fn can_cut_next(&self) -> bool {
        self.inner().next_hash() matches Some(hash) ==> (self.cut() > 0 ==> {
            &&& (hash as u64) < (1u64 << (self.inner().bits() as u64))
            &&& switch_decoding(
                P::spec_exponent() as u32,
                B::spec_number_of_bits() as u32,
                hash,
                self.inner().bits() as u32,
            ).0 > 0
        })
    }

    /// A reader of the list coded in `hashes`, which ends at bit `maximal_bit_index`, of
    /// hashes of `hash_bits` bits, each cut down by `shift` bits.
    pub fn new(hashes: &'a [u64], maximal_bit_index: u32, hash_bits: u8, shift: u8) -> (iter: Self)
        requires
            hashes@.len() <= 0x01ff_ffff,
            P::spec_exponent() + B::spec_number_of_bits() + shift <= hash_bits <= 32,
            hash_bits - P::spec_exponent() - B::spec_number_of_bits() < rice_coefficients(
                P::spec_exponent(),
                B::spec_number_of_bits(),
            ).len(),
            maximal_bit_index <= 64 * hashes@.len(),
        ensures
            iter.inner().wf(),
            iter.inner().stream() == stream_of_words(hashes@),
            iter.inner().limit() == 64 * hashes@.len(),
            iter.inner().position() == 0,
            iter.inner().is_first(),
            iter.inner().bits() == hash_bits,
            iter.inner().end() == maximal_bit_index,
            iter.inner().coefficient() == rice_coefficients(
                P::spec_exponent(),
                B::spec_number_of_bits(),
            )[hash_bits - P::spec_exponent() - B::spec_number_of_bits()],
            iter.inner().limit() == 64 * hashes@.len(),
            iter.cut() == shift,
    {
        PrefixCodeDowngradedIter {
            iter: PrefixCodeIter::new(hashes, maximal_bit_index, hash_bits),
            shift,
        }
    }

    /// Reads the next hash of the list and cuts it down.
    pub fn next(&mut self) -> (item: Option<u32>)
        requires
            old(self).inner().wf(),
            old(self).inner().can_step(),
            P::spec_exponent() + B::spec_number_of_bits() + old(self).cut() <= old(self).inner().bits(),
            old(self).can_cut_next(),
        ensures
            old(self).inner().steps_to(final(self).inner(), old(self).inner().next_hash()),
            final(self).cut() == old(self).cut(),
            item == match old(self).inner().next_hash() {
                None => None,
                Some(hash) => Some(
                    switch_downgrading(
                        P::spec_exponent() as u32,
                        B::spec_number_of_bits() as u32,
                        hash,
                        old(self).inner().bits() as u32,
                        old(self).cut() as u32,
                    ),
                ),
            },
    {
        match self.iter.next() {
            None => None,
            Some(hash) => Some(GapHash::<P, B>::downgrade(hash, self.iter.hash_bits, self.shift)),
        }
    }
}

impl<'a, P: Precision, B: Bits> LastBufferedBit for PrefixCodeDowngradedIter<'a, P, B> {
    fn last_buffered_bit(&self) -> (bit: u32)
        ensures
            bit == self.inner().buffered_end(),
            self.inner().wf() ==> bit == self.inner().position() + 2 * self.inner().buffered(),
    {
        self.iter.last_buffered_bit()
    }

    fn hash_bits(&self) -> (bits: u8)
        ensures
            bits == self.inner().bits(),
    {
        self.iter.hash_bits
    }
}

/// Reads a list of gap hashes, decoding each hash into its register and its index, whether
/// the list is prefix-free coded or plain.
pub enum DispatchedDecodedIter<'a, P: Precision, B: Bits> {
    /// The reader of a prefix-free coded list.
    PrefixCodeDecodedIter(PrefixCodeDecodedIter<'a, P, B>),
    /// The reader of a plain list.
    InnerDecodedIter(DecodedIter<'a, P, B>),
}

impl<'a, P: Precision, B: Bits> DispatchedDecodedIter<'a, P, B> {
    /// The number of bits the reader in use has loaded, as its `last_buffered_bit` counts
    /// them.
    pub open spec fn buffered_end(&self) -> u32 {
        match self {
            DispatchedDecodedIter::PrefixCodeDecodedIter(iter) => iter.inner().buffered_end(),
            DispatchedDecodedIter::InnerDecodedIter(iter) => iter.buffered_end(),
        }
    }

    /// The number of bits of each hash of the list read.
    pub open spec fn bits(&self) -> u8 {
        match self {
            DispatchedDecodedIter::PrefixCodeDecodedIter(iter) => iter.inner().bits(),
            DispatchedDecodedIter::InnerDecodedIter(iter) => iter.bits(),
        }
    }

    /// Whether the next step can be taken.
    pub open spec fn can_step(&self) -> bool {
        match self {
            DispatchedDecodedIter::PrefixCodeDecodedIter(iter) => iter.inner().wf()
                && iter.inner().can_step(),
            DispatchedDecodedIter::InnerDecodedIter(iter) => iter.wf(),
        }
    }

    /// Reads and decodes the next hash of the list.
    pub fn next(&mut self) -> (item: Option<(u8, usize)>)
        requires
            old(self).can_step(),
        ensures
            match (*old(self), *final(self)) {
                (
                    DispatchedDecodedIter::PrefixCodeDecodedIter(before),
                    DispatchedDecodedIter::PrefixCodeDecodedIter(after),
                ) => {
                    &&& before.inner().steps_to(after.inner(), before.inner().next_hash())
                    &&& match before.inner().next_hash() {
                        None => item is None,
                        Some(hash) => item matches Some((register, index)) && decodes_to(P::spec_exponent() as u32,
                            B::spec_number_of_bits() as u32,
                            hash,
                            before.inner().bits() as u32, register, index),
                    }
                },
                (
                    DispatchedDecodedIter::InnerDecodedIter(before),
                    DispatchedDecodedIter::InnerDecodedIter(after),
                ) => {
                    &&& after.wf()
                    &&& after.hashes() == before.hashes()
                    &&& after.bits() == before.bits()
                    &&& before.position() < before.hashes().len() ==> {
                        &&& after.position() == before.position() + 1
                        &&& item matches Some((register, index)) && decodes_to(P::spec_exponent() as u32,
                            B::spec_number_of_bits() as u32,
                            before.hashes()[before.position() as int] as u32,
                            before.bits() as u32, register, index)
                    }
                    &&& before.position() >= before.hashes().len() ==> item is None
                        && after.position() == before.position()
                },
                _ => false,
            },
    {
        match self {
            DispatchedDecodedIter::PrefixCodeDecodedIter(iter) => iter.next(),
            DispatchedDecodedIter::InnerDecodedIter(iter) => iter.next(),
        }
    }
}

impl<'a, P: Precision, B: Bits> LastBufferedBit for DispatchedDecodedIter<'a, P, B> {
    fn last_buffered_bit(&self) -> (bit: u32)
        ensures
            bit == self.buffered_end(),
    {
        match self {
            DispatchedDecodedIter::PrefixCodeDecodedIter(iter) => iter.last_buffered_bit(),
            DispatchedDecodedIter::InnerDecodedIter(iter) => iter.last_buffered_bit(),
        }
    }

    fn hash_bits(&self) -> (bits: u8)
        ensures
            bits == self.bits(),
    {
        match self {
            DispatchedDecodedIter::PrefixCodeDecodedIter(iter) => iter.hash_bits(),
            DispatchedDecodedIter::InnerDecodedIter(iter) => iter.hash_bits(),
        }
    }
}

/// Reads a list of gap hashes, cutting each hash down by a number of bits, whether the list is
/// prefix-free coded or plain.
pub enum DispatchedDowngradedIter<'a, P: Precision, B: Bits> {
    /// The reader of a prefix-free coded list.
    PrefixCodeDowngradedIter(PrefixCodeDowngradedIter<'a, P, B>),
    /// The reader of a plain list.
    InnerDowngradedIter(DowngradedIter<'a, P, B>),
}

impl<'a, P: Precision, B: Bits> DispatchedDowngradedIter<'a, P, B> {
    /// The number of bits the reader in use has loaded, as its `last_buffered_bit` counts
    /// them.
    pub open spec fn buffered_end(&self) -> u32 {
        match self {
            DispatchedDowngradedIter::PrefixCodeDowngradedIter(iter) => iter.inner().buffered_end(),
            DispatchedDowngradedIter::InnerDowngradedIter(iter) => iter.buffered_end(),
        }
    }

    /// The number of bits of each hash of the list read.
    pub open spec fn bits(&self) -> u8 {
        match self {
            DispatchedDowngradedIter::PrefixCodeDowngradedIter(iter) => iter.inner().bits(),
            DispatchedDowngradedIter::InnerDowngradedIter(iter) => iter.bits(),
        }
    }

    /// Whether the next step can be taken.
    pub open spec fn can_step(&self) -> bool {
        match self {
            DispatchedDowngradedIter::PrefixCodeDowngradedIter(iter) => {
                &&& iter.inner().wf()
                &&& iter.inner().can_step()
                &&& P::spec_exponent() + B::spec_number_of_bits() + iter.cut() <= iter.inner().bits()
                &&& iter.can_cut_next()
            },
            DispatchedDowngradedIter::InnerDowngradedIter(iter) => iter.wf(),
        }
    }

    /// Reads the next hash of the list and cuts it down.
    pub fn next(&mut self) -> (item: Option<u32>)
        requires
            old(self).can_step(),
        ensures
            match (*old(self), *final(self)) {
                (
                    DispatchedDowngradedIter::PrefixCodeDowngradedIter(before),
                    DispatchedDowngradedIter::PrefixCodeDowngradedIter(after),
                ) => {
                    &&& before.inner().steps_to(after.inner(), before.inner().next_hash())
                    &&& after.cut() == before.cut()
                    &&& item == match before.inner().next_hash() {
                        None => None,
                        Some(hash) => Some(
                            switch_downgrading(
                                P::spec_exponent() as u32,
                                B::spec_number_of_bits() as u32,
                                hash,
                                before.inner().bits() as u32,
                                before.cut() as u32,
                            ),
                        ),
                    }
                },
                (
                    DispatchedDowngradedIter::InnerDowngradedIter(before),
                    DispatchedDowngradedIter::InnerDowngradedIter(after),
                ) => {
                    &&& after.wf()
                    &&& after.hashes() == before.hashes()
                    &&& after.bits() == before.bits()
                    &&& after.cut() == before.cut()
                    &&& before.position() < before.hashes().len() ==> {
                        &&& after.position() == before.position() + 1
                        &&& item == Some(
                            switch_downgrading(
                                P::spec_exponent() as u32,
                                B::spec_number_of_bits() as u32,
                                before.hashes()[before.position() as int] as u32,
                                before.bits() as u32,
                                before.cut() as u32,
                            ),
                        )
                    }
                    &&& before.position() >= before.hashes().len() ==> item is None
                        && after.position() == before.position()
                },
                _ => false,
            },
    {
        match self {
            DispatchedDowngradedIter::PrefixCodeDowngradedIter(iter) => iter.next(),
            DispatchedDowngradedIter::InnerDowngradedIter(iter) => iter.next(),
        }
    }
}

impl<'a, P: Precision, B: Bits> LastBufferedBit for DispatchedDowngradedIter<'a, P, B> {
    fn last_buffered_bit(&self) -> (bit: u32)
        ensures
            bit == self.buffered_end(),
    {
        match self {
            DispatchedDowngradedIter::PrefixCodeDowngradedIter(iter) => iter.last_buffered_bit(),
            DispatchedDowngradedIter::InnerDowngradedIter(iter) => iter.last_buffered_bit(),
        }
    }

    fn hash_bits(&self) -> (bits: u8)
        ensures
            bits == self.bits(),
    {
        match self {
            DispatchedDowngradedIter::PrefixCodeDowngradedIter(iter) => iter.hash_bits(),
            DispatchedDowngradedIter::InnerDowngradedIter(iter) => iter.hash_bits(),
        }
    }
}

impl<P: Precision, B: Bits> GapHash<P, B> {
    /// A reader that decodes the hashes of a list of gap hashes one by one; `words` holds the
    /// same bits as `hashes`, for the reader of prefix-free codes.
    pub fn decoded<'a>(
        hashes: &'a [u8],
        words: &'a [u64],
        number_of_hashes: u32,
        hash_bits: u8,
        bit_index: u32,
    ) -> (iter: DispatchedDecodedIter<'a, P, B>)
        requires
            smallest_viable_bits(P::spec_exponent(), B::spec_number_of_bits()) <= hash_bits <= 32,
            number_of_hashes * hash_bits <= u32::MAX,
            is_gap_hash_list(
                P::spec_exponent(),
                B::spec_number_of_bits(),
                hashes@,
                number_of_hashes as nat,
                hash_bits,
                bit_index as nat,
            ),
            words@.len() <= 0x01ff_ffff,
            stream_of_words(words@) == stream_of(hashes@),
        ensures
            iter.can_step(),
            match iter {
                DispatchedDecodedIter::PrefixCodeDecodedIter(inner) => {
                    &&& is_prefix_free(
                        P::spec_exponent(),
                        B::spec_number_of_bits(),
                        number_of_hashes as nat,
                        hash_bits,
                        bit_index as nat,
                    )
                    &&& inner.inner().stream() == stream_of(hashes@)
                    &&& inner.inner().limit() == inner.inner().stream().len()
                    &&& inner.inner().position() == 0
                    &&& inner.inner().is_first()
                    &&& inner.inner().bits() == hash_bits
                    &&& inner.inner().end() == bit_index
                    &&& inner.inner().coefficient() == gap_coefficient(
                        P::spec_exponent(),
                        B::spec_number_of_bits(),
                        hash_bits,
                    )
                },
                DispatchedDecodedIter::InnerDecodedIter(inner) => {
                    &&& !is_prefix_free(
                        P::spec_exponent(),
                        B::spec_number_of_bits(),
                        number_of_hashes as nat,
                        hash_bits,
                        bit_index as nat,
                    )
                    &&& inner.position() == 0
                    &&& inner.bits() == hash_bits
                    &&& inner.hashes() == gap_hashes(
                        P::spec_exponent(),
                        B::spec_number_of_bits(),
                        hashes@,
                        number_of_hashes as nat,
                        hash_bits,
                        bit_index as nat,
                    )
                },
            },
    {
        proof {
            P::lemma_exponent_range();
            B::lemma_number_of_bits_range();
        }
        if Self::is_prefix_free_encoded(number_of_hashes, hash_bits, bit_index) {
            proof {
                let hs = coded_hashes(
                    P::spec_exponent() as u32,
                    B::spec_number_of_bits() as u32,
                    stream_of(hashes@),
                    number_of_hashes as nat,
                    hash_bits as u32,
                    gap_coefficient(P::spec_exponent(), B::spec_number_of_bits(), hash_bits),
                    bit_index as nat,
                );
                lemma_reads_first_hash(
                    P::spec_exponent() as u32,
                    B::spec_number_of_bits() as u32,
                    hs,
                    hash_bits as u32,
                    gap_coefficient(P::spec_exponent(), B::spec_number_of_bits(), hash_bits),
                    stream_of(hashes@),
                );
            }
            DispatchedDecodedIter::PrefixCodeDecodedIter(
                PrefixCodeDecodedIter::new(words, bit_index, hash_bits),
            )
        } else {
            DispatchedDecodedIter::InnerDecodedIter(
                SwitchHash::<P, B>::decoded(
                    Self::skip_rank_index(hashes, hash_bits),
                    number_of_hashes,
                    hash_bits,
                    bit_index,
                ),
            )
        }
    }
}

impl<P: Precision, B: Bits> GapHash<P, B> {
    /// A reader that cuts the hashes of a list of gap hashes down by `shift` bits, one by one;
    /// `words` holds the same bits as `hashes`, for the reader of prefix-free codes.
    pub fn downgraded<'a>(
        hashes: &'a [u8],
        words: &'a [u64],
        number_of_hashes: u32,
        hash_bits: u8,
        bit_index: u32,
        shift: u8,
    ) -> (iter: DispatchedDowngradedIter<'a, P, B>)
        requires
            P::spec_exponent() + B::spec_number_of_bits() + shift <= hash_bits <= 32,
            number_of_hashes * hash_bits <= u32::MAX,
            is_gap_hash_list(
                P::spec_exponent(),
                B::spec_number_of_bits(),
                hashes@,
                number_of_hashes as nat,
                hash_bits,
                bit_index as nat,
            ),
            !is_prefix_free(
                P::spec_exponent(),
                B::spec_number_of_bits(),
                number_of_hashes as nat,
                hash_bits,
                bit_index as nat,
            ) ==> downgradable(
                P::spec_exponent() as u32,
                B::spec_number_of_bits() as u32,
                gap_hashes(
                    P::spec_exponent(),
                    B::spec_number_of_bits(),
                    hashes@,
                    number_of_hashes as nat,
                    hash_bits,
                    bit_index as nat,
                ),
                hash_bits as u32,
                shift as u32,
            ),
            words@.len() <= 0x01ff_ffff,
            stream_of_words(words@) == stream_of(hashes@),
        ensures
            iter.can_step(),
            match iter {
                DispatchedDowngradedIter::PrefixCodeDowngradedIter(inner) => {
                    &&& is_prefix_free(
                        P::spec_exponent(),
                        B::spec_number_of_bits(),
                        number_of_hashes as nat,
                        hash_bits,
                        bit_index as nat,
                    )
                    &&& inner.inner().stream() == stream_of(hashes@)
                    &&& inner.inner().limit() == stream_of(hashes@).len()
                    &&& inner.inner().position() == 0
                    &&& inner.inner().is_first()
                    &&& inner.inner().bits() == hash_bits
                    &&& inner.inner().end() == bit_index
                    &&& inner.inner().coefficient() == gap_coefficient(
                        P::spec_exponent(),
                        B::spec_number_of_bits(),
                        hash_bits,
                    )
                    &&& inner.cut() == shift
                },
                DispatchedDowngradedIter::InnerDowngradedIter(inner) => {
                    &&& !is_prefix_free(
                        P::spec_exponent(),
                        B::spec_number_of_bits(),
                        number_of_hashes as nat,
                        hash_bits,
                        bit_index as nat,
                    )
                    &&& inner.position() == 0
                    &&& inner.bits() == hash_bits
                    &&& inner.cut() == shift
                    &&& inner.hashes() == gap_hashes(
                        P::spec_exponent(),
                        B::spec_number_of_bits(),
                        hashes@,
                        number_of_hashes as nat,
                        hash_bits,
                        bit_index as nat,
                    )
                },
            },
    {
        proof {
            P::lemma_exponent_range();
            B::lemma_number_of_bits_range();
        }
        if Self::is_prefix_free_encoded(number_of_hashes, hash_bits, bit_index) {
            let ghost p = P::spec_exponent() as u32;
            let ghost b = B::spec_number_of_bits() as u32;
            let ghost hb = hash_bits as u32;
            let ghost k = gap_coefficient(P::spec_exponent(), B::spec_number_of_bits(), hash_bits);
            let ghost hs = coded_hashes(
                p,
                b,
                stream_of(hashes@),
                number_of_hashes as nat,
                hb,
                k,
                bit_index as nat,
            );
            proof {
                lemma_reads_first_hash(p, b, hs, hb, k, stream_of(hashes@));
                assert(is_canonical(p, b, hs[0], hb));
            }
            DispatchedDowngradedIter::PrefixCodeDowngradedIter(
                PrefixCodeDowngradedIter::new(words, bit_index, hash_bits, shift),
            )
        } else {
            DispatchedDowngradedIter::InnerDowngradedIter(
                SwitchHash::<P, B>::downgraded(
                    Self::skip_rank_index(hashes, hash_bits),
                    number_of_hashes,
                    hash_bits,
                    bit_index,
                    shift,
                ),
            )
        }
    }
}

/// Whether `iter` has read the first `i` hashes of the prefix-free coded list `hashes` that its
/// stream starts with and that ends where the reader stops.
pub open spec fn reads_coded_list<P: Precision, B: Bits>(
    iter: PrefixCodeIter<P, B>,
    hashes: Seq<u32>,
    i: nat,
) -> bool {
    let p = P::spec_exponent() as u32;
    let b = B::spec_number_of_bits() as u32;
    let hb = iter.bits() as u32;
    let k = iter.coefficient() as nat;
    let code = gap_list_code(p, b, hashes, hb, k);
    &&& iter.wf()
    &&& is_gap_list(p, b, hashes, hb, k)
    &&& 0 < hashes.len()
    &&& code.len() == iter.end()
    &&& iter.end() <= iter.stream().len()
    &&& iter.limit() == iter.stream().len()
    &&& iter.stream().subrange(0, iter.end() as int) == code
    &&& i <= hashes.len()
    &&& i == 0 ==> iter.is_first() && iter.position() == 0
    &&& i > 0 ==> {
        &&& !iter.is_first()
        &&& iter.position() == gap_list_code(p, b, hashes.take(i as int), hb, k).len()
        &&& iter.previous_hash() == hashes[i - 1]
        &&& iter.uniform_state() == gap_uniform(p, b, hashes[i - 1], hb)
    }
}

/// A reader of a prefix-free coded list that has read its first `i` hashes can take a step;
/// the step yields hash `i` (nothing once all are read) and leaves the reader having read one
/// more hash. Read from the start, the reader thus yields the hashes of the list in order and
/// then nothing.
pub proof fn lemma_coded_list_step<P: Precision, B: Bits>(
    iter: PrefixCodeIter<P, B>,
    hashes: Seq<u32>,
    i: nat,
    next: PrefixCodeIter<P, B>,
    item: Option<u32>,
)
    requires
        reads_coded_list(iter, hashes, i),
    ensures
        iter.can_step(),
        iter.next_hash() == if i < hashes.len() {
            Some(hashes[i as int])
        } else {
            None::<u32>
        },
        iter.steps_to(next, item) ==> reads_coded_list(
            next,
            hashes,
            if i < hashes.len() {
                i + 1
            } else {
                i
            },
        ),
{
    P::lemma_exponent_range();
    B::lemma_number_of_bits_range();
    let p = P::spec_exponent() as u32;
    let b = B::spec_number_of_bits() as u32;
    let hb = iter.bits() as u32;
    let k = iter.coefficient() as nat;
    let s = iter.stream();
    let code = gap_list_code(p, b, hashes, hb, k);
    assert(s.subrange(0, code.len() as int) == code);
    if i == 0 {
        lemma_reads_first_hash(p, b, hashes, hb, k, s);
        assert(hashes.take(1) =~= seq![hashes[0]]);
        assert(is_canonical(p, b, hashes[0], hb));
    } else if i < hashes.len() {
        lemma_reads_gap_list(p, b, hashes, hb, k, s, i as int);
        lemma_gap_list_code_prefix(p, b, hashes, hb, k, i as int);
        assert(is_canonical(p, b, hashes[i as int], hb));
        let gap = gap_between(p, b, hashes[i - 1], hashes[i as int], hb);
        assert(holds_gap(s, iter.position() as int, gap, k) && step_in_range(
            p,
            b,
            hb,
            iter.uniform_state(),
            gap,
        ));
    } else {
        assert(hashes.take(i as int) =~= hashes);
    }
}

} // verus!
