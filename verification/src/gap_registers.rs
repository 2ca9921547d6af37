//! The registers that a list of gap hashes stands for: what a counter holds once it leaves
//! its hash list for registers.
use crate::bitstream::{stream_of, words_of_bytes};
use crate::gap_insert::{gap_hashes32, lemma_gap_hashes32};
use crate::gap_list::{
    coded_hashes, gap_coefficient, gap_hashes, gap_list_code, holds_gap_list, is_gap_hash_list,
    is_gap_list, is_prefix_free, lemma_coded_list_step, plain_capacity, reads_coded_list,
    DispatchedDecodedIter,
};
use crate::gaps::{fits_bits, GapHash};
use crate::precisions::{Bits, Precision};
use crate::shared::{lemma_le_value_bound, stored_hashes};
use crate::switch::{smallest_viable_bits, switch_decoding};
use vstd::arithmetic::power2::{lemma2_to64, pow2};
use vstd::prelude::*;

verus! {

/// The largest register that the first `k` hashes of `hashes`, of `hb` bits, give to the
/// register of index `i`; zero where none of them does.
pub open spec fn max_register(p: u32, b: u32, hashes: Seq<u32>, hb: u32, i: nat, k: nat) -> u32
    decreases k,
{
    if k == 0 {
        0
    } else {
        let previous = max_register(p, b, hashes, hb, i, (k - 1) as nat);
        let decoded = switch_decoding(p, b, hashes[k - 1], hb);
        if decoded.1 == i && decoded.0 > previous {
            decoded.0
        } else {
            previous
        }
    }
}

/// The index that a hash of `hb` bits holds is one of the `2^p` registers.
proof fn lemma_decoded_index_bound(p: u32, b: u32, hash: u32, hb: u32)
    requires
        0 < p <= 18,
        p < hb <= 32,
        fits_bits(hash, hb),
    ensures
        (switch_decoding(p, b, hash, hb).1 as nat) < pow2(p as nat),
{
    let s: u32 = (hb - p) as u32;
    lemma2_to64();
    vstd::arithmetic::power2::lemma_pow2_strictly_increases(hb as nat, 64);
    vstd::bits::lemma_u64_shl_is_mul(1, hb as u64);
    vstd::bits::lemma_u32_shr_is_div(hash, s);
    vstd::arithmetic::power2::lemma_pow2_adds(s as nat, p as nat);
    vstd::arithmetic::power2::lemma_pow2_pos(s as nat);
    let x = hash as int;
    let a = pow2(s as nat) as int;
    let c = pow2(p as nat) as int;
    assert(x / a < c) by (nonlinear_arith)
        requires
            x < a * c,
            a > 0,
            x >= 0,
    ;
}

impl<P: Precision, B: Bits> GapHash<P, B> {
    /// The `2^P` registers that the list of gap hashes in `hashes` stands for: each register
    /// holds the largest register value that a hash of the list gives it, and zero where no
    /// hash does.
    pub fn to_registers(hashes: &[u8], number_of_hashes: u32, hash_bits: u8, bit_index: u32) -> (registers: Vec<u8>)
        requires
            smallest_viable_bits(P::spec_exponent(), B::spec_number_of_bits()) <= hash_bits <= 32,
            number_of_hashes * hash_bits <= u32::MAX,
            is_gap_hash_list(
                P::spec_exponent(),
                B::spec_number_of_bits(),
                hashes@,
                number_of_hashes as nat,
                hash_bits,
                bit_index as nat,
            ),
            hashes@.len() % 8 == 0,
            hashes@.len() <= 8 * 0x01ff_ffff,
        ensures
            registers@.len() == pow2(P::spec_exponent() as nat),
            forall|i: int|
                0 <= i < registers@.len() ==> #[trigger] registers@[i] as u32 == max_register(
                    P::spec_exponent() as u32,
                    B::spec_number_of_bits() as u32,
                    gap_hashes32(
                        P::spec_exponent(),
                        B::spec_number_of_bits(),
                        hashes@,
                        number_of_hashes as nat,
                        hash_bits,
                        bit_index as nat,
                    ),
                    hash_bits as u32,
                    i as nat,
                    number_of_hashes as nat,
                ),
    {
        let ghost p = P::spec_exponent();
        let ghost b = B::spec_number_of_bits();
        let ghost n = number_of_hashes as nat;
        let ghost hs = gap_hashes32(p, b, hashes@, n, hash_bits, bit_index as nat);
        let ghost prefix_free = is_prefix_free(p, b, n, hash_bits, bit_index as nat);
        proof {
            P::lemma_exponent_range();
            B::lemma_number_of_bits_range();
            lemma2_to64();
            vstd::arithmetic::power2::lemma_pow2_strictly_increases(p as nat, 19);
            vstd::bits::lemma_u64_shl_is_mul(1, p as u64);
            lemma_gap_hashes32(p, b, hashes@, n, hash_bits, bit_index as nat);
        }
        let number_of_registers = (1u64 << (P::exponent() as u64)) as usize;
        let mut registers: Vec<u8> = Vec::new();
        let mut i: usize = 0;
        while i < number_of_registers
            invariant
                i <= number_of_registers,
                registers@.len() == i,
                forall|k: int| 0 <= k < i ==> #[trigger] registers@[k] == 0,
            decreases number_of_registers - i,
        {
            registers.push(0);
            i += 1;
        }
        let words = words_of_bytes(hashes);
        let mut iter = Self::decoded(hashes, words.as_slice(), number_of_hashes, hash_bits, bit_index);
        let ghost start = iter;
        proof {
            if prefix_free {
                let k = gap_coefficient(p, b, hash_bits);
                let code = gap_list_code(p as u32, b as u32, hs, hash_bits as u32, k);
                assert(hs == coded_hashes(p as u32, b as u32, stream_of(hashes@), n, hash_bits as u32, k, bit_index as nat));
                match start {
                    DispatchedDecodedIter::PrefixCodeDecodedIter(inner) => {
                        let it = inner.inner();
                        assert(holds_gap_list(p as u32, b as u32, stream_of(hashes@), n, hash_bits as u32, k, bit_index as nat));
                        assert(is_gap_list(p as u32, b as u32, hs, hash_bits as u32, k));
                        assert(code.len() == it.end());
                        assert(it.stream().subrange(0, it.end() as int) == code);
                        assert(reads_coded_list(it, hs, 0));
                    },
                    _ => {},
                }
            }
        }
        let mut k: usize = 0;
        while k < number_of_hashes as usize
            invariant
                k <= n,
                n == number_of_hashes,
                p == P::spec_exponent(),
                b == B::spec_number_of_bits(),
                4 <= p <= 18,
                p < hash_bits <= 32,
                hs.len() == n,
                prefix_free == is_prefix_free(p, b, n, hash_bits, bit_index as nat),
                hs.map_values(|h: u32| h as nat) == gap_hashes(p, b, hashes@, n, hash_bits, bit_index as nat),
                registers@.len() == pow2(p as nat),
                forall|j: int|
                    0 <= j < registers@.len() ==> #[trigger] registers@[j] as u32 == max_register(
                        p as u32,
                        b as u32,
                        hs,
                        hash_bits as u32,
                        j as nat,
                        k as nat,
                    ),
                match iter {
                    DispatchedDecodedIter::PrefixCodeDecodedIter(inner) => {
                        &&& prefix_free
                        &&& reads_coded_list(inner.inner(), hs, k as nat)
                        &&& inner.inner().bits() == hash_bits
                    },
                    DispatchedDecodedIter::InnerDecodedIter(inner) => {
                        &&& !prefix_free
                        &&& inner.wf()
                        &&& inner.position() == k
                        &&& inner.bits() == hash_bits
                        &&& hash_bits % 8 == 0
                        &&& inner.hashes() == gap_hashes(p, b, hashes@, n, hash_bits, bit_index as nat)
                    },
                },
            decreases n - k,
        {
            let ghost before = iter;
            let ghost hash = hs[k as int];
            proof {
                match before {
                    DispatchedDecodedIter::PrefixCodeDecodedIter(inner) => {
                        lemma_coded_list_step(inner.inner(), hs, k as nat, inner.inner(), None);
                        assert(is_gap_list(p as u32, b as u32, hs, hash_bits as u32, inner.inner().coefficient() as nat));
                        assert(fits_bits(hs[k as int], hash_bits as u32));
                    },
                    DispatchedDecodedIter::InnerDecodedIter(inner) => {
                        let w = (hash_bits / 8) as nat;
                        let sub = hashes@.subrange(0, plain_capacity(p, b, hashes@.len(), hash_bits) as int);
                        assert(hs.map_values(|h: u32| h as nat)[k as int] == inner.hashes()[k as int]);
                        assert(inner.hashes() == stored_hashes(sub, n, w));
                        lemma_le_value_bound(sub, k * w, w);
                        assert(8 * w == hash_bits);
                        lemma2_to64();
                        vstd::arithmetic::power2::lemma_pow2_strictly_increases(hash_bits as nat, 64);
                        vstd::bits::lemma_u64_shl_is_mul(1, hash_bits as u64);
                        assert(fits_bits(hash, hash_bits as u32));
                    },
                }
                lemma_decoded_index_bound(p as u32, b as u32, hash, hash_bits as u32);
            }
            let item = iter.next();
            let ghost after = iter;
            proof {
                match (before, after) {
                    (
                        DispatchedDecodedIter::PrefixCodeDecodedIter(b0),
                        DispatchedDecodedIter::PrefixCodeDecodedIter(b1),
                    ) => {
                        lemma_coded_list_step(b0.inner(), hs, k as nat, b1.inner(), b0.inner().next_hash());
                    },
                    _ => {},
                }
            }
            match item {
                Some((register, index)) => {
                    if register > registers[index] {
                        registers.set(index, register);
                    }
                },
                None => {},
            }
            k += 1;
        }
        registers
    }
}

} // verus!
