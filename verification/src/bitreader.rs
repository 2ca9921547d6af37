//! A reader of codes from a bit stream.
//!
//! The reader walks a buffer of 64-bit words as a stream of bits, most significant bit first,
//! loading it thirty-two bits at a time into a 64-bit register.
use crate::bitstream::{
    bit_at, bits_of, is_zero_run, lemma_bit_at_u64, lemma_bit_constants, lemma_bit_logic,
    lemma_bit_shl, lemma_bit_shr, lemma_bits_bound, lemma_value_of_bits_of, stream_of_words,
    value_of,
};
use vstd::arithmetic::power2::{lemma2_to64, lemma_pow2_pos, pow2};
use vstd::prelude::*;
use vstd::std_specs::bits::{axiom_u64_leading_zeros, u64_leading_zeros};

verus! {

/// A reader of codes from a bit stream.
#[derive(Debug, Clone)]
pub struct BitReader<'a> {
    data: &'a [u64],
    word_idx: u32,
    buffer: u64,
    bits_in_buffer: u8,
}

/// The register holds the `b` bits of the stream `s` from `pos` on in its top bits, and zeros
/// below them.
pub open spec fn buffer_holds(buffer: u64, s: Seq<bool>, pos: int, b: nat) -> bool {
    forall|j: nat|
        j < 64 ==> #[trigger] bit_at(buffer as nat, j) == (64 - b <= j && s[pos + 63 - j])
}

/// The word holds the `n` bits of the stream `s` from `start` on in its low bits, and zeros above
/// them.
pub open spec fn word_holds(x: u64, s: Seq<bool>, start: int, n: nat) -> bool {
    forall|j: nat| j < 64 ==> #[trigger] bit_at(x as nat, j) == (j < n && s[start + n - 1 - j])
}

/// Returns the number of bits of two consecutive Rice codes: `uniform_delta` with parameter `b1`
/// and `geometric_minus_one` with parameter `b2`.
pub fn len_rice(uniform_delta: u32, b1: u8, geometric_minus_one: u8, b2: u8) -> (length: u32)
    requires
        b1 < 32,
        b2 < 8,
        uniform_delta as nat / pow2(b1 as nat) + b1 + geometric_minus_one as nat / pow2(b2 as nat)
            + b2 + 2 <= 0xffff_ffff,
    ensures
        length == uniform_delta as nat / pow2(b1 as nat) + 1 + b1 + geometric_minus_one as nat
            / pow2(b2 as nat) + 1 + b2,
{
    proof {
        vstd::bits::lemma_u32_shr_is_div(uniform_delta, b1 as u32);
        vstd::bits::lemma_u8_shr_is_div(geometric_minus_one, b2);
    }
    (uniform_delta >> b1) + 1 + (b1 as u32) + ((geometric_minus_one >> b2) as u32) + 1 + (b2 as u32)
}

/// A word holding `n` bits of a stream is the value of those bits.
pub proof fn lemma_word_holds_value(x: u64, s: Seq<bool>, start: int, n: nat)
    requires
        n <= 64,
        0 <= start,
        start + n <= s.len(),
        word_holds(x, s, start, n),
    ensures
        x as nat == value_of(s.subrange(start, start + n)),
{
    let sub = s.subrange(start, start + n);
    assert forall|j: nat| n <= j < 64 implies !bit_at(x as nat, j) by {}
    lemma_bits_bound(x, n);
    assert forall|i: int| 0 <= i < n implies bits_of(x as nat, n)[i] == sub[i] by {
        assert(bit_at(x as nat, (n - 1 - i) as nat) == s[start + i]);
    }
    assert(bits_of(x as nat, n) =~= sub);
    lemma_value_of_bits_of(x as nat, n);
    vstd::arithmetic::div_mod::lemma_small_mod(x as nat, pow2(n));
}

impl<'a> BitReader<'a> {
    /// The stream being read.
    pub closed spec fn view(&self) -> Seq<bool> {
        stream_of_words(self.data@)
    }

    /// The position, in bits, of the next bit that will be read.
    pub closed spec fn position(&self) -> nat {
        (32 * self.word_idx - self.bits_in_buffer) as nat
    }

    /// The number of bits of the stream.
    pub closed spec fn limit(&self) -> nat {
        (64 * self.data@.len()) as nat
    }

    /// The reader's invariant.
    pub closed spec fn wf(&self) -> bool {
        &&& self.data@.len() <= 0x01ff_ffff
        &&& 32 * self.word_idx <= 64 * self.data@.len()
        &&& self.bits_in_buffer <= 31
        &&& self.bits_in_buffer <= 32 * self.word_idx
        &&& buffer_holds(
            self.buffer,
            self.view(),
            self.position() as int,
            self.bits_in_buffer as nat,
        )
    }

    /// The number of bits loaded in the register and not read yet.
    pub closed spec fn buffered(&self) -> nat {
        self.bits_in_buffer as nat
    }

    /// The number of bits of the words loaded so far plus the bits of the register not read
    /// yet, kept to 32 bits.
    pub closed spec fn buffered_end(&self) -> u32 {
        ((32 * self.word_idx + self.bits_in_buffer) % 0x1_0000_0000) as u32
    }

    /// The words being read.
    pub closed spec fn words(&self) -> Seq<u64> {
        self.data@
    }

    /// Within the invariant, the bits loaded plus the bits of the register not read yet are
    /// the position plus twice the bits of the register not read yet.
    pub proof fn lemma_buffered_end(&self)
        requires
            self.wf(),
        ensures
            self.buffered_end() == self.position() + 2 * self.buffered(),
    {
    }

    /// The stream has one bit per bit of the words.
    pub proof fn lemma_view_len(&self)
        ensures
            self.view().len() == self.limit(),
            self.view() == stream_of_words(self.words()),
            self.limit() == 64 * self.words().len(),
    {
    }

    /// Creates a reader positioned at the beginning of the provided words.
    pub fn new(data: &'a [u64]) -> (reader: Self)
        requires
            data@.len() <= 0x01ff_ffff,
        ensures
            reader.wf(),
            reader.view() == stream_of_words(data@),
            reader.words() == data@,
            reader.position() == 0,
            reader.limit() == 64 * data@.len(),
    {
        let reader = Self { data, word_idx: 0, buffer: 0, bits_in_buffer: 0 };
        proof {
            assert forall|j: nat| j < 64 implies #[trigger] bit_at(0nat, j) == (64 - 0 <= j
                && reader.view()[reader.position() + 63 - j]) by {
                lemma_bit_constants(j as u64);
            }
        }
        reader
    }

    /// Loads the next thirty-two bits of the stream, in the low bits of a word.
    fn next_half_word(&mut self) -> (half: u64)
        requires
            old(self).data@.len() <= 0x01ff_ffff,
            32 * old(self).word_idx + 32 <= 64 * old(self).data@.len(),
        ensures
            final(self).word_idx == old(self).word_idx + 1,
            final(self).data == old(self).data,
            final(self).buffer == old(self).buffer,
            final(self).bits_in_buffer == old(self).bits_in_buffer,
            word_holds(half, old(self).view(), 32 * old(self).word_idx, 32),
    {
        let word = self.data[(self.word_idx / 2) as usize];
        let half = if self.word_idx % 2 == 0 {
            word >> 32
        } else {
            (word << 32) >> 32
        };
        proof {
            let k = self.word_idx as int;
            let s = self.view();
            assert forall|j: nat| j < 64 implies #[trigger] bit_at(half as nat, j) == (j < 32 && s[32
                * k + 32 - 1 - j]) by {
                let p = 32 * k + 31 - j;
                if k % 2 == 0 {
                    lemma_bit_shr(word, 32, j as u64);
                    if j < 32 {
                        assert(p / 64 == k / 2);
                        assert(p % 64 == 31 - j);
                    }
                } else {
                    lemma_bit_shr(word << 32, 32, j as u64);
                    if j < 32 {
                        lemma_bit_shl(word, 32, (j + 32) as u64);
                        assert(p / 64 == k / 2);
                        assert(p % 64 == 63 - j);
                    }
                }
            }
        }
        self.word_idx = self.word_idx + 1;
        half
    }

    /// Creates a reader positioned at the given bit of the provided words.
    pub fn skip(data: &'a [u64], bit_index: u32) -> (reader: Self)
        requires
            data@.len() <= 0x01ff_ffff,
            bit_index <= 64 * data@.len(),
        ensures
            reader.wf(),
            reader.view() == stream_of_words(data@),
            reader.words() == data@,
            reader.position() == bit_index,
            reader.limit() == 64 * data@.len(),
    {
        let mut reader = Self { data, word_idx: bit_index / 32, buffer: 0, bits_in_buffer: 0 };
        proof {
            assert forall|j: nat| j < 64 implies #[trigger] bit_at(0nat, j) == (64 - 0 <= j
                && reader.view()[reader.position() + 63 - j]) by {
                lemma_bit_constants(j as u64);
            }
        }
        reader.read_bits((bit_index % 32) as u8);
        reader
    }

    /// Returns the position of the next bit that will be read.
    pub fn last_read_bit_position(&self) -> (position: u32)
        requires
            self.wf(),
        ensures
            position == self.position(),
    {
        self.word_idx * 32 - (self.bits_in_buffer as u32)
    }

    /// Returns the number of bits loaded from the stream so far plus the number of bits of the
    /// register that are not read yet.
    pub fn last_buffered_bit_position(&self) -> (position: u32)
        ensures
            position == self.buffered_end(),
            self.wf() ==> position == self.position() + 2 * self.buffered(),
    {
        self.word_idx.wrapping_mul(32).wrapping_add(self.bits_in_buffer as u32)
    }

    /// Reads `n_bits` bits and returns them as a number, the first bit read being the most
    /// significant.
    #[verifier::rlimit(40)]
    pub fn read_bits(&mut self, n_bits: u8) -> (value: u64)
        requires
            old(self).wf(),
            n_bits <= 64,
            old(self).position() + n_bits <= old(self).limit(),
        ensures
            final(self).wf(),
            final(self).view() == old(self).view(),
            final(self).words() == old(self).words(),
            final(self).limit() == old(self).limit(),
            final(self).position() == old(self).position() + n_bits,
            value as nat == value_of(
                old(self).view().subrange(
                    old(self).position() as int,
                    old(self).position() + n_bits,
                ),
            ),
    {
        let ghost s = self.view();
        let ghost pos = self.position() as int;
        let n = n_bits as u64;
        let b = self.bits_in_buffer as u64;
        let buffer = self.buffer;
        if n_bits <= self.bits_in_buffer {
            let result = (buffer >> (64 - n - 1)) >> 1;
            self.bits_in_buffer = self.bits_in_buffer - n_bits;
            self.buffer = buffer << n;
            proof {
                assert forall|j: nat| j < 64 implies #[trigger] bit_at(result as nat, j) == (j < n
                    && s[pos + n - 1 - j]) by {
                    lemma_bit_shr(buffer >> (63 - n) as u64, 1, j as u64);
                    if j + 1 < 64 {
                        lemma_bit_shr(buffer, (63 - n) as u64, (j + 1) as u64);
                    }
                }
                lemma_word_holds_value(result, s, pos, n as nat);
                assert forall|j: nat| j < 64 implies #[trigger] bit_at(self.buffer as nat, j) == (64
                    - self.bits_in_buffer <= j && s[self.position() + 63 - j]) by {
                    lemma_bit_shl(buffer, n, j as u64);
                }
            }
            return result;
        }

        let mut result: u64 = (buffer >> (64 - 1 - b)) >> 1;
        let mut remaining = n_bits - self.bits_in_buffer;
        proof {
            assert forall|j: nat| j < 64 implies #[trigger] bit_at(result as nat, j) == (j < b && s[pos
                + b - 1 - j]) by {
                lemma_bit_shr(buffer >> (63 - b) as u64, 1, j as u64);
                if j + 1 < 64 {
                    lemma_bit_shr(buffer, (63 - b) as u64, (j + 1) as u64);
                }
            }
        }
        let ghost consumed: nat = b as nat;

        if remaining > 32 {
            let new_word = self.next_half_word();
            let prev = result;
            result = (result << 32) | new_word;
            remaining = remaining - 32;
            proof {
                assert forall|j: nat| j < 64 implies #[trigger] bit_at(result as nat, j) == (j < b + 32
                    && s[pos + b + 32 - 1 - j]) by {
                    lemma_bit_logic(prev << 32, new_word, j as u64);
                    lemma_bit_shl(prev, 32, j as u64);
                }
            }
        }
        let ghost before_last: nat = (n - remaining) as nat;
        let new_word = self.next_half_word();
        self.bits_in_buffer = 32 - remaining;
        let keep = self.bits_in_buffer as u64;
        let r = remaining as u64;
        let final_bits = new_word >> keep;
        let prev = result;
        result = ((result << (r - 1)) << 1) | final_bits;
        self.buffer = (new_word << (64 - keep - 1)) << 1;
        proof {
            let start = pos + before_last;
            assert(32 * (self.word_idx - 1) == start);
            assert forall|j: nat| j < 64 implies #[trigger] bit_at(result as nat, j) == (j < n && s[pos
                + n - 1 - j]) by {
                lemma_bit_logic((prev << (r - 1) as u64) << 1, final_bits, j as u64);
                lemma_bit_shl(prev << (r - 1) as u64, 1, j as u64);
                if j >= 1 {
                    lemma_bit_shl(prev, (r - 1) as u64, (j - 1) as u64);
                }
                lemma_bit_shr(new_word, keep, j as u64);
            }
            lemma_word_holds_value(result, s, pos, n as nat);
            assert forall|j: nat| j < 64 implies #[trigger] bit_at(self.buffer as nat, j) == (64
                - self.bits_in_buffer <= j && s[self.position() + 63 - j]) by {
                lemma_bit_shl(new_word << (63 - keep) as u64, 1, j as u64);
                if j >= 1 {
                    lemma_bit_shl(new_word, (63 - keep) as u64, (j - 1) as u64);
                }
            }
        }
        result
    }

    /// Reads a unary code: counts the zero bits up to the next one bit, and moves past that one
    /// bit.
    pub fn read_unary(&mut self) -> (zeros: u8)
        requires
            old(self).wf(),
            exists|z: int| z <= 255 && is_zero_run(old(self).view(), old(self).position() as int, z),
        ensures
            final(self).wf(),
            final(self).view() == old(self).view(),
            final(self).words() == old(self).words(),
            final(self).limit() == old(self).limit(),
            is_zero_run(old(self).view(), old(self).position() as int, zeros as int),
            final(self).position() == old(self).position() + zeros + 1,
    {
        let ghost s = self.view();
        let ghost pos = self.position() as int;
        let ghost z = choose|z: int| z <= 255 && is_zero_run(s, pos, z);
        let buffer = self.buffer;
        let b = self.bits_in_buffer;
        let zeros = buffer.leading_zeros() as u8;
        proof {
            crate::bitstream::lemma_leading_zeros_bits(buffer);
            assert forall|i: int| 0 <= i < b && i < zeros implies !#[trigger] s[pos + i] by {
                lemma_bit_at_u64(buffer, (63 - i) as nat);
            }
        }

        if zeros < self.bits_in_buffer {
            self.buffer = (buffer << (zeros as u64)) << 1;
            self.bits_in_buffer = self.bits_in_buffer - (zeros + 1);
            proof {
                assert(s[pos + zeros]);
                assert forall|j: nat| j < 64 implies #[trigger] bit_at(self.buffer as nat, j) == (64
                    - self.bits_in_buffer <= j && s[self.position() + 63 - j]) by {
                    lemma_bit_shl(buffer << (zeros as u64), 1, j as u64);
                    if j >= 1 {
                        lemma_bit_shl(buffer, zeros as u64, (j - 1) as u64);
                    }
                }
            }
            return zeros;
        }

        let mut result: u8 = self.bits_in_buffer;
        loop
            invariant
                self.data == old(self).data,
                s == self.view(),
                s == old(self).view(),
                pos == old(self).position(),
                self.data@.len() <= 0x01ff_ffff,
                32 * self.word_idx == pos + result,
                z <= 255,
                is_zero_run(s, pos, z),
                result <= z,
                s.len() == 64 * self.data@.len(),
                forall|i: int| pos <= i < pos + result ==> !s[i],
            decreases z - result,
        {
            assert(32 * self.word_idx + 32 <= 64 * self.data@.len());
            let ghost k = self.word_idx as int;
            let new_word = self.next_half_word();
            proof {
                crate::bitstream::lemma_leading_zeros_bits(new_word);
                assert forall|j: nat| 32 <= j < 64 implies !#[trigger] bit_at(new_word as nat, j) by {}
                if new_word != 0 && u64_leading_zeros(new_word) < 32 {
                    assert(bit_at(new_word as nat, (63 - u64_leading_zeros(new_word)) as nat));
                }
            }
            if new_word != 0 {
                let zeros = (new_word.leading_zeros() - 32) as u8;
                proof {
                    assert(bit_at(new_word as nat, (31 - zeros) as nat));
                    assert(s[32 * k + zeros]);
                    assert forall|i: int| 0 <= i < zeros implies !#[trigger] s[32 * k + i] by {
                        lemma_bit_at_u64(new_word, (31 - i) as nat);
                    }
                    assert forall|i: int| pos <= i < pos + result + zeros implies !s[i] by {
                        if i >= 32 * k {
                            assert(!s[32 * k + (i - 32 * k)]);
                        }
                    }
                }
                self.buffer = (new_word << (32 + zeros as u64)) << 1;
                self.bits_in_buffer = 32 - zeros - 1;
                proof {
                    assert forall|j: nat| j < 64 implies #[trigger] bit_at(self.buffer as nat, j) == (64
                        - self.bits_in_buffer <= j && s[self.position() + 63 - j]) by {
                        lemma_bit_shl(new_word << (32 + zeros as u64), 1, j as u64);
                        if j >= 1 {
                            lemma_bit_shl(new_word, (32 + zeros) as u64, (j - 1) as u64);
                        }
                    }
                }
                return result + zeros;
            }
            proof {
                assert forall|i: int| pos <= i < pos + result + 32 implies !s[i] by {
                    if i >= 32 * k {
                        lemma_bit_constants((31 - (i - 32 * k)) as u64);
                    }
                }
                if z < result + 32 {
                    assert(!s[pos + z]);
                }
            }
            result = result + 32;
        }
    }

    /// Reads a Rice code with parameter `b`: a unary code giving the high part of the value,
    /// followed by its `b` low bits.
    pub fn read_rice(&mut self, b: u8) -> (value: u32)
        requires
            old(self).wf(),
            b < 32,
            exists|z: int|
                z <= 255 && is_zero_run(old(self).view(), old(self).position() as int, z)
                    && old(self).position() + z + 1 + b <= old(self).limit() && (z + 1) * pow2(
                    b as nat,
                ) <= pow2(32),
        ensures
            final(self).wf(),
            final(self).view() == old(self).view(),
            final(self).words() == old(self).words(),
            final(self).limit() == old(self).limit(),
            exists|z: int|
                is_zero_run(old(self).view(), old(self).position() as int, z)
                    && final(self).position() == old(self).position() + z + 1 + b
                    && value == z * pow2(b as nat) + value_of(
                    old(self).view().subrange(
                        old(self).position() + z + 1,
                        old(self).position() + z + 1 + b,
                    ),
                ),
    {
        let ghost s = self.view();
        let ghost pos = self.position() as int;
        let ghost z = choose|z: int|
            z <= 255 && is_zero_run(s, pos, z) && pos + z + 1 + b <= self.limit() && (z + 1)
                * pow2(b as nat) <= pow2(32);
        let q = self.read_unary();
        proof {
            crate::bitstream::lemma_zero_run_unique(s, pos, z, q as int);
        }
        let high = (q as u32) << (b as u32);
        let low = self.read_bits(b);
        proof {
            lemma_pow2_pos(b as nat);
            vstd::arithmetic::mul::lemma_mul_inequality(q as int, z + 1, pow2(b as nat) as int);
            vstd::arithmetic::power2::lemma2_to64();
            assert(pow2(32) == 0x1_0000_0000);
            assert(z * pow2(b as nat) + pow2(b as nat) == (z + 1) * pow2(b as nat)) by {
                vstd::arithmetic::mul::lemma_mul_is_distributive_add_other_way(
                    pow2(b as nat) as int,
                    z,
                    1,
                );
            }
            assert(q == z);
            assert(q * pow2(b as nat) <= 0xffff_ffff);
            vstd::bits::lemma_u32_shl_is_mul(q as u32, b as u32);
            crate::bitstream::lemma_value_of_bound(s.subrange(pos + z + 1, pos + z + 1 + b));
            assert(z * pow2(b as nat) + pow2(b as nat) == (z + 1) * pow2(b as nat)) by {
                vstd::arithmetic::mul::lemma_mul_is_distributive_add_other_way(
                    pow2(b as nat) as int,
                    z,
                    1,
                );
            }
        }
        high + (low as u32)
    }
}

} // verus!