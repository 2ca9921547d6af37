//! A writer of codes on a bit stream.
//!
//! The writer owns a buffer of 64-bit words; the stream is read most significant bit first,
//! word after word. Bits are first gathered in a 64-bit register and stored into the buffer one
//! whole word at a time; [`BitWriter::flush`] stores a partially filled register.
use crate::bitstream::{
    bit_at, bits_of, lemma_bit_constants, lemma_bit_logic, lemma_bit_shl, lemma_bit_shr,
    lemma_bits_of_zero, lemma_overwrite_compose, lemma_stream_of_words_update,
    lemma_unary_code_bits, lemma_value_of_bits_of, lemma_zero_run_unique, is_zero_run, overwrite,
    stream_of_words, unary_code, value_of, zeros,
};
use vstd::arithmetic::power2::pow2;
use vstd::prelude::*;

verus! {

/// A writer of codes on a bit stream.
pub struct BitWriter {
    data: Vec<u64>,
    word_idx: usize,
    buffer: u64,
    space_left_in_buffer: u8,
}

/// The Rice code of `value` with parameter `b`: the unary code of `value >> b` followed by the
/// `b` low bits of `value`.
pub open spec fn rice_code(value: nat, b: nat) -> Seq<bool> {
    unary_code(value / pow2(b)) + bits_of(value, b)
}

impl BitWriter {
    /// The writer's invariant.
    pub closed spec fn wf(self) -> bool {
        &&& 0 < self.data.len() <= 0x01ff_ffff
        &&& 1 <= self.space_left_in_buffer <= 64
        &&& self.word_idx <= self.data.len()
        &&& self.word_idx == self.data.len() ==> self.space_left_in_buffer == 64
    }

    /// Number of bits in the register that are not stored in the buffer yet.
    closed spec fn pending(self) -> nat {
        (64 - self.space_left_in_buffer) as nat
    }

    /// The bit stream as written so far: the buffer, with the pending bits of the register laid
    /// over it.
    pub closed spec fn view(self) -> Seq<bool> {
        let s = stream_of_words(self.data@);
        let w = 64 * self.word_idx;
        s.subrange(0, w as int) + bits_of(self.buffer as nat, self.pending()) + s.subrange(
            w + self.pending(),
            s.len() as int,
        )
    }

    /// The position, in bits, of the next bit that will be written.
    pub closed spec fn position(self) -> nat {
        (64 * self.word_idx + self.pending()) as nat
    }

    /// The number of bits of the buffer.
    pub closed spec fn capacity(self) -> nat {
        (64 * self.data.len()) as nat
    }

    /// Whether the buffer already holds every bit written so far.
    pub closed spec fn is_flushed(self) -> bool {
        stream_of_words(self.data@) == self.view()
    }

    /// The stream has one bit per bit of the buffer.
    pub proof fn lemma_view_len(self)
        requires
            self.wf(),
        ensures
            self.view().len() == self.capacity(),
            self.position() <= self.capacity(),
    {
    }

    proof fn lemma_view_index(self, p: int)
        requires
            self.wf(),
            0 <= p < self.capacity(),
        ensures
            self.view().len() == self.capacity(),
            self.view()[p] == if 64 * self.word_idx <= p < self.position() {
                bit_at(self.buffer as nat, (self.position() - 1 - p) as nat)
            } else {
                stream_of_words(self.data@)[p]
            },
    {
    }

    /// Creates a writer positioned at the beginning of the provided buffer.
    pub fn new(data: Vec<u64>) -> (writer: Self)
        requires
            0 < data.len() <= 0x01ff_ffff,
        ensures
            writer.wf(),
            writer.view() == stream_of_words(data@),
            writer.position() == 0,
            writer.capacity() == 64 * data.len(),
    {
        let writer = Self { data, word_idx: 0, buffer: 0, space_left_in_buffer: 64 };
        assert(writer.view() =~= stream_of_words(writer.data@));
        writer
    }

    /// Stores the pending bits of the register into the buffer.
    pub fn flush(&mut self)
        requires
            old(self).wf(),
        ensures
            final(self).wf(),
            final(self).view() == old(self).view(),
            final(self).position() == old(self).position(),
            final(self).capacity() == old(self).capacity(),
            final(self).is_flushed(),
    {
        let to_flush = 64 - self.space_left_in_buffer;
        if to_flush != 0 {
            let space = self.space_left_in_buffer;
            let buffer = self.buffer << (space as u64);
            let old_word = self.data[self.word_idx];
            let clean_old_word = (old_word << (to_flush as u64)) >> (to_flush as u64);
            let new_word = clean_old_word | buffer;
            proof {
                let pre = self.view();
                let w = self.word_idx as int;
                let k = to_flush as int;
                lemma_stream_of_words_update(self.data@, w, new_word);
                let post = stream_of_words(self.data@.update(w, new_word));
                assert forall|p: int| 0 <= p < self.capacity() implies post[p] == pre[p] by {
                    self.lemma_view_index(p);
                    if 64 * w <= p < 64 * w + 64 {
                        let t = (p - 64 * w) as u64;
                        let j = (63 - t) as u64;
                        let tf = to_flush as u64;
                        let sp = space as u64;
                        lemma_bit_logic((old_word << tf) >> tf, self.buffer << sp, j);
                        lemma_bit_shr(old_word << tf, tf, j);
                        if j + tf < 64 {
                            lemma_bit_shl(old_word, tf, (j + tf) as u64);
                        }
                        lemma_bit_shl(self.buffer, sp, j);
                    }
                }
                assert(post =~= pre);
            }
            self.data.set(self.word_idx, new_word);
            proof {
                assert(self.view() =~= stream_of_words(self.data@));
            }
        } else {
            proof {
                assert(self.view() =~= stream_of_words(self.data@));
            }
        }
    }

    /// Moves the writer to the given bit position, after storing the pending bits.
    pub fn seek(&mut self, bits_idx: u32)
        requires
            old(self).wf(),
            bits_idx < old(self).capacity(),
        ensures
            final(self).wf(),
            final(self).view() == old(self).view(),
            final(self).position() == bits_idx,
            final(self).capacity() == old(self).capacity(),
    {
        self.flush();
        let ghost flushed = self.view();
        self.word_idx = (bits_idx / 64) as usize;
        let idx_in_word = bits_idx % 64;
        self.space_left_in_buffer = (64 - idx_in_word) as u8;
        let word = self.data[self.word_idx];
        if idx_in_word == 0 {
            self.buffer = 0;
        } else {
            self.buffer = word >> ((64 - idx_in_word) as u64);
        }
        proof {
            let s = stream_of_words(self.data@);
            let w = self.word_idx as int;
            assert forall|p: int| 0 <= p < self.capacity() implies self.view()[p] == flushed[p] by {
                self.lemma_view_index(p);
                if 64 * w <= p < self.position() {
                    let t = (p - 64 * w) as u64;
                    let i = idx_in_word as u64;
                    lemma_bit_shr(word, (64 - i) as u64, (i - 1 - t) as u64);
                }
            }
            assert(self.view() =~= flushed);
        }
    }

    /// Returns the position, in bits, of the next bit that will be written.
    pub fn tell(&self) -> (position: u32)
        requires
            self.wf(),
        ensures
            position == self.position(),
    {
        assert(((self.word_idx as u32) + 1) * 64 <= 0x0800_0000 * 64);
        ((self.word_idx as u32) + 1) * 64 - (self.space_left_in_buffer as u32)
    }

    /// Writes the `n_bits` lowest bits of `value`, most significant first.
    pub fn write_bits(&mut self, value: u64, n_bits: u8) -> (written: u8)
        requires
            old(self).wf(),
            n_bits <= 64,
            old(self).position() + n_bits <= old(self).capacity(),
        ensures
            final(self).wf(),
            written == n_bits,
            final(self).position() == old(self).position() + n_bits,
            final(self).capacity() == old(self).capacity(),
            final(self).view() == overwrite(
                old(self).view(),
                old(self).position() as int,
                bits_of(value as nat, n_bits as nat),
            ),
    {
        let ghost pre = self.view();
        let ghost pos = self.position() as int;
        let ghost expected = overwrite(pre, pos, bits_of(value as nat, n_bits as nat));
        if n_bits == 0 {
            assert(expected =~= pre);
            return 0;
        }
        let n = n_bits as u64;
        if n_bits < self.space_left_in_buffer {
            let old_buffer = self.buffer;
            let ghost k = 64 - self.space_left_in_buffer;
            self.buffer = (self.buffer << n) | (value & !(u64::MAX << n));
            self.space_left_in_buffer = self.space_left_in_buffer - n_bits;
            proof {
                let new_buffer = self.buffer;
                assert forall|p: int| 0 <= p < self.capacity() implies self.view()[p]
                    == expected[p] by {
                    self.lemma_view_index(p);
                    let w = 64 * self.word_idx;
                    if w <= p < self.position() {
                        let j = (self.position() - 1 - p) as u64;
                        let mask = !(0xffff_ffff_ffff_ffffu64 << n);
                        lemma_bit_logic(old_buffer << n, value & mask, j);
                        lemma_bit_logic(value, mask, j);
                        lemma_bit_logic(0xffff_ffff_ffff_ffffu64 << n, 0, j);
                        lemma_bit_shl(old_buffer, n, j);
                        lemma_bit_shl(0xffff_ffff_ffff_ffffu64, n, j);
                        lemma_bit_constants(j);
                        if j >= n {
                            lemma_bit_constants((j - n) as u64);
                        }
                    }
                }
                assert(self.view() =~= expected);
            }
            return n_bits;
        }
        let old_buffer = self.buffer;
        let space = self.space_left_in_buffer as u64;
        let word = ((self.buffer << (space - 1)) << 1) | ((value << (64 - n)) >> (64 - space));
        proof {
            lemma_stream_of_words_update(self.data@, self.word_idx as int, word);
        }
        self.data.set(self.word_idx, word);
        self.word_idx = self.word_idx + 1;
        self.space_left_in_buffer = self.space_left_in_buffer + (64 - n_bits);
        self.buffer = value;
        proof {
            let w = 64 * (self.word_idx - 1);
            let k = 64 - space;
            assert forall|p: int| 0 <= p < self.capacity() implies self.view()[p]
                == expected[p] by {
                self.lemma_view_index(p);
                if w <= p < w + 64 {
                    let t = (p - w) as u64;
                    let j = (63 - t) as u64;
                    let hi = (old_buffer << (space - 1)) << 1;
                    let lo = (value << (64 - n)) >> (64 - space);
                    lemma_bit_logic(hi, lo, j);
                    lemma_bit_shl(old_buffer << (space - 1), 1, j);
                    if j >= 1 {
                        lemma_bit_shl(old_buffer, (space - 1) as u64, (j - 1) as u64);
                    }
                    lemma_bit_shr(value << (64 - n), (64 - space) as u64, j);
                    if j + 64 - space < 64 {
                        lemma_bit_shl(value, (64 - n) as u64, (j + 64 - space) as u64);
                    }
                }
            }
            assert(self.view() =~= expected);
        }
        n_bits
    }

    /// Writes `value` in unary: `value` zeros followed by a one. Returns the length of the code.
    pub fn write_unary(&mut self, value: u64) -> (written: u8)
        requires
            old(self).wf(),
            value <= 254,
            old(self).position() + value + 1 <= old(self).capacity(),
        ensures
            final(self).wf(),
            written == value + 1,
            final(self).position() == old(self).position() + value + 1,
            final(self).capacity() == old(self).capacity(),
            final(self).view() == overwrite(
                old(self).view(),
                old(self).position() as int,
                unary_code(value as nat),
            ),
    {
        let ghost pre = self.view();
        let ghost pos = self.position() as int;
        let mut value = value;
        let code_length = (value + 1) as u8;
        proof {
            lemma_unary_code_bits(value as nat);
        }

        if code_length <= self.space_left_in_buffer {
            // The code fits in the register: `value` zeros and a one.
            self.write_bits(1, code_length);
            return code_length;
        }

        // The code spans the end of the current word: complete it with zeros, write whole
        // words of zeros, and finish with the remaining zeros and the one.
        let space = self.space_left_in_buffer;
        let ghost orig_value = value;
        self.write_bits(0, space);
        proof {
            lemma_bits_of_zero(space as nat);
            assert(64 * 0 == 0);
        }
        value = value - (space as u64);
        let zero_words = value / 64;
        assert(64 * zero_words <= value);
        let mut i: u64 = 0;
        while i < zero_words
            invariant
                0 <= i <= zero_words,
                zero_words == value / 64,
                64 * zero_words <= value,
                value + space == orig_value,
                orig_value <= 254,
                self.wf(),
                self.capacity() == old(self).capacity(),
                pos + orig_value + 1 <= self.capacity(),
                self.position() == pos + space + 64 * i,
                pre.len() == self.capacity(),
                self.view() == overwrite(pre, pos, zeros((space + 64 * i) as nat)),
            decreases zero_words - i,
        {
            let ghost before = self.view();
            self.write_bits(0, 64);
            proof {
                lemma_bits_of_zero(64);
                lemma_overwrite_compose(pre, pos, zeros((space + 64 * i) as nat), zeros(64));
                assert(zeros((space + 64 * i) as nat) + zeros(64) =~= zeros(
                    (space + 64 * (i + 1)) as nat,
                ));
            }
            i = i + 1;
        }
        value = value % 64;
        let ghost middle = zeros((space + 64 * zero_words) as nat);
        self.write_bits(1, (value + 1) as u8);
        proof {
            lemma_unary_code_bits(value as nat);
            lemma_overwrite_compose(pre, pos, middle, unary_code(value as nat));
            assert(middle + unary_code(value as nat) =~= unary_code(orig_value as nat));
        }
        code_length
    }

    /// Writes a gap: the Rice code of `uniform_delta` with parameter `b1`, followed by the unary
    /// code of `geometric_minus_one`. Returns the number of bits written.
    pub fn write_rice(&mut self, uniform_delta: u32, geometric_minus_one: u8, b1: u8) -> (written:
        usize)
        requires
            old(self).wf(),
            b1 < 32,
            uniform_delta as nat / pow2(b1 as nat) <= 254,
            geometric_minus_one <= 254,
            old(self).position() + rice_code(uniform_delta as nat, b1 as nat).len()
                + geometric_minus_one + 1 <= old(self).capacity(),
        ensures
            final(self).wf(),
            written == rice_code(uniform_delta as nat, b1 as nat).len() + geometric_minus_one + 1,
            final(self).position() == old(self).position() + written,
            final(self).capacity() == old(self).capacity(),
            final(self).view() == overwrite(
                old(self).view(),
                old(self).position() as int,
                rice_code(uniform_delta as nat, b1 as nat) + unary_code(geometric_minus_one as nat),
            ),
    {
        let ghost pre = self.view();
        let ghost pos = self.position() as int;
        let quotient = uniform_delta >> b1;
        proof {
            vstd::bits::lemma_u32_shr_is_div(uniform_delta, b1 as u32);
        }
        let ghost q = unary_code(quotient as nat);
        let ghost r = bits_of(uniform_delta as nat, b1 as nat);
        let ghost g = unary_code(geometric_minus_one as nat);
        let first = self.write_unary(quotient as u64);
        let second = self.write_bits(uniform_delta as u64, b1);
        proof {
            lemma_overwrite_compose(pre, pos, q, r);
        }
        let third = self.write_unary(geometric_minus_one as u64);
        proof {
            lemma_overwrite_compose(pre, pos, q + r, g);
        }
        (first as usize) + (second as usize) + (third as usize)
    }

    /// Stores the pending bits and returns the buffer.
    pub fn into_words(self) -> (words: Vec<u64>)
        requires
            self.wf(),
        ensures
            stream_of_words(words@) == self.view(),
            words@.len() * 64 == self.capacity(),
    {
        let mut writer = self;
        writer.flush();
        writer.data
    }
}

/// Bits read back where they were written give the written value, cut to as many bits.
pub proof fn lemma_bits_read_back(s: Seq<bool>, pos: int, value: nat, n: nat)
    requires
        0 <= pos,
        pos + n <= s.len(),
    ensures
        value_of(overwrite(s, pos, bits_of(value, n)).subrange(pos, pos + n)) == value % pow2(n),
{
    assert(overwrite(s, pos, bits_of(value, n)).subrange(pos, pos + n) =~= bits_of(value, n));
    lemma_value_of_bits_of(value, n);
}

/// A unary code read back where it was written gives the written value: the zeros before the
/// first one bit.
pub proof fn lemma_unary_read_back(s: Seq<bool>, pos: int, value: nat)
    requires
        0 <= pos,
        pos + value + 1 <= s.len(),
    ensures
        forall|z: int|
            is_zero_run(overwrite(s, pos, unary_code(value)), pos, z) <==> z == value,
{
    let t = overwrite(s, pos, unary_code(value));
    assert(t.subrange(pos, pos + value + 1) =~= unary_code(value));
    assert(is_zero_run(t, pos, value as int)) by {
        assert(t[pos + value] == unary_code(value)[value as int]);
        assert forall|j: int| pos <= j < pos + value implies !t[j] by {
            assert(t[j] == unary_code(value)[j - pos]);
        }
    }
    assert forall|z: int| is_zero_run(t, pos, z) implies z == value by {
        lemma_zero_run_unique(t, pos, z, value as int);
    }
}

/// A Rice code read back where it was written gives the written value: whatever run of zeros
/// is read, its length times `2^b` plus the `b` bits after its one bit is the value.
pub proof fn lemma_rice_read_back(s: Seq<bool>, pos: int, value: nat, b: nat)
    requires
        0 <= pos,
        pos + rice_code(value, b).len() <= s.len(),
    ensures
        forall|z: int|
            #![trigger is_zero_run(overwrite(s, pos, rice_code(value, b)), pos, z)]
            is_zero_run(overwrite(s, pos, rice_code(value, b)), pos, z) ==> z * pow2(b)
                + value_of(
                overwrite(s, pos, rice_code(value, b)).subrange(pos + z + 1, pos + z + 1 + b),
            ) == value,
{
    let q = value / pow2(b);
    let t = overwrite(s, pos, rice_code(value, b));
    vstd::arithmetic::power2::lemma_pow2_pos(b);
    assert(t =~= overwrite(overwrite(s, pos, unary_code(q)), pos + q + 1, bits_of(value, b))) by {
        lemma_overwrite_compose(s, pos, unary_code(q), bits_of(value, b));
    }
    assert(t.subrange(pos, pos + q + 1) =~= unary_code(q));
    assert(t.subrange(pos + q + 1, pos + q + 1 + b) =~= bits_of(value, b));
    lemma_value_of_bits_of(value, b);
    assert(is_zero_run(t, pos, q as int)) by {
        assert(t[pos + q] == unary_code(q)[q as int]);
        assert forall|j: int| pos <= j < pos + q implies !t[j] by {
            assert(t[j] == unary_code(q)[j - pos]);
        }
    }
    assert forall|z: int| #![trigger is_zero_run(t, pos, z)] is_zero_run(t, pos, z) implies z
        * pow2(b) + value_of(t.subrange(pos + z + 1, pos + z + 1 + b)) == value by {
        lemma_zero_run_unique(t, pos, z, q as int);
        vstd::arithmetic::div_mod::lemma_fundamental_div_mod(value as int, pow2(b) as int);
        vstd::arithmetic::mul::lemma_mul_is_commutative(q as int, pow2(b) as int);
    }
}

/// The unary codes of `values`, one after the other.
pub open spec fn unary_codes(values: Seq<nat>) -> Seq<bool>
    decreases values.len(),
{
    if values.len() == 0 {
        Seq::empty()
    } else {
        unary_codes(values.drop_last()) + unary_code(values.last())
    }
}

/// The unary codes of the first `i` values start the unary codes of all of them.
proof fn lemma_unary_codes_prefix(values: Seq<nat>, i: int)
    requires
        0 <= i <= values.len(),
    ensures
        unary_codes(values.take(i)).len() <= unary_codes(values).len(),
        unary_codes(values).subrange(0, unary_codes(values.take(i)).len() as int) == unary_codes(
            values.take(i),
        ),
    decreases values.len() - i,
{
    let all = unary_codes(values);
    if i == values.len() {
        assert(values.take(i) =~= values);
        assert(all.subrange(0, all.len() as int) =~= all);
    } else {
        lemma_unary_codes_prefix(values, i + 1);
        let a = unary_codes(values.take(i));
        let c = unary_codes(values.take(i + 1));
        assert(values.take(i + 1).drop_last() =~= values.take(i));
        assert(c == a + unary_code(values[i]));
        assert(all.subrange(0, a.len() as int) =~= c.subrange(0, a.len() as int));
        assert(c.subrange(0, a.len() as int) =~= a);
    }
}

/// Unary codes written one after the other read back in turn: after the codes of the first
/// `j` values, the stream holds a run of exactly `values[j]` zeros, and the code of value `j`
/// ends `values[j] + 1` bits further, so that the reading position is the running sum of the
/// code lengths.
pub proof fn lemma_unary_codes_read_back(values: Seq<nat>, s: Seq<bool>, j: int)
    requires
        0 <= j < values.len(),
        unary_codes(values).len() <= s.len(),
        s.subrange(0, unary_codes(values).len() as int) == unary_codes(values),
    ensures
        unary_codes(values.take(j + 1)).len() == unary_codes(values.take(j)).len() + values[j] + 1,
        forall|z: int|
            is_zero_run(s, unary_codes(values.take(j)).len() as int, z) <==> z == values[j],
{
    let pos = unary_codes(values.take(j)).len() as int;
    let v = values[j];
    assert(values.take(j + 1).drop_last() =~= values.take(j));
    lemma_unary_codes_prefix(values, j + 1);
    let c = unary_codes(values.take(j + 1));
    assert(c == unary_codes(values.take(j)) + unary_code(v));
    assert forall|q: int| 0 <= q <= v implies s[pos + q] == unary_code(v)[q] by {
        assert(s.subrange(0, unary_codes(values).len() as int)[pos + q] == s[pos + q]);
        assert(unary_codes(values).subrange(0, c.len() as int)[pos + q] == c[pos + q]);
    }
    assert(is_zero_run(s, pos, v as int)) by {
        assert(s[pos + v] == unary_code(v)[v as int]);
        assert forall|i: int| pos <= i < pos + v implies !s[i] by {
            assert(s[i] == unary_code(v)[i - pos]);
        }
    }
    assert forall|z: int| is_zero_run(s, pos, z) implies z == v by {
        lemma_zero_run_unique(s, pos, z, v as int);
    }
}

} // verus!
