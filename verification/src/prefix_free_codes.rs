//! Codes for the values written to and read from a bit stream: the Rice code with a given
//! parameter, and the plain code of a given width.
use crate::bitreader::BitReader;
use crate::bitstream::{bits_of, is_zero_run, overwrite, unary_code, value_of};
use crate::bitwriter::{rice_code, BitWriter};
use vstd::arithmetic::power2::{lemma2_to64, lemma_pow2_pos, pow2};
use vstd::prelude::*;

verus! {

/// The stream `s` holds `code` from position `pos` on.
pub open spec fn holds_code(s: Seq<bool>, pos: int, code: Seq<bool>) -> bool {
    &&& 0 <= pos
    &&& pos + code.len() <= s.len()
    &&& s.subrange(pos, pos + code.len()) == code
}

/// A code: the bits that stand for each value it can code.
pub trait CodeSize {
    /// The bits that stand for `value`.
    spec fn code(value: u64) -> Seq<bool>;

    /// Whether the code can stand for `value`.
    spec fn codable(value: u64) -> bool;

    /// The number of bits of the code of `value`.
    fn size(value: u64) -> (size: usize)
        requires
            Self::codable(value),
        ensures
            size == Self::code(value).len(),
    ;
}

/// A code that can be read back from a bit stream.
pub trait CodeRead: CodeSize {
    /// Reads a value from the stream: the value whose code the stream holds at the position of
    /// the reader.
    fn read(reader: &mut BitReader) -> (value: u64)
        requires
            old(reader).wf(),
            old(reader).limit() == old(reader).view().len(),
            exists|v: u64|
                Self::codable(v) && #[trigger] holds_code(
                    old(reader).view(),
                    old(reader).position() as int,
                    Self::code(v),
                ),
        ensures
            final(reader).wf(),
            final(reader).view() == old(reader).view(),
            final(reader).words() == old(reader).words(),
            final(reader).limit() == old(reader).limit(),
            Self::codable(value),
            holds_code(old(reader).view(), old(reader).position() as int, Self::code(value)),
            final(reader).position() == old(reader).position() + Self::code(value).len(),
    ;
}

/// A code that can be written to a bit stream.
pub trait CodeWrite: CodeSize {
    /// Writes the code of `value` at the position of the writer; returns its number of bits.
    fn write(writer: &mut BitWriter, value: u64) -> (written: usize)
        requires
            old(writer).wf(),
            Self::codable(value),
            old(writer).position() + Self::code(value).len() <= old(writer).capacity(),
        ensures
            final(writer).wf(),
            written == Self::code(value).len(),
            final(writer).position() == old(writer).position() + written,
            final(writer).capacity() == old(writer).capacity(),
            final(writer).view() == overwrite(
                old(writer).view(),
                old(writer).position() as int,
                Self::code(value),
            ),
    ;
}

/// The Rice code with parameter `B`: the unary code of `value >> B`, then the `B` low bits of
/// the value.
#[derive(Debug, Default)]
pub struct Rice<const B: usize>;

/// The plain code of `HS` bits: the `HS` low bits of the value.
#[derive(Debug, Default)]
pub struct NoPrefixCode<const HS: u8>;

impl<const B: usize> CodeSize for Rice<B> {
    open spec fn code(value: u64) -> Seq<bool> {
        rice_code(value as nat, B as nat)
    }

    open spec fn codable(value: u64) -> bool {
        &&& B < 32
        &&& value < 0x1_0000_0000
        &&& value as nat / pow2(B as nat) <= 254
    }

    fn size(value: u64) -> (size: usize) {
        proof {
            vstd::bits::lemma_u64_shr_is_div(value, B as u64);
        }
        ((value >> (B as u64)) + 1 + (B as u64)) as usize
    }
}

impl<const B: usize> CodeWrite for Rice<B> {
    fn write(writer: &mut BitWriter, value: u64) -> (written: usize) {
        proof {
            vstd::bits::lemma_u64_shr_is_div(value, B as u64);
            writer.lemma_view_len();
        }
        let high = writer.write_unary(value >> (B as u64));
        let low = writer.write_bits(value, B as u8);
        proof {
            crate::bitstream::lemma_overwrite_compose(
                old(writer).view(),
                old(writer).position() as int,
                unary_code(value as nat / pow2(B as nat)),
                bits_of(value as nat, B as nat),
            );
        }
        (high as usize) + (low as usize)
    }
}

impl<const B: usize> CodeRead for Rice<B> {
    fn read(reader: &mut BitReader) -> (value: u64) {
        let ghost s = reader.view();
        let ghost pos = reader.position() as int;
        let ghost v = choose|v: u64| Self::codable(v) && #[trigger] holds_code(s, pos, Self::code(v));
        let ghost q = v as nat / pow2(B as nat);
        proof {
            lemma2_to64();
            lemma_pow2_pos(B as nat);
            assert(is_zero_run(s, pos, q as int)) by {
                assert(s[pos + q] == rice_code(v as nat, B as nat)[q as int]);
                assert forall|j: int| pos <= j < pos + q implies !s[j] by {
                    assert(s[j] == rice_code(v as nat, B as nat)[j - pos]);
                }
            }
            vstd::arithmetic::div_mod::lemma_fundamental_div_mod(v as int, pow2(B as nat) as int);
            assert(q * pow2(B as nat) <= v);
            assert((q + 1) * pow2(B as nat) <= pow2(32)) by {
                vstd::arithmetic::power2::lemma_pow2_adds((32 - B) as nat, B as nat);
                let pb = pow2(B as nat);
                let pr = pow2((32 - B) as nat);
                assert(q * pb < pr * pb);
                vstd::arithmetic::mul::lemma_mul_strict_inequality_converse(q as int, pr as int, pb as int);
                vstd::arithmetic::mul::lemma_mul_inequality((q + 1) as int, pr as int, pb as int);
            }
        }
        let value = reader.read_rice(B as u8);
        proof {
            let z = choose|z: int|
                is_zero_run(s, pos, z) && reader.position() == pos + z + 1 + B && value == z
                    * pow2(B as nat) + value_of(s.subrange(pos + z + 1, pos + z + 1 + B));
            crate::bitstream::lemma_zero_run_unique(s, pos, z, q as int);
            assert(s.subrange(pos + z + 1, pos + z + 1 + B) =~= bits_of(v as nat, B as nat)) by {
                assert forall|j: int| 0 <= j < B implies #[trigger] s.subrange(
                    pos + z + 1,
                    pos + z + 1 + B,
                )[j] == bits_of(v as nat, B as nat)[j] by {
                    assert(s[pos + z + 1 + j] == rice_code(v as nat, B as nat)[z + 1 + j]);
                }
            }
            crate::bitstream::lemma_value_of_bits_of(v as nat, B as nat);
        }
        value as u64
    }
}

impl<const HS: u8> CodeSize for NoPrefixCode<HS> {
    open spec fn code(value: u64) -> Seq<bool> {
        bits_of(value as nat, HS as nat)
    }

    open spec fn codable(value: u64) -> bool {
        &&& HS <= 64
        &&& value < 0x1_0000_0000
        &&& (value as nat) < pow2(HS as nat)
    }

    fn size(value: u64) -> (size: usize) {
        HS as usize
    }
}

impl<const HS: u8> CodeWrite for NoPrefixCode<HS> {
    fn write(writer: &mut BitWriter, value: u64) -> (written: usize) {
        writer.write_bits(value, HS) as usize
    }
}

impl<const HS: u8> CodeRead for NoPrefixCode<HS> {
    fn read(reader: &mut BitReader) -> (value: u64) {
        let ghost s = reader.view();
        let ghost pos = reader.position() as int;
        let ghost v = choose|v: u64| Self::codable(v) && #[trigger] holds_code(s, pos, Self::code(v));
        let value = reader.read_bits(HS);
        proof {
            assert(s.subrange(pos, pos + HS) == bits_of(v as nat, HS as nat));
            crate::bitstream::lemma_value_of_bits_of(v as nat, HS as nat);
            vstd::arithmetic::div_mod::lemma_small_mod(v as nat, pow2(HS as nat));
        }
        value
    }
}

} // verus!
