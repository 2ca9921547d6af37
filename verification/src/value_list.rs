//! Exact-values list: a sorted, delta-coded list of literal `u64` values stored in a word buffer.
//!
//! The largest value is stored first, as is, and every following value as the (non-negative) gap
//! to its predecessor. Each number is written as the unary code of its number of significant
//! bits, followed by those bits. Each insertion decodes the list, splices the new value in sorted
//! order and re-encodes it.
use crate::bitreader::BitReader;
use crate::bitstream::{
    bit_at, bits_of, is_zero_run, lemma_bits_bound, lemma_leading_zeros_bits, lemma_overwrite_compose,
    lemma_value_of_bits_of, lemma_zero_run_unique, overwrite, stream_of_words, unary_code, value_of,
};
use crate::bitwriter::BitWriter;
use vstd::arithmetic::power2::{lemma2_to64, lemma_pow2_pos, pow2};
use vstd::prelude::*;
use vstd::std_specs::bits::u64_leading_zeros;

verus! {

/// Number of significant bits of `x` (zero for zero).
pub open spec fn significant_bits(x: u64) -> nat {
    (64 - u64_leading_zeros(x)) as nat
}

/// The code of one number: the unary code of its number of significant bits, followed by those
/// bits.
pub open spec fn value_code(x: u64) -> Seq<bool> {
    unary_code(significant_bits(x)) + bits_of(x as nat, significant_bits(x))
}

/// The code of a list of numbers sorted in decreasing order: the first number, then the gap from
/// each number to the next one.
pub open spec fn desc_code(d: Seq<u64>) -> Seq<bool>
    decreases d.len(),
{
    if d.len() == 0 {
        Seq::empty()
    } else if d.len() == 1 {
        value_code(d[0])
    } else {
        desc_code(d.drop_last()) + value_code((d[d.len() - 2] - d[d.len() - 1]) as u64)
    }
}

/// Whether a sequence is sorted in non-decreasing order.
pub open spec fn sorted_asc(s: Seq<u64>) -> bool {
    forall|i: int, j: int| 0 <= i < j < s.len() ==> s[i] <= s[j]
}

/// Whether a sequence is sorted in increasing order, without repetitions.
pub open spec fn strictly_sorted(s: Seq<u64>) -> bool {
    forall|i: int, j: int| 0 <= i < j < s.len() ==> s[i] < s[j]
}

/// The code of a list of numbers sorted in non-decreasing order: it is stored from the largest
/// number down.
pub open spec fn values_code(values_asc: Seq<u64>) -> Seq<bool> {
    desc_code(values_asc.reverse())
}

/// The stream `s` starts with the code of the sorted list `values`.
pub open spec fn encodes_values(s: Seq<bool>, values: Seq<u64>) -> bool {
    &&& sorted_asc(values)
    &&& values_code(values).len() <= s.len()
    &&& s.subrange(0, values_code(values).len() as int) == values_code(values)
}

/// The stream `s` holds the code of `x` at position `pos`.
pub open spec fn code_at(s: Seq<bool>, pos: int, x: u64) -> bool {
    &&& 0 <= pos
    &&& pos + value_code(x).len() <= s.len()
    &&& s.subrange(pos, pos + value_code(x).len()) == value_code(x)
}

/// Result of inserting a value into the exact list.
#[derive(Debug, Clone, Copy, PartialEq, Eq)]
pub enum ValueInsertion {
    /// The value was inserted; the new count is `count + 1`.
    Inserted,
    /// The value was already present; the list is unchanged.
    Duplicate,
    /// The value does not fit in the current buffer; the caller must grow or transition.
    DoesNotFit,
}

proof fn lemma_significant_bits(x: u64)
    ensures
        significant_bits(x) <= 64,
        (x as nat) < pow2(significant_bits(x)),
        value_code(x).len() == 2 * significant_bits(x) + 1,
{
    lemma_leading_zeros_bits(x);
    lemma_bits_bound(x, significant_bits(x));
}

/// A code is recognised at a position: it determines the number.
proof fn lemma_code_at_unique(s: Seq<bool>, pos: int, a: u64, b: u64)
    requires
        code_at(s, pos, a),
        code_at(s, pos, b),
    ensures
        a == b,
{
    lemma_significant_bits(a);
    lemma_significant_bits(b);
    let na = significant_bits(a) as int;
    let nb = significant_bits(b) as int;
    assert(is_zero_run(s, pos, na)) by {
        assert(s[pos + na] == value_code(a)[na]);
        assert forall|j: int| pos <= j < pos + na implies !s[j] by {
            assert(s[j] == value_code(a)[j - pos]);
        }
    }
    assert(is_zero_run(s, pos, nb)) by {
        assert(s[pos + nb] == value_code(b)[nb]);
        assert forall|j: int| pos <= j < pos + nb implies !s[j] by {
            assert(s[j] == value_code(b)[j - pos]);
        }
    }
    lemma_zero_run_unique(s, pos, na, nb);
    assert(bits_of(a as nat, na as nat) =~= bits_of(b as nat, nb as nat)) by {
        assert forall|i: int| 0 <= i < na implies #[trigger] bits_of(a as nat, na as nat)[i]
            == bits_of(b as nat, nb as nat)[i] by {
            assert(s[pos + na + 1 + i] == value_code(a)[na + 1 + i]);
            assert(s[pos + nb + 1 + i] == value_code(b)[nb + 1 + i]);
        }
    }
    lemma_value_of_bits_of(a as nat, na as nat);
    lemma_value_of_bits_of(b as nat, nb as nat);
    vstd::arithmetic::div_mod::lemma_small_mod(a as nat, pow2(na as nat));
    vstd::arithmetic::div_mod::lemma_small_mod(b as nat, pow2(nb as nat));
}

/// Returns the number of bits one value occupies: a unary length prefix (`nbits + 1` bits)
/// followed by the value's `nbits` significant bits.
pub fn value_bit_len(value: u64) -> (length: u32)
    ensures
        length == value_code(value).len(),
{
    proof {
        lemma_significant_bits(value);
    }
    let nbits = 64 - value.leading_zeros();
    2 * nbits + 1
}

/// Coding one more number of a decreasing list appends the code of its gap.
proof fn lemma_desc_code_step(d: Seq<u64>, k: int)
    requires
        1 <= k < d.len(),
    ensures
        desc_code(d.take(k + 1)) == desc_code(d.take(k)) + value_code((d[k - 1] - d[k]) as u64),
{
    assert(d.take(k + 1).drop_last() =~= d.take(k));
}

/// The code of the first number of a list.
proof fn lemma_desc_code_first(d: Seq<u64>)
    requires
        1 <= d.len(),
    ensures
        desc_code(d.take(1)) == value_code(d[0]),
{
}

/// The code of the first `k` numbers of a list is a prefix of the code of the list.
proof fn lemma_desc_code_prefix(d: Seq<u64>, k: int)
    requires
        0 <= k <= d.len(),
    ensures
        desc_code(d.take(k)).len() <= desc_code(d).len(),
        desc_code(d).subrange(0, desc_code(d.take(k)).len() as int) == desc_code(d.take(k)),
    decreases d.len() - k,
{
    if k == d.len() {
        assert(d.take(k) =~= d);
    } else {
        lemma_desc_code_prefix(d, k + 1);
        if k >= 1 {
            lemma_desc_code_step(d, k);
        } else {
            assert(d.take(0) =~= Seq::<u64>::empty());
        }
        let a = desc_code(d.take(k));
        let b = desc_code(d.take(k + 1));
        assert(b.subrange(0, a.len() as int) =~= a);
        assert(desc_code(d).subrange(0, a.len() as int) =~= b.subrange(0, a.len() as int));
    }
}

/// In a stream holding the code of a list, the code of its `k + 1`-th number (or gap) sits right
/// after the code of its first `k` numbers.
proof fn lemma_code_of_next(s: Seq<bool>, d: Seq<u64>, k: int)
    requires
        0 <= k < d.len(),
        desc_code(d).len() <= s.len(),
        s.subrange(0, desc_code(d).len() as int) == desc_code(d),
    ensures
        k == 0 ==> code_at(s, 0, d[0]),
        k > 0 ==> code_at(s, desc_code(d.take(k)).len() as int, (d[k - 1] - d[k]) as u64),
        desc_code(d.take(k + 1)).len() <= s.len(),
{
    lemma_desc_code_prefix(d, k + 1);
    let c = desc_code(d.take(k + 1));
    assert(s.subrange(0, c.len() as int) =~= c) by {
        assert forall|i: int| 0 <= i < c.len() implies s[i] == c[i] by {
            assert(s[i] == s.subrange(0, desc_code(d).len() as int)[i]);
            assert(desc_code(d)[i] == desc_code(d).subrange(0, c.len() as int)[i]);
        }
    }
    if k == 0 {
        lemma_desc_code_first(d);
        assert(s.subrange(0, value_code(d[0]).len() as int) =~= value_code(d[0]));
    } else {
        lemma_desc_code_step(d, k);
        let a = desc_code(d.take(k));
        let g = value_code((d[k - 1] - d[k]) as u64);
        assert(s.subrange(a.len() as int, (a.len() + g.len()) as int) =~= g) by {
            assert forall|i: int| 0 <= i < g.len() implies s[a.len() + i] == g[i] by {
                assert(s[a.len() + i] == c[a.len() + i]);
            }
        }
    }
}

/// The code of a sorted list of a given length determines the list.
pub proof fn lemma_values_code_unique(s: Seq<bool>, a: Seq<u64>, b: Seq<u64>)
    requires
        a.len() == b.len(),
        encodes_values(s, a),
        encodes_values(s, b),
    ensures
        a == b,
{
    let ra = a.reverse();
    let rb = b.reverse();
    let n = a.len() as int;
    assert forall|k: int| 0 <= k <= n implies #[trigger] ra.take(k) == rb.take(k) by {
        lemma_prefix_equal(s, a, b, k);
    }
    assert(ra.take(n) =~= ra);
    assert(rb.take(n) =~= rb);
    assert forall|i: int| 0 <= i < n implies a[i] == b[i] by {
        assert(a[i] == ra[n - 1 - i]);
        assert(b[i] == rb[n - 1 - i]);
    }
    assert(a =~= b);
}

proof fn lemma_prefix_equal(s: Seq<bool>, a: Seq<u64>, b: Seq<u64>, k: int)
    requires
        a.len() == b.len(),
        encodes_values(s, a),
        encodes_values(s, b),
        0 <= k <= a.len(),
    ensures
        a.reverse().take(k) == b.reverse().take(k),
    decreases k,
{
    let ra = a.reverse();
    let rb = b.reverse();
    if k == 0 {
        assert(ra.take(0) =~= rb.take(0));
    } else {
        lemma_prefix_equal(s, a, b, k - 1);
        lemma_code_of_next(s, ra, k - 1);
        lemma_code_of_next(s, rb, k - 1);
        if k == 1 {
            lemma_code_at_unique(s, 0, ra[0], rb[0]);
        } else {
            assert(ra.take(k - 1)[k - 2] == rb.take(k - 1)[k - 2]);
            lemma_code_at_unique(
                s,
                desc_code(ra.take(k - 1)).len() as int,
                (ra[k - 2] - ra[k - 1]) as u64,
                (rb[k - 2] - rb[k - 1]) as u64,
            );
            assert(ra[k - 2] >= ra[k - 1]);
            assert(rb[k - 2] >= rb[k - 1]);
        }
        assert(ra.take(k) =~= rb.take(k)) by {
            assert forall|i: int| 0 <= i < k implies ra[i] == rb[i] by {
                if i < k - 1 {
                    assert(ra.take(k - 1)[i] == rb.take(k - 1)[i]);
                }
            }
        }
    }
}

/// Returns the total encoded bit length of a sorted list of values.
pub fn total_bit_len(values_asc: &[u64]) -> (length: u32)
    requires
        values_asc@.len() <= 0x0100_0000,
        sorted_asc(values_asc@),
    ensures
        length == values_code(values_asc@).len(),
{
    let ghost rev = values_asc@.reverse();
    let n = values_asc.len();
    if n == 0 {
        return 0;
    }
    let first = values_asc[n - 1];
    let mut bits = value_bit_len(first);
    let mut prev = first;
    let mut i = n - 1;
    proof {
        lemma_desc_code_first(rev);
        lemma_significant_bits(first);
    }
    while i > 0
        invariant
            n == values_asc@.len(),
            n <= 0x0100_0000,
            rev == values_asc@.reverse(),
            sorted_asc(values_asc@),
            0 <= i < n,
            prev == values_asc@[i as int],
            bits == desc_code(rev.take(n - i)).len(),
            bits <= 129 * (n - i),
        decreases i,
    {
        i = i - 1;
        let value = values_asc[i];
        proof {
            lemma_desc_code_step(rev, (n - 1 - i) as int);
            lemma_significant_bits((prev - value) as u64);
        }
        bits = bits + value_bit_len(prev - value);
        prev = value;
    }
    proof {
        assert(rev.take(n as int) =~= rev);
    }
    bits
}

/// Writes one value: the unary code of its number of significant bits, then those bits.
pub fn write_value(writer: &mut BitWriter, value: u64)
    requires
        old(writer).wf(),
        old(writer).position() + value_code(value).len() <= old(writer).capacity(),
    ensures
        final(writer).wf(),
        final(writer).capacity() == old(writer).capacity(),
        final(writer).position() == old(writer).position() + value_code(value).len(),
        final(writer).view() == overwrite(
            old(writer).view(),
            old(writer).position() as int,
            value_code(value),
        ),
{
    proof {
        lemma_significant_bits(value);
        writer.lemma_view_len();
    }
    let ghost pre = writer.view();
    let ghost pos = writer.position() as int;
    let nbits = (64 - value.leading_zeros()) as u8;
    writer.write_unary(nbits as u64);
    writer.write_bits(value, nbits);
    proof {
        lemma_overwrite_compose(
            pre,
            pos,
            unary_code(significant_bits(value)),
            bits_of(value as nat, significant_bits(value)),
        );
    }
}

/// Reads one value written by [`write_value`].
pub fn read_value(reader: &mut BitReader) -> (value: u64)
    requires
        old(reader).wf(),
        exists|x: u64| code_at(old(reader).view(), old(reader).position() as int, x),
        old(reader).view().len() == old(reader).limit(),
    ensures
        final(reader).wf(),
        final(reader).view() == old(reader).view(),
        final(reader).words() == old(reader).words(),
        final(reader).limit() == old(reader).limit(),
        code_at(old(reader).view(), old(reader).position() as int, value),
        final(reader).position() == old(reader).position() + value_code(value).len(),
{
    let ghost s = reader.view();
    let ghost pos = reader.position() as int;
    let ghost x = choose|x: u64| code_at(s, pos, x);
    let ghost n = significant_bits(x) as int;
    proof {
        lemma_significant_bits(x);
        assert(s[pos + n] == value_code(x)[n]);
        assert forall|j: int| pos <= j < pos + n implies !s[j] by {
            assert(s[j] == value_code(x)[j - pos]);
        }
        assert(is_zero_run(s, pos, n));
    }
    let nbits = reader.read_unary();
    proof {
        lemma_zero_run_unique(s, pos, n, nbits as int);
    }
    let value = reader.read_bits(nbits);
    proof {
        let bits = s.subrange(pos + n + 1, pos + 2 * n + 1);
        assert(bits =~= bits_of(x as nat, n as nat)) by {
            assert forall|i: int| 0 <= i < n implies bits[i] == bits_of(x as nat, n as nat)[i] by {
                assert(s[pos + n + 1 + i] == value_code(x)[n + 1 + i]);
            }
        }
        lemma_value_of_bits_of(x as nat, n as nat);
        vstd::arithmetic::div_mod::lemma_small_mod(x as nat, pow2(n as nat));
    }
    value
}

/// Encodes a sorted list of values into the buffer (largest value first). Returns the bit length
/// written, or `None`, leaving the buffer untouched, if the code does not fit the buffer.
pub fn encode(buffer: &mut Vec<u64>, values_asc: &[u64]) -> (tell: Option<u32>)
    requires
        0 < old(buffer)@.len() <= 0x01ff_ffff,
        values_asc@.len() <= 0x0100_0000,
        sorted_asc(values_asc@),
    ensures
        values_code(values_asc@).len() > 64 * old(buffer)@.len() ==> tell is None
            && final(buffer)@ == old(buffer)@,
        values_code(values_asc@).len() <= 64 * old(buffer)@.len() ==> {
            &&& tell == Some(values_code(values_asc@).len() as u32)
            &&& final(buffer)@.len() == old(buffer)@.len()
            &&& stream_of_words(final(buffer)@) == overwrite(
                stream_of_words(old(buffer)@),
                0,
                values_code(values_asc@),
            )
        },
{
    let total_bits = total_bit_len(values_asc);
    if total_bits as usize > buffer.len() * 64 {
        return None;
    }
    let ghost rev = values_asc@.reverse();
    let ghost original = stream_of_words(buffer@);
    let mut words: Vec<u64> = Vec::new();
    core::mem::swap(&mut words, buffer);
    let mut writer = BitWriter::new(words);
    let n = values_asc.len();
    if n > 0 {
        let first = values_asc[n - 1];
        proof {
            lemma_desc_code_first(rev);
            lemma_desc_code_prefix(rev, 1);
            assert(rev.take(n as int) =~= rev);
        }
        write_value(&mut writer, first);
        proof {
            assert(overwrite(original, 0, value_code(first)) == overwrite(
                original,
                0,
                desc_code(rev.take(1)),
            ));
        }
        let mut prev = first;
        let mut i = n - 1;
        while i > 0
            invariant
                n == values_asc@.len(),
                rev == values_asc@.reverse(),
                sorted_asc(values_asc@),
                0 <= i < n,
                prev == values_asc@[i as int],
                writer.wf(),
                writer.capacity() == original.len(),
                writer.position() == desc_code(rev.take(n - i)).len(),
                writer.view() == overwrite(original, 0, desc_code(rev.take(n - i))),
                desc_code(rev).len() <= original.len(),
            decreases i,
        {
            i = i - 1;
            let value = values_asc[i];
            proof {
                lemma_desc_code_step(rev, (n - 1 - i) as int);
                lemma_desc_code_prefix(rev, (n - i) as int);
                writer.lemma_view_len();
                lemma_overwrite_compose(
                    original,
                    0,
                    desc_code(rev.take(n - 1 - i)),
                    value_code((prev - value) as u64),
                );
            }
            write_value(&mut writer, prev - value);
            prev = value;
        }
        proof {
            assert(rev.take(n as int) =~= rev);
        }
    } else {
        proof {
            assert(values_code(values_asc@) =~= Seq::<bool>::empty());
            assert(overwrite(original, 0, Seq::<bool>::empty()) =~= original);
        }
    }
    let tell = writer.tell();
    *buffer = writer.into_words();
    Some(tell)
}

/// Returns the values in the reverse order.
fn reversed(values: &Vec<u64>) -> (result: Vec<u64>)
    ensures
        result@ == values@.reverse(),
{
    let mut result: Vec<u64> = Vec::with_capacity(values.len());
    let mut i = values.len();
    while i > 0
        invariant
            i <= values@.len(),
            result@ == values@.reverse().take(values@.len() - i),
        decreases i,
    {
        i = i - 1;
        result.push(values[i]);
        proof {
            assert(result@ =~= values@.reverse().take(values@.len() - i));
        }
    }
    proof {
        assert(values@.reverse().take(values@.len() as int) =~= values@.reverse());
    }
    result
}

/// Decodes the stored values into a sorted vector.
pub fn decode_values(buffer: &[u64], count: u32) -> (values: Vec<u64>)
    requires
        buffer@.len() <= 0x01ff_ffff,
        exists|v: Seq<u64>| v.len() == count && encodes_values(stream_of_words(buffer@), v),
    ensures
        values@.len() == count,
        encodes_values(stream_of_words(buffer@), values@),
        forall|v: Seq<u64>|
            v.len() == count && encodes_values(stream_of_words(buffer@), v) ==> values@ == v,
{
    let ghost s = stream_of_words(buffer@);
    let ghost v = choose|v: Seq<u64>| v.len() == count && encodes_values(s, v);
    let ghost rev = v.reverse();
    let mut desc: Vec<u64> = Vec::with_capacity(count as usize);
    if count == 0 {
        proof {
            assert(desc@ =~= v);
            assert forall|w: Seq<u64>| w.len() == count && encodes_values(s, w) implies desc@
                == w by {
                assert(w =~= desc@);
            }
        }
        return desc;
    }
    let mut reader = BitReader::new(buffer);
    proof {
        lemma_code_of_next(s, rev, 0);
    }
    let mut prev = read_value(&mut reader);
    proof {
        lemma_code_at_unique(s, 0, prev, rev[0]);
        lemma_desc_code_first(rev);
    }
    desc.push(prev);
    let mut i: u32 = 1;
    while i < count
        invariant
            v.len() == count,
            encodes_values(s, v),
            rev == v.reverse(),
            1 <= i <= count,
            reader.wf(),
            reader.view() == s,
            reader.limit() == s.len(),
            reader.position() == desc_code(rev.take(i as int)).len(),
            desc@ == rev.take(i as int),
            prev == rev[i - 1],
        decreases count - i,
    {
        proof {
            lemma_code_of_next(s, rev, i as int);
        }
        let gap = read_value(&mut reader);
        proof {
            lemma_code_at_unique(
                s,
                desc_code(rev.take(i as int)).len() as int,
                gap,
                (rev[i - 1] - rev[i as int]) as u64,
            );
            assert(rev[i - 1] >= rev[i as int]);
            lemma_desc_code_step(rev, i as int);
        }
        prev = prev - gap;
        desc.push(prev);
        i = i + 1;
        proof {
            assert(desc@ =~= rev.take(i as int));
        }
    }
    let values = reversed(&desc);
    proof {
        assert(rev.take(count as int) =~= rev);
        assert(values@ =~= v);
        assert forall|w: Seq<u64>| w.len() == count && encodes_values(s, w) implies values@ == w by {
            lemma_values_code_unique(s, v, w);
        }
    }
    values
}

/// Returns whether `value` is stored, without allocating. The stream is sorted in decreasing
/// order, so the scan stops as soon as it passes `value`.
pub fn contains_value(buffer: &[u64], count: u32, value: u64) -> (found: bool)
    requires
        buffer@.len() <= 0x01ff_ffff,
        exists|v: Seq<u64>| v.len() == count && encodes_values(stream_of_words(buffer@), v),
    ensures
        forall|v: Seq<u64>|
            v.len() == count && encodes_values(stream_of_words(buffer@), v) ==> found
                == v.contains(value),
{
    let ghost s = stream_of_words(buffer@);
    let ghost v = choose|v: Seq<u64>| v.len() == count && encodes_values(s, v);
    let ghost rev = v.reverse();
    proof {
        assert forall|w: Seq<u64>| w.len() == count && encodes_values(s, w) implies w == v by {
            lemma_values_code_unique(s, v, w);
        }
    }
    if count == 0 {
        return false;
    }
    let mut reader = BitReader::new(buffer);
    proof {
        lemma_code_of_next(s, rev, 0);
    }
    let mut prev = read_value(&mut reader);
    proof {
        lemma_code_at_unique(s, 0, prev, rev[0]);
    }
    if prev == value {
        proof {
            assert(v[count - 1] == value);
        }
        return true;
    }
    proof {
        assert(v[count - 1] == rev[0]);
    }
    let mut i: u32 = 1;
    while i < count
        invariant
            v.len() == count,
            encodes_values(s, v),
            rev == v.reverse(),
            1 <= i <= count,
            reader.wf(),
            reader.view() == s,
            reader.limit() == s.len(),
            reader.position() == desc_code(rev.take(i as int)).len(),
            prev == rev[i - 1],
            s == stream_of_words(buffer@),
            forall|w: Seq<u64>| w.len() == count && encodes_values(s, w) ==> w == v,
            forall|j: int| count - i <= j < count ==> v[j] != value,
        decreases count - i,
    {
        proof {
            lemma_code_of_next(s, rev, i as int);
        }
        let gap = read_value(&mut reader);
        proof {
            lemma_code_at_unique(
                s,
                desc_code(rev.take(i as int)).len() as int,
                gap,
                (rev[i - 1] - rev[i as int]) as u64,
            );
            assert(rev[i - 1] >= rev[i as int]);
            lemma_desc_code_step(rev, i as int);
        }
        prev = prev - gap;
        if prev == value {
            proof {
                assert(v[count - 1 - i] == value);
            }
            return true;
        }
        if prev < value {
            proof {
                assert forall|j: int| 0 <= j < count implies v[j] != value by {
                    if j < count - 1 - i {
                        assert(v[j] <= v[count - 1 - i]);
                    }
                }
            }
            return false;
        }
        i = i + 1;
    }
    proof {
        assert(!v.contains(value)) by {
            if v.contains(value) {
                let j = choose|j: int| 0 <= j < v.len() && v[j] == value;
                assert(v[j] != value);
            }
        }
    }
    false
}

/// `w` is `v` with `value` inserted at its place: a strictly sorted sequence holding the values of
/// `v` and `value`.
pub open spec fn sorted_insertion(v: Seq<u64>, value: u64, w: Seq<u64>) -> bool {
    &&& w.len() == v.len() + 1
    &&& strictly_sorted(w)
    &&& w.to_set() == v.to_set().insert(value)
}

/// Finds `value` in a strictly sorted vector: `Ok` with its index, or `Err` with the index at
/// which it would be inserted.
fn search_sorted(values: &Vec<u64>, value: u64) -> (result: Result<usize, usize>)
    requires
        strictly_sorted(values@),
    ensures
        result matches Ok(i) ==> i < values@.len() && values@[i as int] == value,
        result matches Err(i) ==> i <= values@.len() && (forall|j: int|
            0 <= j < i ==> values@[j] < value) && (forall|j: int|
            i <= j < values@.len() ==> values@[j] > value),
{
    let mut low: usize = 0;
    let mut high: usize = values.len();
    while low < high
        invariant
            low <= high <= values@.len(),
            strictly_sorted(values@),
            forall|j: int| 0 <= j < low ==> values@[j] < value,
            forall|j: int| high <= j < values@.len() ==> values@[j] > value,
        decreases high - low,
    {
        let middle = low + (high - low) / 2;
        if values[middle] == value {
            return Ok(middle);
        } else if values[middle] < value {
            low = middle + 1;
        } else {
            high = middle;
        }
    }
    Err(low)
}

/// Inserts `value` into the sorted list stored in `buffer`, which holds `count` values. The buffer
/// is rewritten when the value is inserted, and left untouched otherwise.
pub fn insert_value(buffer: &mut Vec<u64>, count: u32, value: u64) -> (outcome: ValueInsertion)
    requires
        0 < old(buffer)@.len() <= 0x01ff_ffff,
        count < 0x0100_0000,
        exists|v: Seq<u64>|
            v.len() == count && strictly_sorted(v) && encodes_values(
                stream_of_words(old(buffer)@),
                v,
            ),
    ensures
        forall|v: Seq<u64>|
            v.len() == count && encodes_values(stream_of_words(old(buffer)@), v) ==> {
                &&& (outcome == ValueInsertion::Duplicate) == v.contains(value)
                &&& outcome != ValueInsertion::Inserted ==> final(buffer)@ == old(buffer)@
                &&& outcome != ValueInsertion::Duplicate ==> exists|w: Seq<u64>|
                    {
                        &&& sorted_insertion(v, value, w)
                        &&& outcome == ValueInsertion::Inserted ==> {
                            &&& values_code(w).len() <= 64 * old(buffer)@.len()
                            &&& final(buffer)@.len() == old(buffer)@.len()
                            &&& stream_of_words(final(buffer)@) == overwrite(
                                stream_of_words(old(buffer)@),
                                0,
                                values_code(w),
                            )
                        }
                        &&& outcome == ValueInsertion::DoesNotFit ==> values_code(w).len() > 64
                            * old(buffer)@.len()
                    }
            },
{
    let ghost s = stream_of_words(buffer@);
    let ghost v = choose|v: Seq<u64>|
        v.len() == count && strictly_sorted(v) && encodes_values(s, v);
    let mut values = decode_values(buffer, count);
    proof {
        assert forall|w: Seq<u64>| w.len() == count && encodes_values(s, w) implies w == v by {
            lemma_values_code_unique(s, v, w);
        }
    }
    match search_sorted(&values, value) {
        Ok(_) => ValueInsertion::Duplicate,
        Err(position) => {
            proof {
                assert(!v.contains(value)) by {
                    if v.contains(value) {
                        let j = choose|j: int| 0 <= j < v.len() && v[j] == value;
                        if j < position {
                        } else {
                        }
                    }
                }
            }
            values.insert(position, value);
            let ghost w = values@;
            proof {
                assert(strictly_sorted(w)) by {
                    assert forall|a: int, b: int| 0 <= a < b < w.len() implies w[a] < w[b] by {
                        if b < position {
                        } else if a > position {
                            assert(w[a] == v[a - 1] && w[b] == v[b - 1]);
                        } else if a == position {
                            assert(w[b] == v[b - 1]);
                        } else if b == position {
                        } else {
                            assert(w[b] == v[b - 1]);
                        }
                    }
                }
                assert(w.to_set() =~= v.to_set().insert(value)) by {
                    assert forall|x: u64| w.to_set().contains(x) implies v.to_set().insert(
                        value,
                    ).contains(x) by {
                        let j = choose|j: int| 0 <= j < w.len() && w[j] == x;
                        if j < position {
                            assert(v[j] == x);
                        } else if j > position {
                            assert(v[j - 1] == x);
                        }
                    }
                    assert forall|x: u64| v.to_set().insert(value).contains(x) implies w.to_set().contains(
                        x,
                    ) by {
                        if x == value {
                            assert(w[position as int] == x);
                        } else {
                            let j = choose|j: int| 0 <= j < v.len() && v[j] == x;
                            if j < position {
                                assert(w[j] == x);
                            } else {
                                assert(w[j + 1] == x);
                            }
                        }
                    }
                }
            }
            assert(sorted_insertion(v, value, w));
            if encode(buffer, values.as_slice()).is_some() {
                ValueInsertion::Inserted
            } else {
                ValueInsertion::DoesNotFit
            }
        },
    }
}

} // verus!
