//! Mathematical model of bit streams.
//!
//! A byte buffer is read as a stream of bits, most significant bit of each byte first: bit `p`
//! of the stream is bit `7 - p % 8` of byte `p / 8`. Numbers are written to and read from a
//! stream most significant bit first.
use vstd::arithmetic::div_mod::{
    lemma_div_denominator, lemma_fundamental_div_mod, lemma_mod_breakdown, lemma_mod_mod,
    lemma_small_mod, lemma_div_plus_one,
};
use vstd::arithmetic::mul::{lemma_mul_is_associative, lemma_mul_is_commutative, lemma_mul_nonnegative, lemma_mul_inequality, lemma_mul_strict_inequality};
use vstd::arithmetic::power2::{lemma2_to64, lemma_pow2_adds, lemma_pow2_pos, lemma_pow2_strictly_increases, pow2};
use vstd::prelude::*;

verus! {

/// Bit `i` (counting from the least significant bit) of `x`.
pub open spec fn bit_at(x: nat, i: nat) -> bool {
    (x / pow2(i)) % 2 == 1
}

/// The `n` lowest bits of `x`, most significant first.
pub open spec fn bits_of(x: nat, n: nat) -> Seq<bool> {
    Seq::new(n, |i: int| bit_at(x, (n - 1 - i) as nat))
}

/// The number whose binary digits, most significant first, are `s`.
pub open spec fn value_of(s: Seq<bool>) -> nat
    decreases s.len(),
{
    if s.len() == 0 {
        0
    } else {
        value_of(s.drop_last()) * 2 + if s.last() {
            1nat
        } else {
            0nat
        }
    }
}

/// Bit `p` of a byte buffer: bit `7 - p % 8` of byte `p / 8`.
pub open spec fn byte_bit(bytes: Seq<u8>, p: int) -> bool {
    bit_at(bytes[p / 8] as nat, (7 - p % 8) as nat)
}

/// The bit stream of a byte buffer, eight bits per byte, most significant bit first.
pub open spec fn stream_of(bytes: Seq<u8>) -> Seq<bool> {
    Seq::new(bytes.len() * 8, |p: int| byte_bit(bytes, p))
}

/// The stream `s` with the bits from position `start` on overwritten by `bits`.
pub open spec fn overwrite(s: Seq<bool>, start: int, bits: Seq<bool>) -> Seq<bool> {
    s.subrange(0, start) + bits + s.subrange(start + bits.len(), s.len() as int)
}

/// `n` zero bits followed by a one bit: the unary code of `n`.
pub open spec fn unary_code(n: nat) -> Seq<bool> {
    Seq::new(n + 1, |i: int| i == n)
}

/// Number of zero bits before the first one bit of `s` from position `pos` on, when that one
/// bit is at distance `z`.
pub open spec fn is_zero_run(s: Seq<bool>, pos: int, z: int) -> bool {
    &&& 0 <= pos
    &&& 0 <= z
    &&& pos + z < s.len()
    &&& s[pos + z]
    &&& forall|j: int| pos <= j < pos + z ==> !s[j]
}

pub proof fn lemma_value_of_bound(s: Seq<bool>)
    ensures
        value_of(s) < pow2(s.len()),
    decreases s.len(),
{
    if s.len() == 0 {
        lemma2_to64();
    } else {
        lemma_value_of_bound(s.drop_last());
        lemma_pow2_adds((s.len() - 1) as nat, 1);
        lemma2_to64();
    }
}

pub proof fn lemma_value_of_append(a: Seq<bool>, b: Seq<bool>)
    ensures
        value_of(a + b) == value_of(a) * pow2(b.len()) + value_of(b),
    decreases b.len(),
{
    if b.len() == 0 {
        assert(a + b =~= a);
        lemma2_to64();
        assert(value_of(b) == 0);
        assert(value_of(a) * 1 == value_of(a));
    } else {
        assert((a + b).drop_last() =~= a + b.drop_last());
        lemma_value_of_append(a, b.drop_last());
        lemma_pow2_adds((b.len() - 1) as nat, 1);
        lemma2_to64();
        let p = pow2((b.len() - 1) as nat);
        assert(value_of(a) * (p * 2) == (value_of(a) * p) * 2) by {
            lemma_mul_is_associative(value_of(a) as int, p as int, 2);
        }
        let last: nat = if b.last() { 1 } else { 0 };
        assert((a + b).last() == b.last());
        assert(value_of(a + b) == value_of(a + b.drop_last()) * 2 + last);
        assert(value_of(b) == value_of(b.drop_last()) * 2 + last);
        assert(pow2(b.len()) == p * 2);
        assert((value_of(a) * p + value_of(b.drop_last())) * 2 == (value_of(a) * p) * 2
            + value_of(b.drop_last()) * 2);
        assert(value_of(a + b) == value_of(a) * pow2(b.len()) + value_of(b));
    }
}

proof fn lemma_div_two_pow(x: nat, i: nat)
    ensures
        x / pow2(i + 1) == (x / 2) / pow2(i),
{
    lemma_pow2_pos(i);
    lemma_pow2_adds(1, i);
    lemma2_to64();
    lemma_div_denominator(x as int, 2, pow2(i) as int);
}

pub proof fn lemma_value_of_bits_of(x: nat, n: nat)
    ensures
        value_of(bits_of(x, n)) == x % pow2(n),
    decreases n,
{
    lemma2_to64();
    if n == 0 {
    } else {
        let s = bits_of(x, n);
        assert(s.drop_last() =~= bits_of(x / 2, (n - 1) as nat)) by {
            assert forall|i: int| 0 <= i < n - 1 implies s.drop_last()[i] == bits_of(
                x / 2,
                (n - 1) as nat,
            )[i] by {
                lemma_div_two_pow(x, (n - 2 - i) as nat);
            }
        }
        lemma_value_of_bits_of(x / 2, (n - 1) as nat);
        assert(pow2(0) == 1);
        assert(x / 1 == x);
        assert(s.last() == (x % 2 == 1));
        lemma_pow2_pos((n - 1) as nat);
        lemma_pow2_adds(1, (n - 1) as nat);
        lemma_mod_breakdown(x as int, 2, pow2((n - 1) as nat) as int);
    }
}

pub proof fn lemma_bits_of_value_of(s: Seq<bool>)
    ensures
        bits_of(value_of(s), s.len()) == s,
    decreases s.len(),
{
    lemma2_to64();
    if s.len() == 0 {
        assert(bits_of(value_of(s), 0) =~= s);
    } else {
        let n = s.len();
        let v = value_of(s);
        let w = value_of(s.drop_last());
        lemma_bits_of_value_of(s.drop_last());
        assert(v / 2 == w);
        assert forall|i: int| 0 <= i < n implies bits_of(v, n)[i] == s[i] by {
            if i == n - 1 {
                assert(pow2(0) == 1);
                assert(v / 1 == v);
                assert(v == w * 2 + if s.last() { 1nat } else { 0nat });
                assert(v % 2 == if s.last() { 1nat } else { 0nat });
            } else {
                lemma_div_two_pow(v, (n - 2 - i) as nat);
                assert(bits_of(w, (n - 1) as nat)[i] == s.drop_last()[i]);
            }
        }
        assert(bits_of(v, n) =~= s);
    }
}

/// Two streams of the same length with the same value are equal.
pub proof fn lemma_value_of_injective(a: Seq<bool>, b: Seq<bool>)
    requires
        a.len() == b.len(),
        value_of(a) == value_of(b),
    ensures
        a == b,
{
    lemma_bits_of_value_of(a);
    lemma_bits_of_value_of(b);
}


/// `bits_of` of a concatenated number.
pub proof fn lemma_bits_of_split(hi: nat, lo: nat, m: nat, n: nat)
    requires
        lo < pow2(n),
    ensures
        bits_of(hi * pow2(n) + lo, m + n) == bits_of(hi, m) + bits_of(lo, n),
{
    let x = hi * pow2(n) + lo;
    lemma_pow2_pos(n);
    lemma_pow2_pos(m);
    lemma_value_of_append(bits_of(hi, m), bits_of(lo, n));
    lemma_value_of_bits_of(hi, m);
    lemma_value_of_bits_of(lo, n);
    lemma_value_of_bits_of(x, m + n);
    lemma_small_mod(lo, pow2(n));
    lemma_pow2_adds(n, m);
    // x % (2^n * 2^m) == 2^n * ((x / 2^n) % 2^m) + x % 2^n
    lemma_mod_breakdown(x as int, pow2(n) as int, pow2(m) as int);
    lemma_fundamental_div_mod(x as int, pow2(n) as int);
    assert(x / pow2(n) == hi && x % pow2(n) == lo) by {
        vstd::arithmetic::div_mod::lemma_fundamental_div_mod_converse(
            x as int,
            pow2(n) as int,
            hi as int,
            lo as int,
        );
    }
    lemma_mul_is_commutative(pow2(n) as int, pow2(m) as int);
    lemma_mul_is_commutative((hi % pow2(m)) as int, pow2(n) as int);
    lemma_value_of_injective(
        bits_of(x, m + n),
        bits_of(hi, m) + bits_of(lo, n),
    );
}




/// The bit stream of a word buffer, sixty-four bits per word, most significant bit first.
pub open spec fn stream_of_words(words: Seq<u64>) -> Seq<bool> {
    Seq::new(words.len() * 64, |p: int| bit_at(words[p / 64] as nat, (63 - p % 64) as nat))
}

/// Bit `j` of a machine word, read with a shift and a mask.
pub proof fn lemma_bit_at_u64(x: u64, j: nat)
    requires
        j < 64,
    ensures
        bit_at(x as nat, j) == ((x >> (j as u64)) & 1 == 1),
{
    vstd::bits::lemma_u64_shr_is_div(x, j as u64);
    let y = x >> (j as u64);
    assert(y & 1 == y % 2) by (bit_vector);
}

/// A machine word whose bits from `n` on are zero is smaller than `2^n`.
pub proof fn lemma_u64_high_zero_bound(x: u64, n: u64)
    requires
        n < 64,
        x >> n == 0,
    ensures
        (x as nat) < pow2(n as nat),
{
    vstd::bits::lemma_u64_shr_is_div(x, n);
    lemma_pow2_pos(n as nat);
    vstd::arithmetic::div_mod::lemma_fundamental_div_mod(x as int, pow2(n as nat) as int);
}


/// Overwriting one word of a buffer overwrites its sixty-four bits in the stream.
pub proof fn lemma_stream_of_words_update(words: Seq<u64>, i: int, w: u64)
    requires
        0 <= i < words.len(),
    ensures
        stream_of_words(words.update(i, w)) == overwrite(
            stream_of_words(words),
            64 * i,
            bits_of(w as nat, 64),
        ),
{
    let a = stream_of_words(words.update(i, w));
    let b = overwrite(stream_of_words(words), 64 * i, bits_of(w as nat, 64));
    assert forall|p: int| 0 <= p < a.len() implies a[p] == b[p] by {
        if 64 * i <= p < 64 * i + 64 {
            assert(p / 64 == i);
        } else {
            if p < 64 * i {
                assert(p / 64 < i);
            } else {
                assert(p / 64 > i);
            }
        }
    }
    assert(a =~= b);
}

/// The bits of one word of a buffer in its stream.
pub proof fn lemma_stream_of_words_word(words: Seq<u64>, i: int)
    requires
        0 <= i < words.len(),
    ensures
        stream_of_words(words).subrange(64 * i, 64 * i + 64) == bits_of(words[i] as nat, 64),
{
    let a = stream_of_words(words).subrange(64 * i, 64 * i + 64);
    let b = bits_of(words[i] as nat, 64);
    assert forall|t: int| 0 <= t < 64 implies a[t] == b[t] by {
        assert((64 * i + t) / 64 == i);
        assert((64 * i + t) % 64 == t);
    }
    assert(a =~= b);
}


/// Bit `j` of a left-shifted word.
pub proof fn lemma_bit_shl(x: u64, a: u64, j: u64)
    requires
        a < 64,
        j < 64,
    ensures
        bit_at((x << a) as nat, j as nat) == (j >= a && bit_at(x as nat, (j - a) as nat)),
{
    lemma_bit_at_u64(x << a, j as nat);
    let d = (j - a) as u64;
    if j >= a {
        lemma_bit_at_u64(x, d as nat);
    }
    assert((j >= a ==> ((x << a) >> j) & 1 == (x >> d) & 1) && (j < a ==> ((x << a) >> j) & 1
        == 0)) by (bit_vector)
        requires
            j >= a ==> d + a == j,
            j < 64,
            a < 64,
    ;
}

/// Bit `j` of a right-shifted word.
pub proof fn lemma_bit_shr(x: u64, a: u64, j: u64)
    requires
        a < 64,
        j < 64,
    ensures
        bit_at((x >> a) as nat, j as nat) == (j + a < 64 && bit_at(x as nat, (j + a) as nat)),
{
    lemma_bit_at_u64(x >> a, j as nat);
    let d = (j + a) as u64;
    if j + a < 64 {
        lemma_bit_at_u64(x, d as nat);
    }
    assert((j + a < 64 ==> ((x >> a) >> j) & 1 == (x >> d) & 1) && (j + a >= 64 ==> ((x >> a)
        >> j) & 1 == 0)) by (bit_vector)
        requires
            j + a < 64 ==> d == j + a,
            a < 64,
            j < 64,
    ;
}

/// Bit `j` of the bitwise or, and, exclusive or and negation of words.
pub proof fn lemma_bit_logic(x: u64, y: u64, j: u64)
    requires
        j < 64,
    ensures
        bit_at((x | y) as nat, j as nat) == (bit_at(x as nat, j as nat) || bit_at(y as nat, j as nat)),
        bit_at((x & y) as nat, j as nat) == (bit_at(x as nat, j as nat) && bit_at(y as nat, j as nat)),
        bit_at((x ^ y) as nat, j as nat) == (bit_at(x as nat, j as nat) != bit_at(y as nat, j as nat)),
        bit_at((!x) as nat, j as nat) == !bit_at(x as nat, j as nat),
{
    lemma_bit_at_u64(x, j as nat);
    lemma_bit_at_u64(y, j as nat);
    lemma_bit_at_u64(x | y, j as nat);
    lemma_bit_at_u64(x & y, j as nat);
    lemma_bit_at_u64(x ^ y, j as nat);
    lemma_bit_at_u64(!x, j as nat);
    assert((((x | y) >> j) & 1 == 1 <==> ((x >> j) & 1 == 1 || (y >> j) & 1 == 1)) && (((x & y)
        >> j) & 1 == 1 <==> ((x >> j) & 1 == 1 && (y >> j) & 1 == 1)) && (((x ^ y) >> j) & 1 == 1
        <==> ((x >> j) & 1 == 1) != ((y >> j) & 1 == 1)) && (((!x) >> j) & 1 == 1 <==> !((x >> j)
        & 1 == 1))) by (bit_vector)
        requires
            j < 64,
    ;
}

/// The bits of the words zero, one and all ones.
pub proof fn lemma_bit_constants(j: u64)
    requires
        j < 64,
    ensures
        !bit_at(0nat, j as nat),
        bit_at(1nat, j as nat) == (j == 0),
        bit_at(0xffff_ffff_ffff_ffffnat, j as nat),
{
    lemma_bit_at_u64(0, j as nat);
    lemma_bit_at_u64(1, j as nat);
    lemma_bit_at_u64(0xffff_ffff_ffff_ffff, j as nat);
    assert((0u64 >> j) & 1 == 0 && (1u64 >> j) & 1 == (if j == 0 {
        1u64
    } else {
        0u64
    }) && (0xffff_ffff_ffff_ffffu64 >> j) & 1 == 1) by (bit_vector)
        requires
            j < 64,
    ;
}

/// `1 << n` is positive.
pub proof fn lemma_shl_one_positive(n: u64)
    by (bit_vector)
    requires
        n < 64,
    ensures
        (1u64 << n) >= 1,
        n < 32 ==> (1u32 << (n as u32)) >= 1,
{
}

/// A word with bit `q` or-ed in has bit `q` set.
pub proof fn lemma_or_bit_set(y: u64, q: u64)
    by (bit_vector)
    requires
        q < 64,
    ensures
        ((y | (1u64 << q)) >> q) & 1 == 1,
{
}

/// Halving a 32-bit word: its lowest bit is its parity and a right shift by one halves it.
pub proof fn lemma_u32_halving(d: u32)
    by (bit_vector)
    ensures
        d & 1 == d % 2,
        d >> 1 == d / 2,
{
}

/// A shift by zero and an or with zero leave a 32-bit word as it is.
pub proof fn lemma_u32_shift_or_zero(x: u32)
    by (bit_vector)
    ensures
        x << 0u32 == x,
        x | 0u32 == x,
        (x << 0u32) | 0u32 == x,
{
}

/// Two words with the same bits are equal.
pub proof fn lemma_bits_equal(x: u64, y: u64)
    requires
        forall|j: nat| j < 64 ==> bit_at(x as nat, j) == bit_at(y as nat, j),
    ensures
        x == y,
{
    assert(bits_of(x as nat, 64) =~= bits_of(y as nat, 64));
    lemma_value_of_bits_of(x as nat, 64);
    lemma_value_of_bits_of(y as nat, 64);
    lemma2_to64();
    vstd::arithmetic::power2::lemma2_to64_rest();
    lemma_small_mod(x as nat, pow2(64));
    lemma_small_mod(y as nat, pow2(64));
}

/// A word is smaller than `2^n` exactly when its bits from `n` on are zero.
pub proof fn lemma_bits_bound(x: u64, n: nat)
    requires
        n <= 64,
        forall|j: nat| n <= j < 64 ==> !bit_at(x as nat, j),
    ensures
        (x as nat) < pow2(n),
{
    lemma2_to64();
    vstd::arithmetic::power2::lemma2_to64_rest();
    if n < 64 {
        let y = x >> (n as u64);
        assert forall|j: nat| j < 64 implies bit_at(y as nat, j) == bit_at(0nat, j) by {
            lemma_bit_shr(x, n as u64, j as u64);
            lemma_bit_constants(j as u64);
        }
        lemma_bits_equal(y, 0);
        lemma_u64_high_zero_bound(x, n as u64);
    }
}


/// `n` zero bits.
pub open spec fn zeros(n: nat) -> Seq<bool> {
    Seq::new(n, |i: int| false)
}

/// The `n` lowest bits of zero are zeros.
pub proof fn lemma_bits_of_zero(n: nat)
    ensures
        bits_of(0, n) == zeros(n),
{
    assert forall|i: int| 0 <= i < n implies !bits_of(0, n)[i] by {
        let e = (n - 1 - i) as nat;
        lemma_pow2_pos(e);
        vstd::arithmetic::div_mod::lemma_basic_div(0, pow2(e) as int);
    }
    assert(bits_of(0, n) =~= zeros(n));
}

/// The unary code of `n` is made of the `n + 1` lowest bits of one.
pub proof fn lemma_unary_code_bits(n: nat)
    ensures
        unary_code(n) == bits_of(1, n + 1),
{
    lemma2_to64();
    assert forall|i: int| 0 <= i < n + 1 implies unary_code(n)[i] == bits_of(1, n + 1)[i] by {
        let e = (n - i) as nat;
        lemma_pow2_pos(e);
        if e == 0 {
            assert(pow2(0) == 1);
            assert(1nat / 1nat == 1);
        } else {
            lemma_pow2_strictly_increases(0, e);
            vstd::arithmetic::div_mod::lemma_basic_div(1, pow2(e) as int);
        }
    }
    assert(unary_code(n) =~= bits_of(1, n + 1));
}

/// Two consecutive overwrites are one overwrite with the concatenated bits.
pub proof fn lemma_overwrite_compose(s: Seq<bool>, start: int, a: Seq<bool>, b: Seq<bool>)
    requires
        0 <= start,
        start + a.len() + b.len() <= s.len(),
    ensures
        overwrite(overwrite(s, start, a), start + a.len(), b) == overwrite(s, start, a + b),
{
    assert(overwrite(overwrite(s, start, a), start + a.len(), b) =~= overwrite(s, start, a + b));
}


/// A zero run ends at the first one bit, so it has a single length.
pub proof fn lemma_zero_run_unique(s: Seq<bool>, pos: int, z1: int, z2: int)
    requires
        is_zero_run(s, pos, z1),
        is_zero_run(s, pos, z2),
    ensures
        z1 == z2,
{
    if z1 < z2 {
        assert(!s[pos + z1]);
    } else if z2 < z1 {
        assert(!s[pos + z2]);
    }
}


/// The leading zeros of a word: its highest one bit, and the zero bits above it.
pub proof fn lemma_leading_zeros_bits(x: u64)
    ensures
        0 <= vstd::std_specs::bits::u64_leading_zeros(x) <= 64,
        x == 0 <==> vstd::std_specs::bits::u64_leading_zeros(x) == 64,
        vstd::std_specs::bits::u64_leading_zeros(x) < 64 ==> bit_at(
            x as nat,
            (63 - vstd::std_specs::bits::u64_leading_zeros(x)) as nat,
        ),
        forall|j: nat|
            64 - vstd::std_specs::bits::u64_leading_zeros(x) <= j < 64 ==> !#[trigger] bit_at(
                x as nat,
                j,
            ),
{
    let lz = vstd::std_specs::bits::u64_leading_zeros(x);
    vstd::std_specs::bits::axiom_u64_leading_zeros(x);
    if lz < 64 {
        let y = x >> ((63 - lz) as u64);
        lemma_bit_at_u64(x, (63 - lz) as nat);
        assert(y & 1 != 0 ==> y & 1 == 1) by (bit_vector);
    }
    assert forall|j: nat| 64 - lz <= j < 64 implies !#[trigger] bit_at(x as nat, j) by {
        lemma_bit_at_u64(x, j);
    }
}

/// The eight bits of byte `i` of a byte buffer in its stream.
pub proof fn lemma_stream_of_byte(bytes: Seq<u8>, i: int)
    requires
        0 <= i < bytes.len(),
    ensures
        stream_of(bytes).subrange(8 * i, 8 * i + 8) == bits_of(bytes[i] as nat, 8),
{
    let a = stream_of(bytes).subrange(8 * i, 8 * i + 8);
    let b = bits_of(bytes[i] as nat, 8);
    assert forall|t: int| 0 <= t < 8 implies a[t] == b[t] by {
        assert((8 * i + t) / 8 == i);
        assert((8 * i + t) % 8 == t);
    }
    assert(a =~= b);
}

/// Appending the next byte of a buffer to the word that its previous bytes make.
proof fn lemma_append_byte(bytes: Seq<u8>, i: int, j: int, word: u64, byte: u8)
    requires
        0 <= i,
        0 <= j < 8,
        8 * i + j < bytes.len(),
        byte == bytes[8 * i + j],
        (word as nat) < pow2((8 * j) as nat),
        bits_of(word as nat, (8 * j) as nat) == stream_of(bytes).subrange(64 * i, 64 * i + 8 * j),
    ensures
        (((word << 8) | (byte as u64)) as nat) < pow2((8 * (j + 1)) as nat),
        bits_of(((word << 8) | (byte as u64)) as nat, (8 * (j + 1)) as nat) == stream_of(bytes).subrange(
            64 * i,
            64 * i + 8 * (j + 1),
        ),
{
    let s = stream_of(bytes);
    lemma2_to64();
    lemma_pow2_adds((8 * j) as nat, 8);
    if j < 7 {
        vstd::arithmetic::power2::lemma_pow2_strictly_increases((8 * j) as nat, 56);
    } else {
        assert(8 * j == 56);
    }
    vstd::arithmetic::power2::lemma2_to64_rest();
    assert(pow2(56) == 0x0100_0000_0000_0000nat);
    assert(word < 0x0100_0000_0000_0000u64);
    assert(word * 256 <= 0xffff_ffff_ffff_ffff) by (nonlinear_arith)
        requires
            word < 0x0100_0000_0000_0000u64,
    ;
    vstd::bits::lemma_u64_shl_is_mul(word, 8);
    let w = word;
    let c = byte as u64;
    assert((w << 8u64) | c == (w << 8u64) + c) by (bit_vector)
        requires
            c < 256,
            w < 0x0100_0000_0000_0000,
    ;
    lemma_bits_of_split(word as nat, byte as nat, (8 * j) as nat, 8);
    lemma_stream_of_byte(bytes, 8 * i + j);
    assert(stream_of(bytes).subrange(8 * (8 * i + j), 8 * (8 * i + j) + 8) =~= s.subrange(
        64 * i + 8 * j,
        64 * i + 8 * j + 8,
    ));
    assert(s.subrange(64 * i, 64 * i + 8 * j) + s.subrange(64 * i + 8 * j, 64 * i + 8 * j + 8)
        =~= s.subrange(64 * i, 64 * i + 8 * (j + 1)));
    assert((word as nat) * pow2(8) + (byte as nat) < pow2((8 * (j + 1)) as nat)) by {
        vstd::arithmetic::mul::lemma_mul_inequality(
            word as int + 1,
            pow2((8 * j) as nat) as int,
            pow2(8) as int,
        );
    }
}

/// The words that a buffer of bytes makes, eight bytes to a word, the first byte the most
/// significant: the two buffers hold the same stream.
pub fn words_of_bytes(bytes: &[u8]) -> (words: Vec<u64>)
    requires
        bytes@.len() % 8 == 0,
    ensures
        words@.len() * 8 == bytes@.len(),
        stream_of_words(words@) == stream_of(bytes@),
{
    let ghost s = stream_of(bytes@);
    let n = bytes.len() / 8;
    assert(8 * n == bytes@.len()) by {
        vstd::arithmetic::div_mod::lemma_fundamental_div_mod(bytes@.len() as int, 8);
    }
    let mut words: Vec<u64> = Vec::new();
    let mut i: usize = 0;
    while i < n
        invariant
            n == bytes@.len() / 8,
            8 * n == bytes@.len(),
            bytes@.len() <= usize::MAX,
            bytes@.len() % 8 == 0,
            s == stream_of(bytes@),
            i <= n,
            words@.len() == i,
            forall|p: int| 0 <= p < 64 * i ==> #[trigger] stream_of_words(words@)[p] == s[p],
        decreases n - i,
    {
        let mut word: u64 = 0;
        let mut j: usize = 0;
        proof {
            lemma2_to64();
        }
        while j < 8
            invariant
                n == bytes@.len() / 8,
                8 * n == bytes@.len(),
                bytes@.len() % 8 == 0,
                s == stream_of(bytes@),
                i < n,
                8 * i + 8 <= bytes@.len(),
                bytes@.len() <= usize::MAX,
                j <= 8,
                (word as nat) < pow2(8 * j as nat),
                bits_of(word as nat, 8 * j as nat) == s.subrange(64 * i, 64 * i + 8 * j),
            decreases 8 - j,
        {
            let byte = bytes[8 * i + j];
            proof {
                lemma_append_byte(bytes@, i as int, j as int, word, byte);
            }
            word = (word << 8) | (byte as u64);
            j = j + 1;
        }
        let ghost before = words@;
        words.push(word);
        proof {
            lemma_stream_of_words_word(words@, i as int);
            assert forall|p: int| 0 <= p < 64 * (i + 1) implies #[trigger] stream_of_words(words@)[p]
                == s[p] by {
                if p < 64 * i {
                    assert(p / 64 < i);
                    assert(stream_of_words(before)[p] == s[p]);
                } else {
                    assert(stream_of_words(words@).subrange(64 * i, 64 * i + 64)[p - 64 * i]
                        == stream_of_words(words@)[p]);
                    assert(s.subrange(64 * i, 64 * i + 64)[p - 64 * i] == s[p]);
                }
            }
        }
        i = i + 1;
    }
    assert(stream_of_words(words@) =~= s);
    words
}

/// The bytes of a buffer of words, eight bytes to a word, the most significant first: the two
/// buffers hold the same stream.
pub fn bytes_of_words(words: &[u64]) -> (bytes: Vec<u8>)
    requires
        words@.len() * 8 <= usize::MAX,
    ensures
        bytes@.len() == words@.len() * 8,
        stream_of(bytes@) == stream_of_words(words@),
{
    let ghost s = stream_of_words(words@);
    let mut bytes: Vec<u8> = Vec::new();
    let mut i: usize = 0;
    while i < words.len()
        invariant
            s == stream_of_words(words@),
            words@.len() * 8 <= usize::MAX,
            i <= words@.len(),
            bytes@.len() == 8 * i,
            forall|p: int| 0 <= p < 64 * i ==> #[trigger] stream_of(bytes@)[p] == s[p],
        decreases words@.len() - i,
    {
        let w = words[i];
        let mut j: u64 = 0;
        while j < 8
            invariant
                s == stream_of_words(words@),
                i < words@.len(),
                w == words@[i as int],
                j <= 8,
                bytes@.len() == 8 * i + j,
                forall|p: int| 0 <= p < 64 * i + 8 * j ==> #[trigger] stream_of(bytes@)[p] == s[p],
            decreases 8 - j,
        {
            let shift = 56 - 8 * j;
            let byte = ((w >> shift) & 0xff) as u8;
            let ghost before = bytes@;
            bytes.push(byte);
            proof {
                assert forall|p: int| 0 <= p < 64 * i + 8 * (j + 1) implies #[trigger] stream_of(
                    bytes@,
                )[p] == s[p] by {
                    if p < 64 * i + 8 * j {
                        assert(p / 8 < before.len());
                        assert(stream_of(before)[p] == s[p]);
                    } else {
                        let t = p - (64 * i + 8 * j);
                        assert(p / 8 == 8 * i + j);
                        assert(p % 8 == t);
                        assert(p / 64 == i);
                        assert(p % 64 == 8 * j + t);
                        let x = w >> shift;
                        lemma_bit_shr(w, shift, (7 - t) as u64);
                        lemma_bit_logic(x, 0xff, (7 - t) as u64);
                        lemma_bit_at_u64(0xff, (7 - t) as nat);
                        let tt = (7 - t) as u64;
                        let y = x & 0xff;
                        assert((0xffu64 >> tt) & 1 == 1 && y < 256 && (y as u8) as u64 == y)
                            by (bit_vector)
                            requires
                                tt < 8,
                                y == x & 0xff,
                        ;
                    }
                }
            }
            j = j + 1;
        }
        i = i + 1;
    }
    assert(stream_of(bytes@) =~= s);
    bytes
}

} // verus!
