//! Register-wise maximum of two densely packed register slabs, computed word by word.
//!
//! A slab is a slice of `u64` words read as one bit stream, most significant bit of the first
//! word first (see [`stream_of_words`]). Register `i` of a slab packed with registers of `r`
//! bits is the number spelled by the stream bits `[i * r, i * r + r)`, most significant first.
//! Seen as a number, the whole stream is one big integer whose most significant word is the
//! first one; the merge subtracts such big integers, so that every register of the stream is
//! compared with its counterpart in a handful of word operations.
use crate::bitstream::{
    bit_at, bits_of, lemma_bit_at_u64, lemma_bit_constants, lemma_bit_logic, lemma_bit_shl,
    lemma_bit_shr, lemma_bits_of_split, lemma_bits_of_value_of, lemma_value_of_append,
    lemma_value_of_bits_of, lemma_value_of_bound, stream_of_words, value_of, zeros,
};
use vstd::arithmetic::div_mod::{lemma_fundamental_div_mod_converse, lemma_small_mod};
use vstd::arithmetic::mul::{lemma_mul_is_distributive_add, lemma_mul_is_commutative};
use vstd::arithmetic::power2::{lemma2_to64, lemma2_to64_rest, lemma_pow2_adds, lemma_pow2_pos, pow2};
use vstd::prelude::*;

verus! {

/// The number spelled by the bit stream of a slab: its first word is the most significant.
pub open spec fn slab_value(words: Seq<u64>) -> nat {
    value_of(stream_of_words(words))
}

/// The streams of two slabs, one after the other, are the stream of the joined slab.
proof fn lemma_stream_of_words_append(a: Seq<u64>, b: Seq<u64>)
    ensures
        stream_of_words(a + b) == stream_of_words(a) + stream_of_words(b),
{
    let s = stream_of_words(a + b);
    let t = stream_of_words(a) + stream_of_words(b);
    assert forall|p: int| 0 <= p < s.len() implies s[p] == t[p] by {
        if p >= 64 * a.len() {
            let q = p - 64 * a.len();
            assert(p / 64 == q / 64 + a.len());
            assert(p % 64 == q % 64);
        } else {
            assert(p / 64 < a.len());
        }
    }
    assert(s =~= t);
}

/// The value of a joined slab.
proof fn lemma_slab_value_append(a: Seq<u64>, b: Seq<u64>)
    ensures
        slab_value(a + b) == slab_value(a) * pow2(64 * b.len()) + slab_value(b),
{
    lemma_stream_of_words_append(a, b);
    lemma_value_of_append(stream_of_words(a), stream_of_words(b));
}

/// A one-word slab spells its word.
proof fn lemma_slab_value_single(w: u64)
    ensures
        slab_value(seq![w]) == w,
{
    let s = stream_of_words(seq![w]);
    assert(s =~= bits_of(w as nat, 64)) by {
        assert forall|p: int| 0 <= p < 64 implies s[p] == bits_of(w as nat, 64)[p] by {
            assert(p / 64 == 0);
            assert(p % 64 == p);
        }
    }
    lemma_value_of_bits_of(w as nat, 64);
    lemma2_to64_rest();
    lemma_small_mod(w as nat, pow2(64));
}

/// A slab spells a number below `2^(64 * len)`.
proof fn lemma_slab_value_bound(words: Seq<u64>)
    ensures
        slab_value(words) < pow2(64 * words.len()),
{
    lemma_value_of_bound(stream_of_words(words));
}

/// Big-integer subtraction in place, `x -= y`, modulo `2^(64 * len)`: the slabs are read as
/// numbers whose first word is the most significant, so the borrow travels from the last
/// word towards the first.
pub fn subtract(x: &mut [u64], y: &[u64])
    requires
        old(x)@.len() == y@.len(),
    ensures
        final(x)@.len() == y@.len(),
        slab_value(final(x)@) == (slab_value(old(x)@) - slab_value(y@)) % (pow2(
            64 * y@.len(),
        ) as int),
{
    let ghost x0 = x@;
    let n = x.len();
    let mut borrow = false;
    let mut i = n;
    proof {
        assert(x@.subrange(n as int, n as int) =~= Seq::<u64>::empty());
        assert(y@.subrange(n as int, n as int) =~= Seq::<u64>::empty());
        assert(stream_of_words(Seq::<u64>::empty()) =~= Seq::<bool>::empty());
    }
    while i > 0
        invariant
            x@.len() == n,
            y@.len() == n,
            x0.len() == n,
            i <= n,
            x@.subrange(0, i as int) == x0.subrange(0, i as int),
            slab_value(x@.subrange(i as int, n as int)) + slab_value(y@.subrange(i as int, n as int))
                == slab_value(x0.subrange(i as int, n as int)) + if borrow {
                pow2((64 * (n - i)) as nat)
            } else {
                0
            },
        decreases i,
    {
        let ghost xs = x@;
        let ghost b0 = borrow;
        i -= 1;
        let y_word = y[i];
        let mut xv = x[i];
        let ghost xv0 = xv;
        if !borrow {
            borrow = xv < y_word;
        } else if xv != 0 {
            xv = xv.wrapping_sub(1);
            borrow = xv < y_word;
        } else {
            xv = xv.wrapping_sub(1);
        }
        let w = xv.wrapping_sub(y_word);
        x[i] = w;
        proof {
            let k = (n - i - 1) as nat;
            let pk = pow2(64 * k);
            let bin: int = if b0 { 1 } else { 0 };
            let bout: int = if borrow { 1 } else { 0 };
            lemma2_to64_rest();
            assert(w + y_word + bin == xv0 + bout * pow2(64));
            assert(x@.subrange(0, i as int) =~= x0.subrange(0, i as int)) by {
                assert(x@.subrange(0, i as int) =~= xs.subrange(0, i as int));
            }
            assert(x@.subrange(i as int, n as int) =~= seq![w] + xs.subrange(i + 1, n as int));
            assert(y@.subrange(i as int, n as int) =~= seq![y_word] + y@.subrange(i + 1, n as int));
            assert(xs.subrange(i + 1, n as int) =~= x@.subrange(i + 1, n as int));
            assert(xs.subrange(0, i + 1) == x0.subrange(0, i + 1));
            assert(xs.subrange(0, i + 1)[i as int] == xs[i as int]);
            assert(x0.subrange(0, i + 1)[i as int] == x0[i as int]);
            assert(x0.subrange(i as int, n as int) =~= seq![xv0] + x0.subrange(i + 1, n as int));
            lemma_slab_value_append(seq![w], xs.subrange(i + 1, n as int));
            lemma_slab_value_append(seq![y_word], y@.subrange(i + 1, n as int));
            lemma_slab_value_append(seq![xv0], x0.subrange(i + 1, n as int));
            lemma_slab_value_single(w);
            lemma_slab_value_single(y_word);
            lemma_slab_value_single(xv0);
            lemma_pow2_adds(64, 64 * k);
            assert(64 * (n - i) == 64 + 64 * k);
            assert((w + y_word + bin) * pk == (xv0 + bout * pow2(64)) * pk);
            assert((w + y_word + bin) * pk == w * pk + y_word * pk + bin * pk) by (nonlinear_arith);
            assert((xv0 + bout * pow2(64)) * pk == xv0 * pk + bout * (pow2(64) * pk))
                by (nonlinear_arith);
        }
    }
    proof {
        assert(x@.subrange(0, n as int) =~= x@);
        assert(y@.subrange(0, n as int) =~= y@);
        assert(x0.subrange(0, n as int) =~= x0);
        let p = pow2((64 * n) as nat);
        lemma_slab_value_bound(x@);
        lemma_pow2_pos((64 * n) as nat);
        let d = slab_value(x0) - slab_value(y@);
        if borrow {
            lemma_fundamental_div_mod_converse(d, p as int, -1, slab_value(x@) as int);
        } else {
            lemma_fundamental_div_mod_converse(d, p as int, 0, slab_value(x@) as int);
        }
    }
}

/// The bits `[i * r, i * r + r)` of a stream: its register `i` when registers have `r` bits.
pub open spec fn field(s: Seq<bool>, r: nat, i: nat) -> Seq<bool> {
    s.subrange((i * r) as int, (i * r + r) as int)
}

/// Register `i` of a slab of registers of `r` bits.
pub open spec fn register_of(words: Seq<u64>, r: nat, i: nat) -> nat {
    value_of(field(stream_of_words(words), r, i))
}

/// The stream of the slab has, among its first `m` registers of `r` bits, exactly the bit at
/// `offset` of each register set.
pub open spec fn is_register_mask(words: Seq<u64>, r: nat, m: nat, offset: nat) -> bool {
    marks_offset(stream_of_words(words), r, m, offset)
}

/// The stream `h` has, among its first `m` registers of `r` bits, exactly the bit at `offset`
/// of each register set.
pub open spec fn marks_offset(h: Seq<bool>, r: nat, m: nat, offset: nat) -> bool {
    forall|p: int| 0 <= p < h.len() ==> #[trigger] h[p] == (p % (r as int) == offset && p / (
    r as int) < m)
}

/// The stream position of the marked bit of register `i`.
pub open spec fn marked_position(i: int, r: nat, offset: nat) -> int {
    i * r + offset
}

/// Read word by word, a register mask sets bit `bit` of word `w` exactly where some register
/// `i` among the first `m` has its marked bit: at stream position `i * r + offset`, which lies
/// in word `(i * r + offset) / 64` at bit `63 - (i * r + offset) % 64`.
pub proof fn lemma_register_mask_bits(words: Seq<u64>, r: nat, m: nat, offset: nat, w: int, bit: nat)
    requires
        is_register_mask(words, r, m, offset),
        offset < r,
        0 <= w < words.len(),
        bit < 64,
    ensures
        ((words[w] >> (bit as u64)) & 1 == 1) <==> exists|i: int|
            0 <= i < m && #[trigger] marked_position(i, r, offset) / 64 == w && bit == 63
                - marked_position(i, r, offset) % 64,
{
    let h = stream_of_words(words);
    let q = 64 * w + 63 - bit;
    assert(0 <= q < h.len());
    assert(q / 64 == w && q % 64 == 63 - bit);
    lemma_bit_at_u64(words[w], bit);
    assert(h[q] == bit_at(words[q / 64] as nat, (63 - q % 64) as nat));
    let ri = r as int;
    if (words[w] >> (bit as u64)) & 1 == 1 {
        let i = q / ri;
        vstd::arithmetic::div_mod::lemma_fundamental_div_mod(q, ri);
        assert(q == i * ri + offset);
        assert(marked_position(i, r, offset) == q);
        assert(0 <= i) by {
            vstd::arithmetic::div_mod::lemma_div_pos_is_pos(q, ri);
        }
    } else {
        assert forall|i: int| !(0 <= i < m && #[trigger] marked_position(i, r, offset) / 64 == w && bit == 63
            - marked_position(i, r, offset) % 64) by {
            if 0 <= i < m && marked_position(i, r, offset) / 64 == w && bit == 63 - marked_position(i, r, offset) % 64 {
                let x = i * ri + offset;
                vstd::arithmetic::div_mod::lemma_fundamental_div_mod(x, 64);
                assert(x == q);
                vstd::arithmetic::div_mod::lemma_fundamental_div_mod_converse(q, ri, i, offset as int);
            }
        }
    }
}

/// The slab `dst` holds `m` registers of `r` bits followed by clear padding, and the two masks
/// mark the most and the least significant bit of each of them.
pub open spec fn merge_shape(
    dst: Seq<u64>,
    msb_mask: Seq<u64>,
    lsb_mask: Seq<u64>,
    r: nat,
    m: nat,
) -> bool {
    &&& m * r <= 64 * dst.len()
    &&& is_register_mask(msb_mask, r, m, 0)
    &&& is_register_mask(lsb_mask, r, m, (r - 1) as nat)
    &&& forall|p: int| m * r <= p < 64 * dst.len() ==> !#[trigger] stream_of_words(dst)[p]
}

/// The larger of two numbers.
pub open spec fn max_nat(a: nat, b: nat) -> nat {
    if a >= b {
        a
    } else {
        b
    }
}

proof fn lemma_div_mod_of(i: int, r: int, j: int)
    requires
        0 <= i,
        0 <= j < r,
    ensures
        (i * r + j) / r == i,
        (i * r + j) % r == j,
{
    lemma_fundamental_div_mod_converse(i * r + j, r, i, j);
}

proof fn lemma_split_position(p: int, r: int)
    requires
        0 <= p,
        0 < r,
    ensures
        p == (p / r) * r + p % r,
        0 <= p % r < r,
        0 <= p / r,
{
    vstd::arithmetic::div_mod::lemma_fundamental_div_mod(p, r);
    lemma_mul_is_commutative(r, p / r);
}

proof fn lemma_field_end(i: int, m: int, r: int)
    requires
        0 <= i < m,
        0 <= r,
    ensures
        i * r + r <= m * r,
        0 <= i * r,
{
    assert(i * r + r <= m * r) by (nonlinear_arith)
        requires
            0 <= i < m,
            0 <= r,
    ;
    assert(0 <= i * r) by (nonlinear_arith)
        requires
            0 <= i,
            0 <= r,
    ;
}

/// The value of a nonempty stream, split at its first bit.
proof fn lemma_value_of_top(f: Seq<bool>)
    requires
        f.len() >= 1,
    ensures
        value_of(f) == (if f[0] {
            pow2((f.len() - 1) as nat)
        } else {
            0
        }) + value_of(f.subrange(1, f.len() as int)),
{
    let a = f.subrange(0, 1);
    let b = f.subrange(1, f.len() as int);
    assert(a + b =~= f);
    lemma_value_of_append(a, b);
    assert(a.drop_last() =~= Seq::<bool>::empty());
    assert(value_of(a.drop_last()) == 0);
    assert(a.last() == f[0]);
    assert(value_of(a) == if f[0] {
        1nat
    } else {
        0nat
    });
    assert(b.len() == f.len() - 1);
    if f[0] {
        assert(value_of(f) == 1 * pow2(b.len()) + value_of(b));
    } else {
        assert(value_of(f) == 0 * pow2(b.len()) + value_of(b));
    }
}

/// A stream of zero bits spells zero.
proof fn lemma_value_of_all_false(s: Seq<bool>)
    requires
        forall|i: int| 0 <= i < s.len() ==> !s[i],
    ensures
        value_of(s) == 0,
    decreases s.len(),
{
    if s.len() > 0 {
        lemma_value_of_all_false(s.drop_last());
    }
}

/// A stream of one bits spells `2^len - 1`.
proof fn lemma_value_of_all_true(s: Seq<bool>)
    requires
        forall|i: int| 0 <= i < s.len() ==> s[i],
    ensures
        value_of(s) + 1 == pow2(s.len()),
    decreases s.len(),
{
    lemma2_to64();
    if s.len() > 0 {
        lemma_value_of_all_true(s.drop_last());
        lemma_pow2_adds((s.len() - 1) as nat, 1);
    }
}

/// Subtracting two streams register by register, when no register of the subtrahend exceeds
/// its counterpart, borrows across no register: each register of the difference is the
/// difference of the registers, and so is the padding after the last register.
proof fn lemma_fieldwise_difference(a: Seq<bool>, b: Seq<bool>, r: nat, m: nat)
    requires
        a.len() == b.len(),
        0 < r,
        m * r <= a.len(),
        forall|i: nat| i < m ==> value_of(#[trigger] field(a, r, i)) >= value_of(field(b, r, i)),
        value_of(a.subrange((m * r) as int, a.len() as int)) >= value_of(
            b.subrange((m * r) as int, b.len() as int),
        ),
    ensures
        value_of(a) >= value_of(b),
        forall|i: nat|
            i < m ==> #[trigger] field(bits_of((value_of(a) - value_of(b)) as nat, a.len()), r, i)
                == bits_of((value_of(field(a, r, i)) - value_of(field(b, r, i))) as nat, r),
        bits_of((value_of(a) - value_of(b)) as nat, a.len()).subrange((m * r) as int, a.len() as int)
            == bits_of(
            (value_of(a.subrange((m * r) as int, a.len() as int)) - value_of(
                b.subrange((m * r) as int, b.len() as int),
            )) as nat,
            (a.len() - m * r) as nat,
        ),
    decreases m,
{
    let len = a.len();
    if m == 0 {
        assert(a.subrange(0, len as int) =~= a);
        assert(b.subrange(0, len as int) =~= b);
        let d = (value_of(a) - value_of(b)) as nat;
        assert(bits_of(d, len).subrange(0, len as int) =~= bits_of(d, len));
    } else {
        let a0 = a.subrange(0, r as int);
        let b0 = b.subrange(0, r as int);
        let a1 = a.subrange(r as int, len as int);
        let b1 = b.subrange(r as int, len as int);
        let m1 = (m - 1) as nat;
        assert(m * r == m1 * r + r) by (nonlinear_arith)
            requires
                m1 == m - 1,
        ;
        assert forall|i: nat| i < m1 implies value_of(#[trigger] field(a1, r, i)) >= value_of(
            field(b1, r, i),
        ) by {
            lemma_field_end(i as int, m1 as int, r as int);
            assert((i + 1) * r == i * r + r) by (nonlinear_arith);
            assert(field(a1, r, i) =~= field(a, r, i + 1));
            assert(field(b1, r, i) =~= field(b, r, i + 1));
        }
        assert(a1.subrange((m1 * r) as int, a1.len() as int) =~= a.subrange((m * r) as int, len as int));
        assert(b1.subrange((m1 * r) as int, b1.len() as int) =~= b.subrange((m * r) as int, len as int));
        lemma_fieldwise_difference(a1, b1, r, m1);
        assert(field(a, r, 0) =~= a0);
        assert(field(b, r, 0) =~= b0);
        let rest = (len - r) as nat;
        assert(a0 + a1 =~= a);
        assert(b0 + b1 =~= b);
        lemma_value_of_append(a0, a1);
        lemma_value_of_append(b0, b1);
        let d0 = (value_of(a0) - value_of(b0)) as nat;
        let d1 = (value_of(a1) - value_of(b1)) as nat;
        lemma_value_of_bound(a1);
        let pr = pow2(rest);
        assert(value_of(a) == value_of(a0) * pr + value_of(a1));
        assert(value_of(b) == value_of(b0) * pr + value_of(b1));
        assert(value_of(a) - value_of(b) == d0 * pr + d1) by (nonlinear_arith)
            requires
                value_of(a) == value_of(a0) * pr + value_of(a1),
                value_of(b) == value_of(b0) * pr + value_of(b1),
                d0 == value_of(a0) - value_of(b0),
                d1 == value_of(a1) - value_of(b1),
        ;
        lemma_bits_of_split(d0, d1, r, rest);
        assert(r + rest == len);
        let d = (value_of(a) - value_of(b)) as nat;
        assert(bits_of(d, len) == bits_of(d0, r) + bits_of(d1, rest));
        assert forall|i: nat| i < m implies #[trigger] field(bits_of(d, len), r, i) == bits_of(
            (value_of(field(a, r, i)) - value_of(field(b, r, i))) as nat,
            r,
        ) by {
            if i == 0 {
                assert(field(bits_of(d, len), r, 0) =~= bits_of(d0, r));
            } else {
                let i1 = (i - 1) as nat;
                lemma_field_end(i1 as int, m1 as int, r as int);
                assert(i * r == i1 * r + r) by (nonlinear_arith)
                    requires
                        i1 == i - 1,
                ;
                assert(field(a1, r, i1) =~= field(a, r, i));
                assert(field(b1, r, i1) =~= field(b, r, i));
                assert(field(bits_of(d, len), r, i) =~= field(bits_of(d1, rest), r, i1));
            }
        }
        assert(bits_of(d, len).subrange((m * r) as int, len as int) =~= bits_of(d1, rest).subrange(
            (m1 * r) as int,
            rest as int,
        ));
    }
}

/// Bitwise or of two streams.
pub open spec fn or_bits(a: Seq<bool>, b: Seq<bool>) -> Seq<bool> {
    Seq::new(a.len(), |p: int| a[p] || b[p])
}

/// The bits of `a` where `b` is clear.
pub open spec fn and_not_bits(a: Seq<bool>, b: Seq<bool>) -> Seq<bool> {
    Seq::new(a.len(), |p: int| a[p] && !b[p])
}


/// The top bit of a number below `2^(k + 1)` is set exactly when it reaches `2^k`.
proof fn lemma_top_bit(x: nat, k: nat)
    requires
        x < pow2(k + 1),
    ensures
        bits_of(x, k + 1)[0] == (x >= pow2(k)),
{
    lemma_pow2_adds(k, 1);
    lemma2_to64();
    lemma_pow2_pos(k);
    assert(bits_of(x, k + 1)[0] == bit_at(x, k));
    if x >= pow2(k) {
        lemma_fundamental_div_mod_converse(x as int, pow2(k) as int, 1, x - pow2(k));
    } else {
        lemma_fundamental_div_mod_converse(x as int, pow2(k) as int, 0, x as int);
    }
}

/// The comparison step of the merge, on streams: with `h` marking the top bit of each
/// register, the difference `(s | h) - (d & !h)` borrows across no register, and the top bit
/// of register `i` of `((diff | (s ^ d)) ^ (s | !d))` tells whether register `i` of `d`
/// exceeds that of `s`.
proof fn lemma_compare_step(d: Seq<bool>, s: Seq<bool>, h: Seq<bool>, r: nat, m: nat)
    requires
        d.len() == s.len(),
        h.len() == s.len(),
        1 <= r,
        m * r <= d.len(),
        marks_offset(h, r, m, 0),
        forall|p: int| m * r <= p < d.len() ==> !d[p],
    ensures
        value_of(or_bits(s, h)) >= value_of(and_not_bits(d, h)),
        forall|i: nat|
            i < m ==> {
                let acc = bits_of(
                    (value_of(or_bits(s, h)) - value_of(and_not_bits(d, h))) as nat,
                    d.len(),
                );
                let p = (i * r) as int;
                ((acc[p] || (s[p] != d[p])) != (s[p] || !d[p])) == (value_of(
                    #[trigger] field(d, r, i),
                ) > value_of(field(s, r, i)))
            },
{
    let len = d.len();
    let a = or_bits(s, h);
    let b = and_not_bits(d, h);
    let top = pow2((r - 1) as nat);
    lemma_pow2_pos((r - 1) as nat);
    assert forall|i: nat| i < m implies value_of(#[trigger] field(a, r, i)) == top + value_of(
        field(s, r, i).subrange(1, r as int),
    ) && value_of(field(b, r, i)) == value_of(field(d, r, i).subrange(1, r as int)) by {
        lemma_field_end(i as int, m as int, r as int);
        lemma_div_mod_of(i as int, r as int, 0);
        lemma_value_of_top(field(a, r, i));
        lemma_value_of_top(field(b, r, i));
        assert forall|j: int| 0 <= j < r - 1 implies #[trigger] field(a, r, i).subrange(
            1,
            r as int,
        )[j] == field(s, r, i).subrange(1, r as int)[j] by {
            lemma_div_mod_of(i as int, r as int, j + 1);
            assert(!h[i * r + j + 1]);
        }
        assert forall|j: int| 0 <= j < r - 1 implies #[trigger] field(b, r, i).subrange(
            1,
            r as int,
        )[j] == field(d, r, i).subrange(1, r as int)[j] by {
            lemma_div_mod_of(i as int, r as int, j + 1);
            assert(!h[i * r + j + 1]);
        }
        assert(field(a, r, i).subrange(1, r as int) =~= field(s, r, i).subrange(1, r as int));
        assert(field(b, r, i).subrange(1, r as int) =~= field(d, r, i).subrange(1, r as int));
    }
    assert forall|i: nat| i < m implies value_of(#[trigger] field(a, r, i)) >= value_of(
        field(b, r, i),
    ) by {
        lemma_field_end(i as int, m as int, r as int);
        lemma_value_of_bound(field(d, r, i).subrange(1, r as int));
    }
    let tb = b.subrange((m * r) as int, len as int);
    assert(value_of(tb) == 0) by {
        lemma_value_of_all_false(tb);
    }
    lemma_fieldwise_difference(a, b, r, m);
    let acc = bits_of((value_of(a) - value_of(b)) as nat, len);
    assert forall|i: nat| i < m implies {
        let p = (i * r) as int;
        ((acc[p] || (s[p] != d[p])) != (s[p] || !d[p])) == (value_of(#[trigger] field(d, r, i))
            > value_of(field(s, r, i)))
    } by {
        let p = (i * r) as int;
        lemma_field_end(i as int, m as int, r as int);
        let lows = value_of(field(s, r, i).subrange(1, r as int));
        let lowd = value_of(field(d, r, i).subrange(1, r as int));
        lemma_value_of_bound(field(s, r, i).subrange(1, r as int));
        lemma_value_of_bound(field(d, r, i).subrange(1, r as int));
        lemma_value_of_top(field(s, r, i));
        lemma_value_of_top(field(d, r, i));
        let dd = (value_of(field(a, r, i)) - value_of(field(b, r, i))) as nat;
        assert(field(acc, r, i) == bits_of(dd, r));
        assert(acc[p] == field(acc, r, i)[0]);
        lemma_pow2_adds((r - 1) as nat, 1);
        lemma2_to64();
        assert(dd < pow2(r));
        assert(((r - 1) as nat) + 1 == r);
        lemma_top_bit(dd, (r - 1) as nat);
        assert(acc[p] == (lows >= lowd));
        assert(s[p] == field(s, r, i)[0]);
        assert(d[p] == field(d, r, i)[0]);
    }
}

/// The stream moved `k` places towards its end, zero bits entering at its front.
pub open spec fn shifted_bits(a: Seq<bool>, k: nat) -> Seq<bool> {
    Seq::new(a.len(), |p: int| p >= k && a[p - k])
}

/// The value of one set bit, `n` clear bits and a last bit `b`.
proof fn lemma_value_of_spread_field(n: nat, b: bool)
    ensures
        value_of(seq![true] + zeros(n) + seq![b]) == pow2(n + 1) + if b {
            1nat
        } else {
            0nat
        },
        value_of(zeros(n) + seq![true]) == 1,
{
    let one = seq![true];
    let last = seq![b];
    lemma2_to64();
    assert(one.drop_last() =~= Seq::<bool>::empty());
    assert(last.drop_last() =~= Seq::<bool>::empty());
    assert(value_of(Seq::<bool>::empty()) == 0);
    assert(value_of(one) == 1);
    assert(value_of(last) == if b {
        1nat
    } else {
        0nat
    });
    lemma_value_of_all_false(zeros(n));
    lemma_value_of_append(one, zeros(n));
    assert(value_of(one + zeros(n)) == pow2(n));
    lemma_value_of_append(one + zeros(n), last);
    lemma_pow2_adds(n, 1);
    lemma_value_of_append(zeros(n), one);
}

/// `2^(r - 1)` and `2^(r - 1) - 1`, written with `r` bits.
proof fn lemma_bits_of_top(r: nat)
    requires
        1 <= r,
    ensures
        forall|j: int| 0 <= j < r ==> #[trigger] bits_of(pow2((r - 1) as nat), r)[j] == (j == 0),
        forall|j: int| 0 <= j < r ==> #[trigger] bits_of((pow2((r - 1) as nat) - 1) as nat, r)[j]
            == (j != 0),
{
    let k = (r - 1) as nat;
    let t = pow2(k);
    lemma_pow2_pos(k);
    lemma2_to64();
    lemma_bits_of_split(1, 0, 1, k);
    assert(1 * t + 0 == t);
    assert(1 + k == r);
    crate::bitstream::lemma_bits_of_zero(k);
    assert(bits_of(1, 1)[0]) by {
        assert(pow2(0) == 1);
        assert(1nat / 1nat == 1);
        assert(bits_of(1, 1)[0] == bit_at(1, 0));
    }
    lemma_bits_of_split(0, (t - 1) as nat, 1, k);
    assert(0 * t + (t - 1) == t - 1);
    let ones = Seq::new(k, |j: int| true);
    lemma_value_of_all_true(ones);
    lemma_bits_of_value_of(ones);
    crate::bitstream::lemma_bits_of_zero(1);
    assert forall|j: int| 0 <= j < r implies #[trigger] bits_of(t, r)[j] == (j == 0) by {
        if j > 0 {
            assert(bits_of(t, r)[j] == bits_of(0, k)[j - 1]);
        }
    }
    assert forall|j: int| 0 <= j < r implies #[trigger] bits_of((t - 1) as nat, r)[j] == (j
        != 0) by {
        if j > 0 {
            assert(bits_of((t - 1) as nat, r)[j] == bits_of((t - 1) as nat, k)[j - 1]);
        } else {
            assert(bits_of((t - 1) as nat, r)[0] == bits_of(0, 1)[0]);
        }
    }
}

/// The spreading step of the merge, on streams: when `z` has at most the top bit of each
/// register set, `((((z >> (r - 1)) | h) - l) | h) ^ z` has every bit of register `i` set
/// exactly when the top bit of register `i` of `z` is clear, and its padding clear; the
/// difference borrows across no register.
proof fn lemma_spread_step(z: Seq<bool>, h: Seq<bool>, l: Seq<bool>, r: nat, m: nat)
    requires
        z.len() == h.len(),
        l.len() == h.len(),
        1 <= r,
        m * r <= z.len(),
        marks_offset(h, r, m, 0),
        marks_offset(l, r, m, (r - 1) as nat),
        forall|p: int| 0 <= p < z.len() && #[trigger] z[p] ==> h[p],
    ensures
        value_of(or_bits(shifted_bits(z, (r - 1) as nat), h)) >= value_of(l),
        forall|p: int|
            0 <= p < z.len() ==> ((bits_of(
                (value_of(or_bits(shifted_bits(z, (r - 1) as nat), h)) - value_of(l)) as nat,
                z.len(),
            )[p] || h[p]) != #[trigger] z[p]) == (p / (r as int) < m && !z[(p / (r as int)) * r]),
{
    if r == 1 {
        lemma_spread_step_one(z, h, l, m);
    } else {
        lemma_spread_step_wide(z, h, l, r, m);
    }
}

/// The spreading step with registers of one bit: the shift is void and the mask is `h & !z`.
proof fn lemma_spread_step_one(z: Seq<bool>, h: Seq<bool>, l: Seq<bool>, m: nat)
    requires
        z.len() == h.len(),
        l.len() == h.len(),
        m <= z.len(),
        marks_offset(h, 1, m, 0),
        marks_offset(l, 1, m, 0),
        forall|p: int| 0 <= p < z.len() && #[trigger] z[p] ==> h[p],
    ensures
        value_of(or_bits(shifted_bits(z, 0), h)) >= value_of(l),
        forall|p: int|
            0 <= p < z.len() ==> ((bits_of(
                (value_of(or_bits(shifted_bits(z, 0), h)) - value_of(l)) as nat,
                z.len(),
            )[p] || h[p]) != #[trigger] z[p]) == (p / 1 < m && !z[(p / 1) * 1]),
{
    let a = or_bits(shifted_bits(z, 0), h);
    assert(a =~= l);
    assert(h =~= l);
    crate::bitstream::lemma_bits_of_zero(z.len());
    assert forall|p: int| 0 <= p < z.len() implies ((bits_of(0, z.len())[p] || h[p])
        != #[trigger] z[p]) == (p / 1 < m && !z[(p / 1) * 1]) by {
        assert(p / 1 == p);
        assert(p % 1 == 0);
    }
}

proof fn lemma_spread_step_wide(z: Seq<bool>, h: Seq<bool>, l: Seq<bool>, r: nat, m: nat)
    requires
        z.len() == h.len(),
        l.len() == h.len(),
        2 <= r,
        m * r <= z.len(),
        marks_offset(h, r, m, 0),
        marks_offset(l, r, m, (r - 1) as nat),
        forall|p: int| 0 <= p < z.len() && #[trigger] z[p] ==> h[p],
    ensures
        value_of(or_bits(shifted_bits(z, (r - 1) as nat), h)) >= value_of(l),
        forall|p: int|
            0 <= p < z.len() ==> ((bits_of(
                (value_of(or_bits(shifted_bits(z, (r - 1) as nat), h)) - value_of(l)) as nat,
                z.len(),
            )[p] || h[p]) != #[trigger] z[p]) == (p / (r as int) < m && !z[(p / (r as int)) * r]),
{
    let len = z.len();
    let ri = r as int;
    let k = (r - 1) as nat;
    let a = or_bits(shifted_bits(z, k), h);
    let top = pow2(k);
    lemma_pow2_pos(k);
    assert forall|i: nat| i < m implies #[trigger] field(a, r, i) =~= seq![true] + zeros(
        (r - 2) as nat,
    ) + seq![z[(i * r) as int]] by {
        lemma_field_end(i as int, m as int, ri);
        assert forall|j: int| 0 <= j < r implies #[trigger] field(a, r, i)[j] == (seq![true]
            + zeros((r - 2) as nat) + seq![z[(i * r) as int]])[j] by {
            let p = i * r + j;
            lemma_div_mod_of(i as int, ri, j);
            if 1 <= j < r - 1 && i >= 1 {
                let q = (i - 1) * r + j + 1;
                assert(q == p - k) by (nonlinear_arith)
                    requires
                        q == (i - 1) * r + j + 1,
                        p == i * r + j,
                        k == r - 1,
                ;
                lemma_div_mod_of(i - 1, ri, j + 1);
                assert(!h[q]);
            }
            if j == r - 1 {
                assert(p - k == i * r);
            }
        }
    }
    assert forall|i: nat| i < m implies #[trigger] field(l, r, i) =~= zeros((r - 1) as nat)
        + seq![true] by {
        lemma_field_end(i as int, m as int, ri);
        assert forall|j: int| 0 <= j < r implies #[trigger] field(l, r, i)[j] == (zeros(
            (r - 1) as nat,
        ) + seq![true])[j] by {
            lemma_div_mod_of(i as int, ri, j);
        }
    }
    assert forall|i: nat| i < m implies value_of(#[trigger] field(a, r, i)) == top + (if z[(i
        * r) as int] {
        1nat
    } else {
        0nat
    }) && value_of(field(l, r, i)) == 1 by {
        lemma_value_of_spread_field((r - 2) as nat, z[(i * r) as int]);
        lemma_value_of_spread_field((r - 1) as nat, true);
        assert((r - 2) as nat + 1 == k);
    }
    // The padding of both streams is clear.
    let ta = a.subrange((m * r) as int, len as int);
    let tl = l.subrange((m * r) as int, len as int);
    assert forall|p: int| m * r <= p < len implies !a[p] && !l[p] by {
        lemma_split_position(p, ri);
        if p / ri < m {
            assert((p / ri) * ri + ri <= m * ri) by (nonlinear_arith)
                requires
                    p / ri < m,
                    ri > 0,
            ;
        }
        if p >= k && z[p - k] {
            let q = p - k;
            lemma_split_position(q, ri);
            assert(h[q]);
            assert((q / ri) * ri <= (m - 1) * ri) by (nonlinear_arith)
                requires
                    q / ri <= m - 1,
                    ri > 0,
            ;
            assert((m - 1) * ri == m * ri - ri) by (nonlinear_arith);
        }
    }
    assert forall|j: int| 0 <= j < ta.len() implies !#[trigger] ta[j] by {
        assert(ta[j] == a[m * r + j]);
    }
    assert forall|j: int| 0 <= j < tl.len() implies !#[trigger] tl[j] by {
        assert(tl[j] == l[m * r + j]);
    }
    lemma_value_of_all_false(ta);
    lemma_value_of_all_false(tl);
    assert forall|i: nat| i < m implies value_of(#[trigger] field(a, r, i)) >= value_of(
        field(l, r, i),
    ) by {}
    lemma_fieldwise_difference(a, l, r, m);
    let m1 = bits_of((value_of(a) - value_of(l)) as nat, len);
    lemma_bits_of_top(r);
    crate::bitstream::lemma_bits_of_zero((len - m * r) as nat);
    assert forall|p: int| 0 <= p < len implies ((m1[p] || h[p]) != #[trigger] z[p]) == (p / ri
        < m && !z[(p / ri) * r]) by {
        lemma_split_position(p, ri);
        let i = p / ri;
        let j = p % ri;
        if i < m {
            lemma_field_end(i, m as int, ri);
            assert(m1[p] == field(m1, r, i as nat)[j]);
            lemma_div_mod_of(i, ri, 0);
            if z[p] {
                assert(h[p]);
            }
            if j == 0 {
                assert(p == i * r);
            }
        } else {
            assert(i * ri >= m * ri) by (nonlinear_arith)
                requires
                    i >= m,
                    ri > 0,
            ;
            assert(m1.subrange((m * r) as int, len as int)[p - m * r] == m1[p]);
            if z[p] {
                assert(h[p]);
            }
        }
    }
}

/// Where a bit of the stream of a slab sits in its words.
proof fn lemma_stream_position(words: Seq<u64>, p: int)
    requires
        0 <= p < stream_of_words(words).len(),
    ensures
        0 <= p / 64 < words.len(),
        0 <= 63 - p % 64 < 64,
        stream_of_words(words)[p] == bit_at(words[p / 64] as nat, (63 - p % 64) as nat),
{
}

/// Word-wise or, on streams.
proof fn lemma_stream_or(a: Seq<u64>, b: Seq<u64>, c: Seq<u64>)
    requires
        a.len() == c.len(),
        b.len() == c.len(),
        forall|k: int| 0 <= k < c.len() ==> #[trigger] c[k] == a[k] | b[k],
    ensures
        stream_of_words(c) == or_bits(stream_of_words(a), stream_of_words(b)),
{
    assert forall|p: int| 0 <= p < stream_of_words(c).len() implies #[trigger] stream_of_words(
        c,
    )[p] == or_bits(stream_of_words(a), stream_of_words(b))[p] by {
        lemma_stream_position(c, p);
        let k = p / 64;
        lemma_bit_logic(a[k], b[k], (63 - p % 64) as u64);
    }
    assert(stream_of_words(c) =~= or_bits(stream_of_words(a), stream_of_words(b)));
}

/// Word-wise `a & !b`, on streams.
proof fn lemma_stream_and_not(a: Seq<u64>, b: Seq<u64>, c: Seq<u64>)
    requires
        a.len() == c.len(),
        b.len() == c.len(),
        forall|k: int| 0 <= k < c.len() ==> #[trigger] c[k] == a[k] & !b[k],
    ensures
        stream_of_words(c) == and_not_bits(stream_of_words(a), stream_of_words(b)),
{
    assert forall|p: int| 0 <= p < stream_of_words(c).len() implies #[trigger] stream_of_words(
        c,
    )[p] == and_not_bits(stream_of_words(a), stream_of_words(b))[p] by {
        lemma_stream_position(c, p);
        let k = p / 64;
        let j = (63 - p % 64) as u64;
        lemma_bit_logic(a[k], !b[k], j);
        lemma_bit_logic(b[k], b[k], j);
    }
    assert(stream_of_words(c) =~= and_not_bits(stream_of_words(a), stream_of_words(b)));
}

/// The comparison formula of the merge, word-wise, on streams.
proof fn lemma_stream_compare(
    acc: Seq<u64>,
    s: Seq<u64>,
    d: Seq<u64>,
    h: Seq<u64>,
    c: Seq<u64>,
)
    requires
        acc.len() == c.len(),
        s.len() == c.len(),
        d.len() == c.len(),
        h.len() == c.len(),
        forall|k: int|
            0 <= k < c.len() ==> #[trigger] c[k] == ((acc[k] | (s[k] ^ d[k])) ^ (s[k] | !d[k]))
                & h[k],
    ensures
        forall|p: int|
            0 <= p < stream_of_words(c).len() ==> #[trigger] stream_of_words(c)[p] == (((
            stream_of_words(acc)[p] || (stream_of_words(s)[p] != stream_of_words(d)[p]))
                != (stream_of_words(s)[p] || !stream_of_words(d)[p])) && stream_of_words(h)[p]),
{
    assert forall|p: int| 0 <= p < stream_of_words(c).len() implies #[trigger] stream_of_words(
        c,
    )[p] == (((stream_of_words(acc)[p] || (stream_of_words(s)[p] != stream_of_words(d)[p]))
        != (stream_of_words(s)[p] || !stream_of_words(d)[p])) && stream_of_words(h)[p]) by {
        lemma_stream_position(c, p);
        let k = p / 64;
        let j = (63 - p % 64) as u64;
        let x = acc[k];
        let y = s[k];
        let w = d[k];
        lemma_bit_logic(y, w, j);
        lemma_bit_logic(x, y ^ w, j);
        lemma_bit_logic(y, !w, j);
        lemma_bit_logic(w, w, j);
        lemma_bit_logic(x | (y ^ w), y | !w, j);
        lemma_bit_logic((x | (y ^ w)) ^ (y | !w), h[k], j);
    }
}

/// The shift of the merge, word-wise: every bit moves `sh` places towards the end of the
/// stream, crossing word boundaries, and `h` is or-ed in.
proof fn lemma_stream_shift(acc: Seq<u64>, h: Seq<u64>, c: Seq<u64>, sh: u64)
    requires
        acc.len() == c.len(),
        h.len() == c.len(),
        sh < 64,
        sh == 0 ==> c.len() <= 1,
        c.len() > 0 ==> c[0] == (acc[0] >> sh) | h[0],
        forall|k: int|
            1 <= k < c.len() ==> #[trigger] c[k] == ((acc[k] >> sh) | (acc[k - 1] << ((64
                - sh) as u64))) | h[k],
    ensures
        stream_of_words(c) == or_bits(shifted_bits(stream_of_words(acc), sh as nat), stream_of_words(h)),
{
    let sa = stream_of_words(acc);
    assert forall|p: int| 0 <= p < stream_of_words(c).len() implies #[trigger] stream_of_words(
        c,
    )[p] == or_bits(shifted_bits(sa, sh as nat), stream_of_words(h))[p] by {
        lemma_stream_position(c, p);
        let k = p / 64;
        let t = p % 64;
        let j = (63 - t) as u64;
        lemma_bit_shr(acc[k], sh, j);
        if t >= sh {
            assert((p - sh) / 64 == k);
            assert((p - sh) % 64 == t - sh);
        }
        if k == 0 {
            lemma_bit_logic(acc[k] >> sh, h[k], j);
        } else {
            let hi = acc[k - 1] << ((64 - sh) as u64);
            lemma_bit_shl(acc[k - 1], (64 - sh) as u64, j);
            lemma_bit_logic(acc[k] >> sh, hi, j);
            lemma_bit_logic((acc[k] >> sh) | hi, h[k], j);
            if t < sh {
                assert((p - sh) / 64 == k - 1);
                assert((p - sh) % 64 == 64 + t - sh);
            }
        }
    }
    assert(stream_of_words(c) =~= or_bits(shifted_bits(sa, sh as nat), stream_of_words(h)));
}

/// The last step of the spreading, word-wise: `(a | h) ^ z`.
proof fn lemma_stream_or_xor(a: Seq<u64>, h: Seq<u64>, z: Seq<u64>, c: Seq<u64>)
    requires
        a.len() == c.len(),
        h.len() == c.len(),
        z.len() == c.len(),
        forall|k: int| 0 <= k < c.len() ==> #[trigger] c[k] == (a[k] | h[k]) ^ z[k],
    ensures
        forall|p: int|
            0 <= p < stream_of_words(c).len() ==> #[trigger] stream_of_words(c)[p] == ((
            stream_of_words(a)[p] || stream_of_words(h)[p]) != stream_of_words(z)[p]),
{
    assert forall|p: int| 0 <= p < stream_of_words(c).len() implies #[trigger] stream_of_words(
        c,
    )[p] == ((stream_of_words(a)[p] || stream_of_words(h)[p]) != stream_of_words(z)[p]) by {
        lemma_stream_position(c, p);
        let k = p / 64;
        let j = (63 - p % 64) as u64;
        lemma_bit_logic(a[k], h[k], j);
        lemma_bit_logic(a[k] | h[k], z[k], j);
    }
}

/// The selection of the merge, word-wise: `d ^ (mask & (d ^ s))` takes the bits of `s` where
/// the mask is set and those of `d` elsewhere.
proof fn lemma_stream_select(d: Seq<u64>, mask: Seq<u64>, s: Seq<u64>, c: Seq<u64>)
    requires
        d.len() == c.len(),
        mask.len() == c.len(),
        s.len() == c.len(),
        forall|k: int| 0 <= k < c.len() ==> #[trigger] c[k] == d[k] ^ (mask[k] & (d[k] ^ s[k])),
    ensures
        forall|p: int|
            0 <= p < stream_of_words(c).len() ==> #[trigger] stream_of_words(c)[p] == if stream_of_words(
                mask,
            )[p] {
                stream_of_words(s)[p]
            } else {
                stream_of_words(d)[p]
            },
{
    assert forall|p: int| 0 <= p < stream_of_words(c).len() implies #[trigger] stream_of_words(
        c,
    )[p] == if stream_of_words(mask)[p] {
        stream_of_words(s)[p]
    } else {
        stream_of_words(d)[p]
    } by {
        lemma_stream_position(c, p);
        let k = p / 64;
        let j = (63 - p % 64) as u64;
        lemma_bit_logic(d[k], s[k], j);
        lemma_bit_logic(mask[k], d[k] ^ s[k], j);
        lemma_bit_logic(d[k], mask[k] & (d[k] ^ s[k]), j);
    }
}

/// The merge, on streams, once each of its steps has been read bit by bit: register `i` of the
/// result is the larger of registers `i` of `d` and `s`, and the padding is kept.
proof fn lemma_merge_registers(
    d: Seq<bool>,
    s: Seq<bool>,
    h: Seq<bool>,
    l: Seq<bool>,
    a2: Seq<bool>,
    z: Seq<bool>,
    m3: Seq<bool>,
    mask: Seq<bool>,
    out: Seq<bool>,
    r: nat,
    m: nat,
)
    requires
        s.len() == d.len(),
        h.len() == d.len(),
        l.len() == d.len(),
        a2.len() == d.len(),
        z.len() == d.len(),
        m3.len() == d.len(),
        mask.len() == d.len(),
        out.len() == d.len(),
        1 <= r,
        m * r <= d.len(),
        marks_offset(h, r, m, 0),
        marks_offset(l, r, m, (r - 1) as nat),
        forall|p: int| m * r <= p < d.len() ==> !#[trigger] d[p],
        value_of(a2) == (value_of(or_bits(s, h)) - value_of(and_not_bits(d, h))) % (pow2(
            d.len(),
        ) as int),
        forall|p: int|
            0 <= p < d.len() ==> #[trigger] z[p] == (((a2[p] || (s[p] != d[p])) != (s[p]
                || !d[p])) && h[p]),
        value_of(m3) == (value_of(or_bits(shifted_bits(z, (r - 1) as nat), h)) - value_of(l)) % (
        pow2(d.len()) as int),
        forall|p: int| 0 <= p < d.len() ==> #[trigger] mask[p] == ((m3[p] || h[p]) != z[p]),
        forall|p: int|
            0 <= p < d.len() ==> #[trigger] out[p] == if mask[p] {
                s[p]
            } else {
                d[p]
            },
    ensures
        forall|i: nat|
            i < m ==> value_of(#[trigger] field(out, r, i)) == max_nat(
                value_of(field(d, r, i)),
                value_of(field(s, r, i)),
            ),
        forall|p: int| m * r <= p < d.len() ==> #[trigger] out[p] == d[p],
{
    let len = d.len();
    let ri = r as int;
    lemma_pow2_pos(len);
    lemma_compare_step(d, s, h, r, m);
    lemma_value_of_bound(or_bits(s, h));
    let diff1 = value_of(or_bits(s, h)) - value_of(and_not_bits(d, h));
    lemma_small_mod(diff1 as nat, pow2(len));
    lemma_bits_of_value_of(a2);
    assert(a2 == bits_of(diff1 as nat, len));
    assert forall|p: int| 0 <= p < z.len() && #[trigger] z[p] implies h[p] by {}
    lemma_spread_step(z, h, l, r, m);
    let a3 = or_bits(shifted_bits(z, (r - 1) as nat), h);
    lemma_value_of_bound(a3);
    let diff2 = value_of(a3) - value_of(l);
    lemma_small_mod(diff2 as nat, pow2(len));
    lemma_bits_of_value_of(m3);
    assert(m3 == bits_of(diff2 as nat, len));
    assert forall|i: nat| i < m implies value_of(#[trigger] field(out, r, i)) == max_nat(
        value_of(field(d, r, i)),
        value_of(field(s, r, i)),
    ) by {
        lemma_field_end(i as int, m as int, ri);
        let p0 = (i * r) as int;
        lemma_div_mod_of(i as int, ri, 0);
        assert(h[p0]);
        assert(z[p0] == ((a2[p0] || (s[p0] != d[p0])) != (s[p0] || !d[p0])));
        assert(value_of(field(d, r, i)) == value_of(field(d, r, i)));
        assert(z[p0] == (value_of(field(d, r, i)) > value_of(field(s, r, i))));
        assert forall|j: int| 0 <= j < r implies #[trigger] mask[p0 + j] == !z[p0] by {
            lemma_div_mod_of(i as int, ri, j);
            assert(z[p0 + j] == (((a2[p0 + j] || (s[p0 + j] != d[p0 + j])) != (s[p0 + j]
                || !d[p0 + j])) && h[p0 + j]));
        }
        if z[p0] {
            assert forall|j: int| 0 <= j < r implies #[trigger] field(out, r, i)[j] == field(
                d,
                r,
                i,
            )[j] by {
                assert(mask[p0 + j] == !z[p0]);
            }
            assert(field(out, r, i) =~= field(d, r, i));
        } else {
            assert forall|j: int| 0 <= j < r implies #[trigger] field(out, r, i)[j] == field(
                s,
                r,
                i,
            )[j] by {
                assert(mask[p0 + j] == !z[p0]);
            }
            assert(field(out, r, i) =~= field(s, r, i));
        }
    }
    assert forall|p: int| m * r <= p < len implies #[trigger] out[p] == d[p] by {
        lemma_split_position(p, ri);
        if p / ri < m {
            assert((p / ri) * ri + ri <= m * ri) by (nonlinear_arith)
                requires
                    p / ri < m,
                    ri > 0,
            ;
        }
        assert(z[p] == (((a2[p] || (s[p] != d[p])) != (s[p] || !d[p])) && h[p]));
        assert(mask[p] == ((m3[p] || h[p]) != z[p]));
    }
}

/// Where the bit at `offset_from_reg_msb` of register `i` sits in a slab: the index of its
/// word and its place in the word, counted from the least significant bit.
fn register_bit_position(i: usize, register_size: usize, offset_from_reg_msb: usize) -> (res: (
    usize,
    u32,
))
    requires
        i * register_size + offset_from_reg_msb <= usize::MAX,
    ensures
        res.0 == (i * register_size + offset_from_reg_msb) / 64,
        res.1 == 63 - (i * register_size + offset_from_reg_msb) % 64,
{
    let stream_pos = i * register_size + offset_from_reg_msb;
    proof {
        assert((stream_pos as u32) % 64 == (stream_pos % 64) as u32) by (bit_vector);
    }
    (stream_pos / 64, 63 - (stream_pos as u32 % 64))
}

/// Fills `out` with the mask of the bit at `offset_from_reg_msb` of each of the first
/// `num_regs` registers of `register_size` bits; bits past the end of `out` are dropped.
fn build_register_mask(
    out: &mut [u64],
    register_size: usize,
    num_regs: usize,
    offset_from_reg_msb: usize,
)
    requires
        offset_from_reg_msb < register_size,
        num_regs * register_size <= usize::MAX,
    ensures
        final(out)@.len() == old(out)@.len(),
        is_register_mask(final(out)@, register_size as nat, num_regs as nat, offset_from_reg_msb as nat),
{
    let num_words = out.len();
    let ghost r = register_size as int;
    let ghost off = offset_from_reg_msb as int;
    let mut k: usize = 0;
    while k < num_words
        invariant
            out@.len() == num_words,
            k <= num_words,
            forall|j: int| 0 <= j < k ==> out@[j] == 0,
        decreases num_words - k,
    {
        out[k] = 0;
        k += 1;
    }
    proof {
        assert forall|p: int| 0 <= p < stream_of_words(out@).len() implies #[trigger] stream_of_words(
            out@,
        )[p] == (p % r == off && p / r < 0) by {
            lemma_stream_position(out@, p);
            lemma_bit_constants((63 - p % 64) as u64);
        }
    }
    let mut i: usize = 0;
    while i < num_regs
        invariant
            out@.len() == num_words,
            i <= num_regs,
            r == register_size,
            off == offset_from_reg_msb,
            off < r,
            num_regs * register_size <= usize::MAX,
            forall|p: int|
                0 <= p < stream_of_words(out@).len() ==> #[trigger] stream_of_words(out@)[p] == (p
                    % r == off && p / r < i),
        decreases num_regs - i,
    {
        proof {
            lemma_field_end(i as int, num_regs as int, r);
        }
        let (word, bit_in_word) = register_bit_position(i, register_size, offset_from_reg_msb);
        let ghost q = i * register_size + offset_from_reg_msb;
        let ghost before = out@;
        if word < num_words {
            let bit = 1u64 << (bit_in_word as u64);
            out[word] = out[word] | bit;
            proof {
                assert forall|p: int| 0 <= p < stream_of_words(out@).len() implies #[trigger] stream_of_words(
                    out@,
                )[p] == (stream_of_words(before)[p] || p == q) by {
                    lemma_stream_position(out@, p);
                    lemma_stream_position(before, p);
                    let j = (63 - p % 64) as u64;
                    if p / 64 == word {
                        lemma_bit_logic(before[p / 64], bit, j);
                        lemma_bit_shl(1, bit_in_word as u64, j);
                        if j >= bit_in_word {
                            lemma_bit_constants((j - bit_in_word) as u64);
                        }
                    }
                }
            }
        } else {
            proof {
                assert(out@ == before);
                assert(q >= 64 * num_words);
            }
        }
        proof {
            assert forall|p: int| 0 <= p < stream_of_words(out@).len() implies #[trigger] stream_of_words(
                out@,
            )[p] == (p % r == off && p / r < i + 1) by {
                lemma_div_mod_of(i as int, r, off);
                lemma_split_position(p, r);
                if p % r == off && p / r == i {
                    assert(p == q);
                }
                assert(stream_of_words(before)[p] == (p % r == off && p / r < i));
                if word < num_words {
                    assert(stream_of_words(out@)[p] == (stream_of_words(before)[p] || p == q));
                }
            }
        }
        i += 1;
    }
}

/// Fills `out` with the mask of the most significant bit of each of the first `num_regs`
/// registers of `register_size` bits, registers packed from the most significant bit of the
/// first word on; bits past the end of `out` are dropped.
pub fn build_msb_mask(out: &mut [u64], register_size: usize, num_regs: usize)
    requires
        1 <= register_size,
        num_regs * register_size <= usize::MAX,
    ensures
        final(out)@.len() == old(out)@.len(),
        is_register_mask(final(out)@, register_size as nat, num_regs as nat, 0),
{
    build_register_mask(out, register_size, num_regs, 0);
}

/// Fills `out` with the mask of the least significant bit of each of the first `num_regs`
/// registers of `register_size` bits, registers packed from the most significant bit of the
/// first word on; bits past the end of `out` are dropped.
pub fn build_lsb_mask(out: &mut [u64], register_size: usize, num_regs: usize)
    requires
        1 <= register_size,
        num_regs * register_size <= usize::MAX,
    ensures
        final(out)@.len() == old(out)@.len(),
        is_register_mask(final(out)@, register_size as nat, num_regs as nat, (register_size - 1) as nat),
{
    build_register_mask(out, register_size, num_regs, register_size - 1);
}

/// Register-wise maximum of `dst` and `src`, stored in `dst`.
///
/// Both slabs hold registers of `register_size` bits packed from the most significant bit of
/// their first word on; `msb_mask` and `lsb_mask` mark the most and the least significant bit
/// of each register (see [`build_msb_mask`] and [`build_lsb_mask`]). `acc` and
/// `mask_scratch` are scratch space of the length of `dst`: their contents on entry are
/// ignored and on return unspecified. Whenever `dst` holds `m` registers followed by clear
/// padding and the masks mark those `m` registers, each of them ends up as the larger of
/// itself and its counterpart in `src`, and the padding stays clear.
pub fn merge_max_broadword(
    dst: &mut [u64],
    src: &[u64],
    msb_mask: &[u64],
    lsb_mask: &[u64],
    register_size: usize,
    acc: &mut [u64],
    mask_scratch: &mut [u64],
)
    requires
        src@.len() == old(dst)@.len(),
        msb_mask@.len() == old(dst)@.len(),
        lsb_mask@.len() == old(dst)@.len(),
        old(acc)@.len() == old(dst)@.len(),
        old(mask_scratch)@.len() == old(dst)@.len(),
        1 <= register_size <= 64,
        register_size == 1 ==> old(dst)@.len() <= 1,
    ensures
        final(dst)@.len() == old(dst)@.len(),
        final(acc)@.len() == old(acc)@.len(),
        final(mask_scratch)@.len() == old(mask_scratch)@.len(),
        forall|m: nat|
            #![trigger merge_shape(old(dst)@, msb_mask@, lsb_mask@, register_size as nat, m)]
            merge_shape(old(dst)@, msb_mask@, lsb_mask@, register_size as nat, m) ==> {
                &&& forall|i: nat|
                    i < m ==> #[trigger] register_of(final(dst)@, register_size as nat, i)
                        == max_nat(
                        register_of(old(dst)@, register_size as nat, i),
                        register_of(src@, register_size as nat, i),
                    )
                &&& forall|p: int|
                    m * register_size <= p < 64 * old(dst)@.len() ==> #[trigger] stream_of_words(
                        final(dst)@,
                    )[p] == stream_of_words(old(dst)@)[p]
            },
{
    let ghost d0 = dst@;
    let n = dst.len();
    if n == 0 {
        proof {
            assert forall|m: nat|
                #![trigger merge_shape(d0, msb_mask@, lsb_mask@, register_size as nat, m)]
                merge_shape(d0, msb_mask@, lsb_mask@, register_size as nat, m) implies forall|
                i: nat,
            | i < m ==> #[trigger] register_of(dst@, register_size as nat, i) == max_nat(
                register_of(d0, register_size as nat, i),
                register_of(src@, register_size as nat, i),
            ) by {
                assert(m * register_size <= 0);
                assert(m == 0) by (nonlinear_arith)
                    requires
                        m * register_size <= 0,
                        register_size >= 1,
                ;
            }
        }
        return ;
    }
    let register_size_minus_1 = register_size - 1;
    let shift_top = 64 - register_size_minus_1;
    // Phase 1: the top bit of each register of `acc` tells whether `dst` exceeds `src` there.
    let mut i: usize = 0;
    while i < n
        invariant
            acc@.len() == n,
            src@.len() == n,
            msb_mask@.len() == n,
            i <= n,
            forall|k: int| 0 <= k < i ==> #[trigger] acc@[k] == src@[k] | msb_mask@[k],
        decreases n - i,
    {
        acc[i] = src[i] | msb_mask[i];
        i += 1;
    }
    let ghost a1 = acc@;
    let mut i: usize = 0;
    while i < n
        invariant
            mask_scratch@.len() == n,
            dst@.len() == n,
            msb_mask@.len() == n,
            i <= n,
            forall|k: int| 0 <= k < i ==> #[trigger] mask_scratch@[k] == dst@[k] & !msb_mask@[k],
        decreases n - i,
    {
        mask_scratch[i] = dst[i] & !msb_mask[i];
        i += 1;
    }
    let ghost b1 = mask_scratch@;
    subtract(acc, mask_scratch);
    let ghost a2 = acc@;
    let mut i: usize = 0;
    while i < n
        invariant
            acc@.len() == n,
            src@.len() == n,
            dst@.len() == n,
            msb_mask@.len() == n,
            a2.len() == n,
            i <= n,
            forall|k: int|
                0 <= k < i ==> #[trigger] acc@[k] == ((a2[k] | (src@[k] ^ dst@[k])) ^ (src@[k]
                    | !dst@[k])) & msb_mask@[k],
            forall|k: int| i <= k < n ==> #[trigger] acc@[k] == a2[k],
        decreases n - i,
    {
        let dv = dst[i];
        let sv = src[i];
        let mv = msb_mask[i];
        acc[i] = ((acc[i] | (sv ^ dv)) ^ (sv | !dv)) & mv;
        i += 1;
    }
    let ghost z = acc@;
    // Phase 2: spread the top bit of each register of `acc` over the whole register, inverted.
    mask_scratch[0] = (acc[0] >> register_size_minus_1) | msb_mask[0];
    let mut k: usize = 1;
    while k < n
        invariant
            mask_scratch@.len() == n,
            acc@.len() == n,
            msb_mask@.len() == n,
            1 <= k <= n,
            register_size_minus_1 < 64,
            shift_top == 64 - register_size_minus_1,
            register_size_minus_1 == 0 ==> n <= 1,
            mask_scratch@[0] == (acc@[0] >> register_size_minus_1) | msb_mask@[0],
            forall|j: int|
                1 <= j < k ==> #[trigger] mask_scratch@[j] == ((acc@[j] >> register_size_minus_1)
                    | (acc@[j - 1] << shift_top)) | msb_mask@[j],
        decreases n - k,
    {
        let lo = acc[k] >> register_size_minus_1;
        let hi = acc[k - 1] << shift_top;
        mask_scratch[k] = (lo | hi) | msb_mask[k];
        k += 1;
    }
    let ghost m2 = mask_scratch@;
    subtract(mask_scratch, lsb_mask);
    let ghost m3 = mask_scratch@;
    let mut i: usize = 0;
    while i < n
        invariant
            mask_scratch@.len() == n,
            acc@.len() == n,
            msb_mask@.len() == n,
            m3.len() == n,
            i <= n,
            forall|k: int|
                0 <= k < i ==> #[trigger] mask_scratch@[k] == (m3[k] | msb_mask@[k]) ^ acc@[k],
            forall|k: int| i <= k < n ==> #[trigger] mask_scratch@[k] == m3[k],
        decreases n - i,
    {
        mask_scratch[i] = (mask_scratch[i] | msb_mask[i]) ^ acc[i];
        i += 1;
    }
    let ghost mk = mask_scratch@;
    // Phase 3: take `src` where the mask is set, keep `dst` elsewhere.
    let mut i: usize = 0;
    while i < n
        invariant
            dst@.len() == n,
            src@.len() == n,
            mask_scratch@.len() == n,
            d0.len() == n,
            i <= n,
            forall|k: int|
                0 <= k < i ==> #[trigger] dst@[k] == d0[k] ^ (mask_scratch@[k] & (d0[k]
                    ^ src@[k])),
            forall|k: int| i <= k < n ==> #[trigger] dst@[k] == d0[k],
        decreases n - i,
    {
        dst[i] = dst[i] ^ (mask_scratch[i] & (dst[i] ^ src[i]));
        i += 1;
    }
    proof {
        let r = register_size as nat;
        let sd = stream_of_words(d0);
        let ss = stream_of_words(src@);
        let sh = stream_of_words(msb_mask@);
        let sl = stream_of_words(lsb_mask@);
        lemma_stream_or(src@, msb_mask@, a1);
        lemma_stream_and_not(d0, msb_mask@, b1);
        lemma_stream_compare(a2, src@, d0, msb_mask@, z);
        assert forall|j: int| 1 <= j < n implies #[trigger] m2[j] == ((z[j] >> (
        register_size_minus_1 as u64)) | (z[j - 1] << ((64 - register_size_minus_1) as u64)))
            | msb_mask@[j] by {}
        lemma_stream_shift(z, msb_mask@, m2, register_size_minus_1 as u64);
        lemma_stream_or_xor(m3, msb_mask@, z, mk);
        lemma_stream_select(d0, mk, src@, dst@);
        assert forall|m: nat|
            #![trigger merge_shape(d0, msb_mask@, lsb_mask@, r, m)]
            merge_shape(d0, msb_mask@, lsb_mask@, r, m) implies {
            &&& forall|i: nat|
                i < m ==> #[trigger] register_of(dst@, r, i) == max_nat(
                    register_of(d0, r, i),
                    register_of(src@, r, i),
                )
            &&& forall|p: int|
                m * r <= p < 64 * d0.len() ==> #[trigger] stream_of_words(dst@)[p]
                    == stream_of_words(d0)[p]
        } by {
            lemma_merge_registers(
                sd,
                ss,
                sh,
                sl,
                stream_of_words(a2),
                stream_of_words(z),
                stream_of_words(m3),
                stream_of_words(mk),
                stream_of_words(dst@),
                r,
                m,
            );
        }
    }
}

} // verus!
