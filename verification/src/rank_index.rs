//! The rank index of a prefix-free coded list of gap hashes: at the end of the buffer, one
//! entry per bucket of hashes (all buckets but the first) with the largest hash of the list
//! in the bucket and the bit index at which the code of the gap that leads to it starts.
use crate::bitreader::BitReader;
use crate::bitstream::{bits_of, overwrite, stream_of_words, value_of};
use crate::bitwriter::BitWriter;
use crate::gap_list::gap_list_code;
use crate::gaps::empty_rank_index;
use crate::bitstream::zeros;
use crate::gaps::{
    fits_bits, lemma_bits_of_all_ones, lemma_rank_index_precision, has_rank_index_spec,
    rank_index_bits_spec, rank_index_capacity_spec, rank_index_total_size_spec, GapHash,
};
use crate::precisions::{Bits, Precision};
use vstd::arithmetic::power2::pow2;
use vstd::prelude::*;

verus! {

/// The bucket of the rank index that a hash of `hb` bits falls in: the largest hashes fall in
/// the first bucket.
pub open spec fn rank_bucket(p: u8, hb: u8, hash: u32) -> int {
    rank_index_capacity_spec(p) - hash as nat / pow2((hb - (p - 9)) as nat) - 1
}

/// The bit index of a marker of an entry that holds no hash yet: all ones.
pub open spec fn rank_mask(p: u8, b: u8) -> nat {
    (pow2(rank_index_bits_spec(p, b) as nat) - 1) as nat
}

/// The number of bits of an entry of the rank index.
pub open spec fn rank_entry_size(p: u8, b: u8, hb: u8) -> nat {
    (rank_index_bits_spec(p, b) + hb) as nat
}

/// The bit at which the entry of bucket `bucket` (from one on) starts, in a buffer of `words`
/// words.
pub open spec fn rank_entry_start(p: u8, b: u8, hb: u8, words: nat, bucket: int) -> int {
    64 * words - rank_index_total_size_spec(p, b, hb) + (bucket - 1) * rank_entry_size(p, b, hb)
}

/// The bit index that the entry starting at `start` holds.
pub open spec fn entry_bit_index(s: Seq<bool>, start: int, p: u8, b: u8) -> nat {
    value_of(s.subrange(start, start + rank_index_bits_spec(p, b)))
}

/// The hash that the entry starting at `start` holds.
pub open spec fn entry_hash(s: Seq<bool>, start: int, p: u8, b: u8, hb: u8) -> nat {
    value_of(
        s.subrange(start + rank_index_bits_spec(p, b), start + rank_index_bits_spec(p, b) + hb),
    )
}

/// The code of an entry: a bit index and a hash.
pub open spec fn entry_code(bit_index: nat, hash: nat, p: u8, b: u8, hb: u8) -> Seq<bool> {
    bits_of(bit_index, rank_index_bits_spec(p, b) as nat) + bits_of(hash, hb as nat)
}

/// The stream `s` with the bit indices of the initialised entries of buckets `first + 1` to
/// `last` moved: to `after` for the entry that holds `successor`, by `shift` for the others.
pub open spec fn shifted_entries(
    s: Seq<bool>,
    p: u8,
    b: u8,
    hb: u8,
    words: nat,
    first: int,
    last: int,
    successor: u32,
    after: u32,
    shift: u32,
) -> Seq<bool>
    decreases last - first,
{
    if last <= first {
        s
    } else {
        let previous = shifted_entries(s, p, b, hb, words, first, last - 1, successor, after, shift);
        let start = rank_entry_start(p, b, hb, words, last);
        let index = entry_bit_index(s, start, p, b);
        if index == rank_mask(p, b) {
            previous
        } else {
            let moved = if entry_hash(s, start, p, b, hb) == successor {
                after as nat
            } else {
                (index + shift) as nat
            };
            overwrite(previous, start, bits_of(moved, rank_index_bits_spec(p, b) as nat))
        }
    }
}

/// The stream `s` of a buffer of `words` words after `hash`, whose gap code starts at bit
/// `bit_index` of the list, is recorded in the entry of its bucket: the entry is overwritten
/// when the bucket is not the first and the entry holds no hash yet or a smaller one.
pub open spec fn rank_update(s: Seq<bool>, p: u8, b: u8, hb: u8, words: nat, bit_index: u32, hash: u32) -> Seq<bool> {
    let bucket = rank_bucket(p, hb, hash);
    let start = rank_entry_start(p, b, hb, words, bucket);
    if bucket > 0 && (entry_hash(s, start, p, b, hb) < hash || entry_bit_index(s, start, p, b)
        == rank_mask(p, b)) {
        overwrite(s, start, entry_code(bit_index as nat, hash as nat, p, b, hb))
    } else {
        s
    }
}

/// The stream `s` after each `(bit index, hash)` pair of `updates` is recorded in turn.
pub open spec fn rank_updates(s: Seq<bool>, p: u8, b: u8, hb: u8, words: nat, updates: Seq<(u32, u32)>) -> Seq<bool>
    decreases updates.len(),
{
    if updates.len() == 0 {
        s
    } else {
        rank_update(
            rank_updates(s, p, b, hb, words, updates.drop_last()),
            p,
            b,
            hb,
            words,
            updates.last().0,
            updates.last().1,
        )
    }
}

/// Where a search for a hash of bucket `bucket` starts: the bit index and the hash of the entry
/// of the nearest bucket from `bucket` down that holds a hash, or else the start of the list and
/// the hash that stands there.
pub open spec fn search_start(s: Seq<bool>, p: u8, b: u8, hb: u8, words: nat, bucket: int) -> (nat, nat)
    decreases bucket,
{
    if bucket <= 0 {
        (0, value_of(s.subrange(0, hb as int)))
    } else {
        let start = rank_entry_start(p, b, hb, words, bucket);
        let index = entry_bit_index(s, start, p, b);
        if index != rank_mask(p, b) {
            (index, entry_hash(s, start, p, b, hb))
        } else {
            search_start(s, p, b, hb, words, bucket - 1)
        }
    }
}

/// Whether hash `i` of the decreasing list `m` is the first of the list in its bucket of the
/// rank index, and not the first hash of the list.
pub open spec fn opens_bucket(p: u8, hb: u8, m: Seq<u32>, i: int) -> bool {
    1 <= i < m.len() && rank_bucket(p, hb, m[i]) > rank_bucket(p, hb, m[i - 1])
}

/// The entries that writing the first `t` hashes of the list `m` records in its rank index, in
/// order: each hash that opens its bucket, with the bit at which the code of the gap leading to
/// it starts.
pub open spec fn opener_updates(p: u8, b: u8, hb: u8, m: Seq<u32>, k: nat, t: nat) -> Seq<(u32, u32)>
    decreases t,
{
    if t == 0 {
        Seq::empty()
    } else {
        let previous = opener_updates(p, b, hb, m, k, (t - 1) as nat);
        let i = t - 1;
        if opens_bucket(p, hb, m, i) {
            previous.push(
                (gap_list_code(p as u32, b as u32, m.take(i), hb as u32, k).len() as u32, m[i]),
            )
        } else {
            previous
        }
    }
}

/// Whether the entry of bucket `j` in the stream `s` of a buffer of `words` words is the one
/// the first `t` hashes of the list `m` call for: the hash among them that opens the bucket,
/// with the bit at which the code of the gap leading to it starts, or no hash when none opens it.
pub open spec fn entry_of_list(
    s: Seq<bool>,
    p: u8,
    b: u8,
    hb: u8,
    words: nat,
    m: Seq<u32>,
    k: nat,
    t: nat,
    j: int,
) -> bool {
    let start = rank_entry_start(p, b, hb, words, j);
    &&& forall|i: int|
        #![trigger opens_bucket(p, hb, m, i)]
        opens_bucket(p, hb, m, i) && i < t && rank_bucket(p, hb, m[i]) == j ==> entry_bit_index(
            s,
            start,
            p,
            b,
        ) == gap_list_code(p as u32, b as u32, m.take(i), hb as u32, k).len() && entry_hash(
            s,
            start,
            p,
            b,
            hb,
        ) == m[i]
    &&& (forall|i: int|
        #![trigger opens_bucket(p, hb, m, i)]
        opens_bucket(p, hb, m, i) && i < t ==> rank_bucket(p, hb, m[i]) != j) ==> entry_bit_index(
        s,
        start,
        p,
        b,
    ) == rank_mask(p, b)
}

/// Whether the rank index in the stream `s` of a buffer of `words` words is the one of the
/// list `m`: each bucket records the hash of `m` that opens it, or nothing.
pub open spec fn is_rank_index_of(s: Seq<bool>, p: u8, b: u8, hb: u8, words: nat, m: Seq<u32>, k: nat) -> bool {
    forall|j: int|
        1 <= j < rank_index_capacity_spec(p) ==> #[trigger] entry_of_list(s, p, b, hb, words, m, k, m.len(), j)
}

/// A larger hash falls in the same bucket or an earlier one.
pub proof fn lemma_bucket_order(p: u8, hb: u8, x: u32, y: u32)
    requires
        x >= y,
        hb >= p - 9,
    ensures
        rank_bucket(p, hb, x) <= rank_bucket(p, hb, y),
{
    vstd::arithmetic::power2::lemma_pow2_pos((hb - (p - 9)) as nat);
    vstd::arithmetic::div_mod::lemma_div_is_ordered(y as int, x as int, pow2((hb - (p - 9)) as nat) as int);
}

/// A hash of `hb` bits falls in one of the buckets.
pub proof fn lemma_bucket_range(p: u8, hb: u8, x: u32)
    requires
        9 <= p,
        p - 9 <= hb,
        fits_bits(x, hb as u32),
        hb <= 32,
    ensures
        0 <= rank_bucket(p, hb, x) < rank_index_capacity_spec(p),
{
    let d = pow2((hb - (p - 9)) as nat) as int;
    let c = pow2((p - 9) as nat) as int;
    vstd::arithmetic::power2::lemma_pow2_pos((hb - (p - 9)) as nat);
    vstd::arithmetic::power2::lemma_pow2_adds((hb - (p - 9)) as nat, (p - 9) as nat);
    vstd::arithmetic::power2::lemma2_to64();
    vstd::arithmetic::power2::lemma_pow2_strictly_increases(hb as nat, 64);
    vstd::bits::lemma_u64_shl_is_mul(1, hb as u64);
    let xi = x as int;
    assert(xi < d * c);
    assert(xi / d < c) by (nonlinear_arith)
        requires
            xi < d * c,
            d > 0,
            xi >= 0,
    ;
    assert(xi / d >= 0) by (nonlinear_arith)
        requires
            d > 0,
            xi >= 0,
    ;
}

/// What a stretch of a stream reads after part of the stream is overwritten: the stretch as it
/// was, where it lies apart from the part written, or the bits written, where it lies inside.
pub proof fn lemma_overwrite_read(s: Seq<bool>, start: int, bits: Seq<bool>, a: int, len: int)
    requires
        0 <= start,
        start + bits.len() <= s.len(),
        0 <= a,
        0 <= len,
        a + len <= s.len(),
    ensures
        overwrite(s, start, bits).len() == s.len(),
        a + len <= start || start + bits.len() <= a ==> overwrite(s, start, bits).subrange(a, a + len)
            == s.subrange(a, a + len),
        start <= a && a + len <= start + bits.len() ==> overwrite(s, start, bits).subrange(a, a + len)
            == bits.subrange(a - start, a - start + len),
{
    let o = overwrite(s, start, bits);
    assert(o.len() == s.len());
    if a + len <= start || start + bits.len() <= a {
        assert(o.subrange(a, a + len) =~= s.subrange(a, a + len));
    }
    if start <= a && a + len <= start + bits.len() {
        assert(o.subrange(a, a + len) =~= bits.subrange(a - start, a - start + len));
    }
}

/// The entries of the rank index lie side by side at the end of the buffer.
pub proof fn lemma_entry_place(p: u8, b: u8, hb: u8, words: nat, j: int)
    requires
        10 <= p <= 18,
        4 <= b <= 6,
        hb <= 32,
        has_rank_index_spec(p, b),
        rank_index_total_size_spec(p, b, hb) <= 64 * words,
        1 <= j < rank_index_capacity_spec(p),
    ensures
        64 * words - rank_index_total_size_spec(p, b, hb) <= rank_entry_start(p, b, hb, words, j),
        rank_entry_start(p, b, hb, words, j) + rank_entry_size(p, b, hb) <= 64 * words,
        rank_entry_size(p, b, hb) == rank_index_bits_spec(p, b) + hb,
{
    let size = rank_entry_size(p, b, hb) as int;
    let c = rank_index_capacity_spec(p) as int;
    assert((j - 1) * size >= 0) by (nonlinear_arith)
        requires
            j >= 1,
            size >= 0,
    ;
    assert((j - 1) * size + size <= (c - 1) * size) by (nonlinear_arith)
        requires
            1 <= j <= c - 1,
            size >= 0,
    ;
}

/// Entries of two different buckets do not overlap.
pub proof fn lemma_entries_apart(p: u8, b: u8, hb: u8, words: nat, i: int, j: int)
    requires
        i != j,
    ensures
        rank_entry_start(p, b, hb, words, i) + rank_entry_size(p, b, hb) <= rank_entry_start(
            p,
            b,
            hb,
            words,
            j,
        ) || rank_entry_start(p, b, hb, words, j) + rank_entry_size(p, b, hb) <= rank_entry_start(
            p,
            b,
            hb,
            words,
            i,
        ),
{
    let size = rank_entry_size(p, b, hb) as int;
    if i < j {
        assert((i - 1) * size + size <= (j - 1) * size) by (nonlinear_arith)
            requires
                i < j,
                size >= 0,
        ;
    } else {
        assert((j - 1) * size + size <= (i - 1) * size) by (nonlinear_arith)
            requires
                j < i,
                size >= 0,
        ;
    }
}

/// Recording `hash` with bit index `position` in the entry of its bucket: that entry reads
/// them back, every other entry reads as before.
pub proof fn lemma_entry_written(
    s: Seq<bool>,
    p: u8,
    b: u8,
    hb: u8,
    words: nat,
    position: nat,
    hash: u32,
    j: int,
)
    requires
        10 <= p <= 18,
        4 <= b <= 6,
        hb <= 32,
        has_rank_index_spec(p, b),
        s.len() == 64 * words,
        rank_index_total_size_spec(p, b, hb) <= 64 * words,
        1 <= j < rank_index_capacity_spec(p),
        1 <= rank_bucket(p, hb, hash) < rank_index_capacity_spec(p),
        position < pow2(rank_index_bits_spec(p, b) as nat),
        fits_bits(hash, hb as u32),
    ensures
        ({
            let w = overwrite(
                s,
                rank_entry_start(p, b, hb, words, rank_bucket(p, hb, hash)),
                entry_code(position, hash as nat, p, b, hb),
            );
            &&& w.len() == s.len()
            &&& j == rank_bucket(p, hb, hash) ==> entry_bit_index(
                w,
                rank_entry_start(p, b, hb, words, j),
                p,
                b,
            ) == position && entry_hash(w, rank_entry_start(p, b, hb, words, j), p, b, hb)
                == hash
            &&& j != rank_bucket(p, hb, hash) ==> entry_bit_index(
                w,
                rank_entry_start(p, b, hb, words, j),
                p,
                b,
            ) == entry_bit_index(s, rank_entry_start(p, b, hb, words, j), p, b) && entry_hash(
                w,
                rank_entry_start(p, b, hb, words, j),
                p,
                b,
                hb,
            ) == entry_hash(s, rank_entry_start(p, b, hb, words, j), p, b, hb)
        }),
{
    let jh = rank_bucket(p, hb, hash);
    let rb = rank_index_bits_spec(p, b) as int;
    let code = entry_code(position, hash as nat, p, b, hb);
    let sh = rank_entry_start(p, b, hb, words, jh);
    let sj = rank_entry_start(p, b, hb, words, j);
    lemma_entry_place(p, b, hb, words, jh);
    lemma_entry_place(p, b, hb, words, j);
    assert(code.len() == rb + hb);
    lemma_overwrite_read(s, sh, code, sj, rb);
    lemma_overwrite_read(s, sh, code, sj + rb, hb as int);
    if j == jh {
        let bits = bits_of(position, rb as nat);
        let hbits = bits_of(hash as nat, hb as nat);
        assert(code.subrange(0, rb) =~= bits);
        assert(code.subrange(rb, rb + hb) =~= hbits);
        crate::bitstream::lemma_value_of_bits_of(position, rb as nat);
        crate::bitstream::lemma_value_of_bits_of(hash as nat, hb as nat);
        vstd::arithmetic::power2::lemma2_to64();
        vstd::arithmetic::power2::lemma_pow2_strictly_increases(hb as nat, 64);
        vstd::bits::lemma_u64_shl_is_mul(1, hb as u64);
        vstd::arithmetic::div_mod::lemma_small_mod(position, pow2(rb as nat));
        vstd::arithmetic::div_mod::lemma_small_mod(hash as nat, pow2(hb as nat));
    } else {
        lemma_entries_apart(p, b, hb, words, j, jh);
    }
}

/// Recording, into a rank index with every entry empty, the entries that writing the first `t`
/// hashes of a decreasing list records gives the rank index of those hashes.
pub proof fn lemma_opener_index(
    s0: Seq<bool>,
    p: u8,
    b: u8,
    hb: u8,
    words: nat,
    m: Seq<u32>,
    k: nat,
    t: nat,
)
    requires
        10 <= p <= 18,
        4 <= b <= 6,
        p + b <= hb <= 32,
        has_rank_index_spec(p, b),
        s0.len() == 64 * words,
        rank_index_total_size_spec(p, b, hb) <= 64 * words,
        t <= m.len(),
        forall|x: int, y: int| 0 <= x < y < m.len() ==> m[x] > m[y],
        forall|i: int| 0 <= i < m.len() ==> fits_bits(#[trigger] m[i], hb as u32),
        forall|i: int|
            #![trigger opens_bucket(p, hb, m, i)]
            opens_bucket(p, hb, m, i) ==> gap_list_code(p as u32, b as u32, m.take(i), hb as u32, k).len()
                < rank_mask(p, b),
        forall|j: int|
            1 <= j < rank_index_capacity_spec(p) ==> entry_bit_index(
                s0,
                #[trigger] rank_entry_start(p, b, hb, words, j),
                p,
                b,
            ) == rank_mask(p, b),
    ensures
        rank_updates(s0, p, b, hb, words, opener_updates(p, b, hb, m, k, t)).len() == s0.len(),
        forall|j: int|
            1 <= j < rank_index_capacity_spec(p) ==> #[trigger] entry_of_list(
                rank_updates(s0, p, b, hb, words, opener_updates(p, b, hb, m, k, t)),
                p,
                b,
                hb,
                words,
                m,
                k,
                t,
                j,
            ),
    decreases t,
{
    let updates = opener_updates(p, b, hb, m, k, t);
    let s = rank_updates(s0, p, b, hb, words, updates);
    if t == 0 {
        assert forall|j: int| 1 <= j < rank_index_capacity_spec(p) implies #[trigger] entry_of_list(
            s, p, b, hb, words, m, k, t, j) by {
            assert(entry_bit_index(s0, rank_entry_start(p, b, hb, words, j), p, b) == rank_mask(p, b));
        }
    } else {
        let i = t - 1;
        lemma_opener_index(s0, p, b, hb, words, m, k, (t - 1) as nat);
        let previous = opener_updates(p, b, hb, m, k, (t - 1) as nat);
        let s1 = rank_updates(s0, p, b, hb, words, previous);
        if opens_bucket(p, hb, m, i) {
            let position = gap_list_code(p as u32, b as u32, m.take(i), hb as u32, k).len();
            let hash = m[i];
            let jh = rank_bucket(p, hb, hash);
            vstd::arithmetic::power2::lemma2_to64();
            vstd::arithmetic::power2::lemma_pow2_strictly_increases(rank_index_bits_spec(p, b) as nat, 32);
            assert(updates.drop_last() =~= previous);
            assert(updates.last() == (position as u32, hash));
            assert(fits_bits(m[i - 1], hb as u32));
            assert(fits_bits(hash, hb as u32));
            lemma_bucket_range(p, hb, m[i - 1]);
            lemma_bucket_range(p, hb, hash);
            assert forall|x: int| #![trigger opens_bucket(p, hb, m, x)] opens_bucket(p, hb, m, x) && x < i implies rank_bucket(p, hb, m[x]) != jh by {
                lemma_bucket_order(p, hb, m[x], m[i - 1]);
            }
            assert(entry_of_list(s1, p, b, hb, words, m, k, (t - 1) as nat, jh));
            assert(entry_bit_index(s1, rank_entry_start(p, b, hb, words, jh), p, b) == rank_mask(p, b));
            assert(s == rank_update(s1, p, b, hb, words, position as u32, hash));
            lemma_entry_written(s1, p, b, hb, words, position, hash, jh);
            assert forall|j: int| 1 <= j < rank_index_capacity_spec(p) implies #[trigger] entry_of_list(
                s, p, b, hb, words, m, k, t, j) by {
                lemma_entry_written(s1, p, b, hb, words, position, hash, j);
                assert(entry_of_list(s1, p, b, hb, words, m, k, (t - 1) as nat, j));
                if j != jh {
                    assert forall|x: int| #![trigger opens_bucket(p, hb, m, x)] opens_bucket(p, hb, m, x) && x < t
                        && rank_bucket(p, hb, m[x]) == j implies x < i by {}
                }
            }
        } else {
            assert(updates == previous);
            assert forall|j: int| 1 <= j < rank_index_capacity_spec(p) implies #[trigger] entry_of_list(
                s, p, b, hb, words, m, k, t, j) by {
                assert(entry_of_list(s1, p, b, hb, words, m, k, (t - 1) as nat, j));
            }
        }
    }
}

/// Each entry of a freshly initialised rank index starts with a bit index of all ones.
proof fn lemma_empty_index_entry(bits: nat, hb: nat, count: nat, j: int)
    requires
        1 <= j <= count,
    ensures
        empty_rank_index(bits, hb, count).len() == count * (bits + hb),
        empty_rank_index(bits, hb, count).subrange(
            (j - 1) * (bits + hb),
            (j - 1) * (bits + hb) + bits,
        ) == Seq::new(bits, |i: int| true),
    decreases count,
{
    let size = (bits + hb) as int;
    let rest = empty_rank_index(bits, hb, (count - 1) as nat);
    if count > 1 {
        lemma_empty_index_entry(bits, hb, (count - 1) as nat, if j < count {
            j
        } else {
            1
        });
    }
    if count == 1 {
        assert(rest.len() == 0);
        assert((count - 1) * size == 0) by (nonlinear_arith)
            requires
                count == 1,
        ;
    }
    assert(rest.len() == (count - 1) * size);
    assert(count * size == (count - 1) * size + size) by (nonlinear_arith);
    let whole = empty_rank_index(bits, hb, count);
    assert(whole == rest + Seq::new(bits, |i: int| true) + zeros(hb));
    if j == count {
        assert(whole.subrange((j - 1) * size, (j - 1) * size + bits) =~= Seq::new(bits, |i: int| true));
    } else {
        assert((j - 1) * size + bits <= (count - 1) * size) by (nonlinear_arith)
            requires
                1 <= j < count,
                size == bits + hb,
        ;
        assert((j - 1) * size >= 0) by (nonlinear_arith)
            requires
                1 <= j,
                size >= 0,
        ;
        assert(whole.subrange((j - 1) * size, (j - 1) * size + bits) =~= rest.subrange(
            (j - 1) * size,
            (j - 1) * size + bits,
        ));
    }
}

/// Every entry of a freshly initialised rank index is empty, also once the start of the buffer,
/// up to the rank index, is overwritten.
pub proof fn lemma_fresh_index(s: Seq<bool>, p: u8, b: u8, hb: u8, words: nat, code: Seq<bool>, j: int)
    requires
        10 <= p <= 18,
        4 <= b <= 6,
        hb <= 32,
        has_rank_index_spec(p, b),
        s.len() == 64 * words,
        rank_index_total_size_spec(p, b, hb) <= 64 * words,
        code.len() + rank_index_total_size_spec(p, b, hb) <= 64 * words,
        1 <= j < rank_index_capacity_spec(p),
    ensures
        entry_bit_index(
            overwrite(
                overwrite(
                    s,
                    64 * words - rank_index_total_size_spec(p, b, hb),
                    empty_rank_index(
                        rank_index_bits_spec(p, b) as nat,
                        hb as nat,
                        (rank_index_capacity_spec(p) - 1) as nat,
                    ),
                ),
                0,
                code,
            ),
            rank_entry_start(p, b, hb, words, j),
            p,
            b,
        ) == rank_mask(p, b),
{
    let rb = rank_index_bits_spec(p, b) as nat;
    let c = (rank_index_capacity_spec(p) - 1) as nat;
    let offset = 64 * words - rank_index_total_size_spec(p, b, hb);
    let e = empty_rank_index(rb, hb as nat, c);
    lemma_empty_index_entry(rb, hb as nat, c, j);
    lemma_entry_place(p, b, hb, words, j);
    assert(e.len() == rank_index_total_size_spec(p, b, hb));
    let start = rank_entry_start(p, b, hb, words, j);
    let s1 = overwrite(s, offset, e);
    lemma_overwrite_read(s, offset, e, start, rb as int);
    lemma_overwrite_read(s1, 0, code, start, rb as int);
    assert(start - offset == (j - 1) * (rb + hb));
    crate::gaps::lemma_bits_of_all_ones(rb);
    crate::bitstream::lemma_value_of_bits_of((pow2(rb) - 1) as nat, rb);
    vstd::arithmetic::power2::lemma_pow2_pos(rb);
    vstd::arithmetic::div_mod::lemma_small_mod((pow2(rb) - 1) as nat, pow2(rb));
}

/// Moving the bit indices of the entries of buckets `first + 1` to `last`: each such entry that
/// holds a hash gets its moved bit index, every other bit index and every hash reads as before.
pub proof fn lemma_shifted_entry(
    s: Seq<bool>,
    p: u8,
    b: u8,
    hb: u8,
    words: nat,
    first: int,
    last: int,
    successor: u32,
    after: u32,
    shift: u32,
    j: int,
)
    requires
        10 <= p <= 18,
        4 <= b <= 6,
        hb <= 32,
        has_rank_index_spec(p, b),
        s.len() == 64 * words,
        rank_index_total_size_spec(p, b, hb) <= 64 * words,
        0 <= first,
        last < rank_index_capacity_spec(p),
        1 <= j < rank_index_capacity_spec(p),
        (after as nat) < pow2(rank_index_bits_spec(p, b) as nat),
        forall|q: int|
            first < q <= last && entry_bit_index(s, #[trigger] rank_entry_start(p, b, hb, words, q), p, b)
                != rank_mask(p, b) ==> entry_bit_index(s, rank_entry_start(p, b, hb, words, q), p, b)
                + shift < pow2(rank_index_bits_spec(p, b) as nat),
    ensures
        shifted_entries(s, p, b, hb, words, first, last, successor, after, shift).len() == s.len(),
        entry_hash(
            shifted_entries(s, p, b, hb, words, first, last, successor, after, shift),
            rank_entry_start(p, b, hb, words, j),
            p,
            b,
            hb,
        ) == entry_hash(s, rank_entry_start(p, b, hb, words, j), p, b, hb),
        entry_bit_index(
            shifted_entries(s, p, b, hb, words, first, last, successor, after, shift),
            rank_entry_start(p, b, hb, words, j),
            p,
            b,
        ) == if first < j <= last && entry_bit_index(s, rank_entry_start(p, b, hb, words, j), p, b)
            != rank_mask(p, b) {
            if entry_hash(s, rank_entry_start(p, b, hb, words, j), p, b, hb) == successor {
                after as nat
            } else {
                (entry_bit_index(s, rank_entry_start(p, b, hb, words, j), p, b) + shift) as nat
            }
        } else {
            entry_bit_index(s, rank_entry_start(p, b, hb, words, j), p, b)
        },
    decreases last - first,
{
    if last > first {
        lemma_shifted_entry(s, p, b, hb, words, first, last - 1, successor, after, shift, j);
        if last >= 1 {
            lemma_shifted_entry(s, p, b, hb, words, first, last - 1, successor, after, shift, last);
        }
        let previous = shifted_entries(s, p, b, hb, words, first, last - 1, successor, after, shift);
        let start = rank_entry_start(p, b, hb, words, last);
        let index = entry_bit_index(s, start, p, b);
        if index != rank_mask(p, b) && last >= 1 {
            let rb = rank_index_bits_spec(p, b) as nat;
            let moved = if entry_hash(s, start, p, b, hb) == successor {
                after as nat
            } else {
                (index + shift) as nat
            };
            let code = bits_of(moved, rb);
            let sj = rank_entry_start(p, b, hb, words, j);
            lemma_entry_place(p, b, hb, words, last);
            lemma_entry_place(p, b, hb, words, j);
            lemma_overwrite_read(previous, start, code, sj, rb as int);
            lemma_overwrite_read(previous, start, code, sj + rb, hb as int);
            if j == last {
                assert(code.subrange(0, rb as int) =~= code);
                crate::bitstream::lemma_value_of_bits_of(moved, rb);
                vstd::arithmetic::div_mod::lemma_small_mod(moved, pow2(rb));
            } else {
                lemma_entries_apart(p, b, hb, words, j, last);
            }
        }
    }
}

impl<P: Precision, B: Bits> GapHash<P, B> {
    /// The bucket of the rank index that a hash of `hash_bits` bits falls in.
    pub fn rank_index_hash_bucket(hash_bits: u8, hash: u32) -> (bucket: u32)
        requires
            has_rank_index_spec(P::spec_exponent(), B::spec_number_of_bits()),
            P::spec_exponent() - 9 <= hash_bits <= 32,
            fits_bits(hash, hash_bits as u32),
        ensures
            bucket == rank_bucket(P::spec_exponent(), hash_bits, hash),
            bucket < rank_index_capacity_spec(P::spec_exponent()),
    {
        proof {
            P::lemma_exponent_range();
            B::lemma_number_of_bits_range();
            lemma_rank_index_precision(P::spec_exponent(), B::spec_number_of_bits());
        }
        let exponent = Self::rank_index_exponent();
        let capacity = Self::rank_index_capacity();
        let shift = (hash_bits - exponent) as u32;
        proof {
            let e = exponent as nat;
            let d = shift as nat;
            vstd::arithmetic::power2::lemma2_to64();
            vstd::arithmetic::power2::lemma_pow2_adds(d, e);
            vstd::arithmetic::power2::lemma_pow2_pos(d);
            vstd::arithmetic::power2::lemma_pow2_strictly_increases(d, 32);
            vstd::bits::lemma_u32_shl_is_mul(1, shift);
            let hl = hash_bits as u64;
            vstd::arithmetic::power2::lemma_pow2_strictly_increases(hash_bits as nat, 64);
            vstd::bits::lemma_u64_shl_is_mul(1, hl);
            assert((hash as nat) < pow2(d) * pow2(e));
            vstd::arithmetic::div_mod::lemma_multiply_divide_lt(
                hash as int,
                pow2(d) as int,
                pow2(e) as int,
            );
        }
        capacity - hash / (1u32 << shift) - 1
    }

    /// Records `hash`, whose gap code starts at bit `bit_index` of the list, in the entry of
    /// its bucket, when that entry holds no hash yet or a smaller one.
    pub fn update_rank_index(hashes: &mut Vec<u64>, hash_bits: u8, bit_index: u32, hash: u32)
        requires
            has_rank_index_spec(P::spec_exponent(), B::spec_number_of_bits()),
            P::spec_exponent() - 9 <= hash_bits <= 32,
            fits_bits(hash, hash_bits as u32),
            0 < old(hashes)@.len() <= 0x01ff_ffff,
            rank_index_total_size_spec(P::spec_exponent(), B::spec_number_of_bits(), hash_bits) <= 64
                * old(hashes)@.len(),
        ensures
            final(hashes)@.len() == old(hashes)@.len(),
            stream_of_words(final(hashes)@) == rank_update(
                stream_of_words(old(hashes)@),
                P::spec_exponent(),
                B::spec_number_of_bits(),
                hash_bits,
                old(hashes)@.len() as nat,
                bit_index,
                hash,
            ),
            0 <= rank_bucket(P::spec_exponent(), hash_bits, hash) < rank_index_capacity_spec(P::spec_exponent()),
            ({
                let p = P::spec_exponent();
                let b = B::spec_number_of_bits();
                let s = stream_of_words(old(hashes)@);
                let bucket = rank_bucket(p, hash_bits, hash);
                let start = rank_entry_start(p, b, hash_bits, old(hashes)@.len() as nat, bucket);
                if bucket > 0 && (entry_hash(s, start, p, b, hash_bits) < hash
                    || entry_bit_index(s, start, p, b) == rank_mask(p, b)) {
                    stream_of_words(final(hashes)@) == overwrite(
                        s,
                        start,
                        entry_code(bit_index as nat, hash as nat, p, b, hash_bits),
                    )
                } else {
                    final(hashes)@ == old(hashes)@
                }
            }),
    {
        proof {
            P::lemma_exponent_range();
            B::lemma_number_of_bits_range();
            lemma_rank_index_precision(P::spec_exponent(), B::spec_number_of_bits());
        }
        let bucket = Self::rank_index_hash_bucket(hash_bits, hash);
        if bucket == 0 {
            return ;
        }
        let bits = Self::rank_index_bits();
        let capacity = Self::rank_index_capacity();
        let entry = (bits + hash_bits) as u32;
        let offset = Self::rank_index_offset(hashes, hash_bits);
        proof {
            assert((bucket - 1) * entry + entry <= (capacity - 1) * entry) by (nonlinear_arith)
                requires
                    bucket < capacity,
                    1 <= bucket,
            ;
            assert((capacity - 1) * entry <= 511 * 53) by (nonlinear_arith)
                requires
                    capacity <= 512,
                    entry <= 53,
            ;
            assert(rank_index_total_size_spec(P::spec_exponent(), B::spec_number_of_bits(), hash_bits)
                == (capacity - 1) * entry);
        }
        let position = offset + (bucket - 1) * entry;
        let ghost s = stream_of_words(hashes@);
        let mut reader = BitReader::skip(hashes.as_slice(), position);
        let bucket_bit_index = reader.read_bits(bits);
        let bucket_hash = reader.read_bits(hash_bits);
        if bucket_hash < (hash as u64) || bucket_bit_index == (Self::rank_index_mask() as u64) {
            let mut data: Vec<u64> = Vec::new();
            core::mem::swap(&mut data, hashes);
            let mut writer = BitWriter::new(data);
            writer.seek(position);
            writer.write_bits(bit_index as u64, bits);
            writer.write_bits(hash as u64, hash_bits);
            proof {
                writer.lemma_view_len();
                crate::bitstream::lemma_overwrite_compose(
                    s,
                    position as int,
                    bits_of(bit_index as nat, bits as nat),
                    bits_of(hash as nat, hash_bits as nat),
                );
            }
            *hashes = writer.into_words();
        }
    }

    /// Moves the bit indices of the entries of the buckets after that of `hash`, once the
    /// codes from the position of `hash` on have moved by `shift` bits: the entry that holds
    /// `successor_hash`, the hash right after `hash`, now points at `bit_index_after_hash`.
    pub fn shift_index(
        hashes: &mut Vec<u64>,
        hash: u32,
        bit_index_after_hash: u32,
        successor_hash: u32,
        hash_bits: u8,
        shift: u32,
    )
        requires
            has_rank_index_spec(P::spec_exponent(), B::spec_number_of_bits()),
            P::spec_exponent() + B::spec_number_of_bits() <= hash_bits <= 32,
            fits_bits(hash, hash_bits as u32),
            0 < old(hashes)@.len() <= 0x01ff_ffff,
            rank_index_total_size_spec(P::spec_exponent(), B::spec_number_of_bits(), hash_bits) <= 64
                * old(hashes)@.len(),
            forall|bucket: int|
                rank_bucket(P::spec_exponent(), hash_bits, hash) < bucket < rank_index_capacity_spec(
                    P::spec_exponent(),
                ) ==> entry_bit_index(
                    stream_of_words(old(hashes)@),
                    #[trigger] rank_entry_start(
                        P::spec_exponent(),
                        B::spec_number_of_bits(),
                        hash_bits,
                        old(hashes)@.len() as nat,
                        bucket,
                    ),
                    P::spec_exponent(),
                    B::spec_number_of_bits(),
                ) + shift <= u32::MAX,
        ensures
            final(hashes)@.len() == old(hashes)@.len(),
            stream_of_words(final(hashes)@) == shifted_entries(
                stream_of_words(old(hashes)@),
                P::spec_exponent(),
                B::spec_number_of_bits(),
                hash_bits,
                old(hashes)@.len() as nat,
                rank_bucket(P::spec_exponent(), hash_bits, hash),
                rank_index_capacity_spec(P::spec_exponent()) - 1,
                successor_hash,
                bit_index_after_hash,
                shift,
            ),
    {
        proof {
            P::lemma_exponent_range();
            B::lemma_number_of_bits_range();
            lemma_rank_index_precision(P::spec_exponent(), B::spec_number_of_bits());
        }
        let ghost p = P::spec_exponent();
        let ghost b = B::spec_number_of_bits();
        let ghost words = hashes@.len() as nat;
        let ghost s = stream_of_words(hashes@);
        let hash_bucket = Self::rank_index_hash_bucket(hash_bits, hash);
        let capacity = Self::rank_index_capacity();
        if hash_bucket == capacity - 1 {
            return ;
        }
        let bits = Self::rank_index_bits();
        let bucket_size = (hash_bits + bits) as u32;
        let offset = Self::rank_index_offset(hashes, hash_bits);
        let mask = Self::rank_index_mask();
        proof {
            assert((capacity - 1) * bucket_size <= 511 * 53) by (nonlinear_arith)
                requires
                    capacity <= 512,
                    bucket_size <= 53,
            ;
            assert(rank_index_total_size_spec(p, b, hash_bits) == (capacity - 1) * bucket_size);
            assert(hash_bucket * bucket_size <= (capacity - 1) * bucket_size) by (nonlinear_arith)
                requires
                    hash_bucket < capacity,
            ;
        }
        let snapshot = hashes.clone();
        assert(snapshot@ =~= hashes@);
        let mut reader = BitReader::skip(snapshot.as_slice(), offset + hash_bucket * bucket_size);
        let mut data: Vec<u64> = Vec::new();
        core::mem::swap(&mut data, hashes);
        let mut writer = BitWriter::new(data);
        let mut bucket = hash_bucket;
        while bucket < capacity - 1
            invariant
                p == P::spec_exponent(),
                b == B::spec_number_of_bits(),
                4 <= p <= 18,
                4 <= b <= 6,
                p >= 10,
                p + b <= hash_bits <= 32,
                bits == rank_index_bits_spec(p, b),
                bucket_size == rank_entry_size(p, b, hash_bits),
                capacity == rank_index_capacity_spec(p),
                2 <= capacity <= 512,
                bucket_size <= 53,
                mask == rank_mask(p, b),
                offset == 64 * words - rank_index_total_size_spec(p, b, hash_bits),
                rank_index_total_size_spec(p, b, hash_bits) == (capacity - 1) * bucket_size,
                hash_bucket == rank_bucket(p, hash_bits, hash),
                hash_bucket <= bucket <= capacity - 1,
                words == snapshot@.len(),
                0 < words <= 0x01ff_ffff,
                s == stream_of_words(snapshot@),
                reader.wf(),
                reader.view() == s,
                reader.limit() == 64 * words,
                reader.position() == offset + bucket * bucket_size,
                writer.wf(),
                writer.capacity() == 64 * words,
                writer.view() == shifted_entries(
                    s,
                    p,
                    b,
                    hash_bits,
                    words,
                    hash_bucket as int,
                    bucket as int,
                    successor_hash,
                    bit_index_after_hash,
                    shift,
                ),
                forall|k: int|
                    hash_bucket < k < capacity ==> entry_bit_index(
                        s,
                        #[trigger] rank_entry_start(p, b, hash_bits, words, k),
                        p,
                        b,
                    ) + shift <= u32::MAX,
            decreases capacity - 1 - bucket,
        {
            proof {
                assert(bucket * bucket_size + bucket_size <= (capacity - 1) * bucket_size)
                    by (nonlinear_arith)
                    requires
                        bucket < capacity - 1,
                ;
                assert((bucket + 1) * bucket_size == bucket * bucket_size + bucket_size)
                    by (nonlinear_arith);
                assert(rank_entry_start(p, b, hash_bits, words, bucket + 1) == offset + bucket
                    * bucket_size);
                writer.lemma_view_len();
            }
            writer.seek(offset + bucket * bucket_size);
            let current_bit_index = reader.read_bits(bits);
            let current_bucket_hash = reader.read_bits(hash_bits);
            proof {
                vstd::arithmetic::power2::lemma2_to64();
                crate::bitstream::lemma_value_of_bound(
                    s.subrange(
                        offset + bucket * bucket_size,
                        offset + bucket * bucket_size + bits,
                    ),
                );
                vstd::arithmetic::power2::lemma_pow2_strictly_increases(bits as nat, 32);
                crate::bitstream::lemma_value_of_bound(
                    s.subrange(
                        offset + bucket * bucket_size + bits,
                        offset + bucket * bucket_size + bits + hash_bits,
                    ),
                );
                if hash_bits < 32 {
                    vstd::arithmetic::power2::lemma_pow2_strictly_increases(hash_bits as nat, 32);
                }
                let start = rank_entry_start(p, b, hash_bits, words, bucket + 1);
                assert(entry_bit_index(s, start, p, b) == current_bit_index);
                assert(entry_hash(s, start, p, b, hash_bits) == current_bucket_hash);
                assert(pow2(32) == 0x1_0000_0000);
                let a = offset + bucket * bucket_size + bits;
                assert(current_bucket_hash == value_of(s.subrange(a, a + hash_bits)));
                assert(s.subrange(a, a + hash_bits).len() == hash_bits);
                assert(value_of(s.subrange(a, a + hash_bits)) < pow2(hash_bits as nat));
                assert(pow2(hash_bits as nat) <= pow2(32));
                assert(current_bucket_hash < 0x1_0000_0000);
                assert(current_bit_index < 0x1_0000_0000);
            }
            if (current_bit_index as u32) != mask {
                let shifted_index = if (current_bucket_hash as u32) == successor_hash {
                    bit_index_after_hash
                } else {
                    (current_bit_index as u32) + shift
                };
                writer.write_bits(shifted_index as u64, bits);
            }
            proof {
                assert(writer.view() == shifted_entries(
                    s,
                    p,
                    b,
                    hash_bits,
                    words,
                    hash_bucket as int,
                    bucket + 1,
                    successor_hash,
                    bit_index_after_hash,
                    shift,
                ));
            }
            bucket = bucket + 1;
        }
        *hashes = writer.into_words();
    }

    /// Where a search for `hash` in the list can start: the bit index and the hash of the entry
    /// of the nearest bucket, from that of `hash` down, that holds a hash; or else bit zero and
    /// the first hash of the list.
    pub fn best_search_start(hashes: &[u64], hash_bits: u8, hash: u32) -> (start: (u32, u32))
        requires
            has_rank_index_spec(P::spec_exponent(), B::spec_number_of_bits()),
            P::spec_exponent() - 9 <= hash_bits <= 32,
            fits_bits(hash, hash_bits as u32),
            0 < hashes@.len() <= 0x01ff_ffff,
            rank_index_total_size_spec(P::spec_exponent(), B::spec_number_of_bits(), hash_bits) <= 64
                * hashes@.len(),
        ensures
            (start.0 as nat, start.1 as nat) == search_start(
                stream_of_words(hashes@),
                P::spec_exponent(),
                B::spec_number_of_bits(),
                hash_bits,
                hashes@.len() as nat,
                rank_bucket(P::spec_exponent(), hash_bits, hash),
            ),
    {
        proof {
            P::lemma_exponent_range();
            B::lemma_number_of_bits_range();
            lemma_rank_index_precision(P::spec_exponent(), B::spec_number_of_bits());
            vstd::arithmetic::power2::lemma2_to64();
        }
        let ghost p = P::spec_exponent();
        let ghost b = B::spec_number_of_bits();
        let ghost s = stream_of_words(hashes@);
        let ghost words = hashes@.len() as nat;
        let hash_bucket = Self::rank_index_hash_bucket(hash_bits, hash);
        let bits = Self::rank_index_bits();
        let capacity = Self::rank_index_capacity();
        let entry = (bits + hash_bits) as u32;
        let offset = Self::rank_index_offset(hashes, hash_bits);
        let mask = Self::rank_index_mask();
        proof {
            assert((capacity - 1) * entry <= 511 * 53) by (nonlinear_arith)
                requires
                    capacity <= 512,
                    entry <= 53,
            ;
            assert(rank_index_total_size_spec(p, b, hash_bits) == (capacity - 1) * entry);
        }
        let mut bucket = hash_bucket;
        while bucket > 0
            invariant
                bucket <= hash_bucket < capacity,
                hash_bucket == rank_bucket(p, hash_bits, hash),
                capacity == rank_index_capacity_spec(p),
                entry == rank_entry_size(p, b, hash_bits),
                bits == rank_index_bits_spec(p, b),
                bits < 32,
                p == P::spec_exponent(),
                b == B::spec_number_of_bits(),
                has_rank_index_spec(p, b),
                p - 9 <= hash_bits <= 32,
                mask == rank_mask(p, b),
                offset == 64 * words - rank_index_total_size_spec(p, b, hash_bits),
                rank_index_total_size_spec(p, b, hash_bits) == (capacity - 1) * entry,
                (capacity - 1) * entry <= 511 * 53,
                s == stream_of_words(hashes@),
                words == hashes@.len(),
                0 < words <= 0x01ff_ffff,
                search_start(s, p, b, hash_bits, words, bucket as int) == search_start(
                    s,
                    p,
                    b,
                    hash_bits,
                    words,
                    hash_bucket as int,
                ),
            decreases bucket,
        {
            proof {
                assert((bucket - 1) * entry + entry <= (capacity - 1) * entry) by (nonlinear_arith)
                    requires
                        bucket < capacity,
                        1 <= bucket,
                ;
            }
            let position = offset + (bucket - 1) * entry;
            let mut reader = BitReader::skip(hashes, position);
            let bucket_bit_index = reader.read_bits(bits);
            let bucket_hash = reader.read_bits(hash_bits);
            proof {
                let start = rank_entry_start(p, b, hash_bits, words, bucket as int);
                assert(start == position);
                vstd::arithmetic::power2::lemma2_to64();
                crate::bitstream::lemma_value_of_bound(s.subrange(start, start + bits));
                crate::bitstream::lemma_value_of_bound(
                    s.subrange(start + bits, start + bits + hash_bits),
                );
                vstd::arithmetic::power2::lemma_pow2_strictly_increases(bits as nat, 32);
                if hash_bits < 32 {
                    vstd::arithmetic::power2::lemma_pow2_strictly_increases(hash_bits as nat, 32);
                }
                assert(bucket_bit_index as nat == entry_bit_index(s, start, p, b));
                assert(bucket_hash as nat == entry_hash(s, start, p, b, hash_bits));
            }
            if bucket_bit_index != (mask as u64) {
                proof {
                    assert(search_start(s, p, b, hash_bits, words, bucket as int) == (
                        bucket_bit_index as nat,
                        bucket_hash as nat,
                    ));
                }
                return (bucket_bit_index as u32, bucket_hash as u32);
            }
            bucket = bucket - 1;
        }
        let mut reader = BitReader::new(hashes);
        let first_hash = reader.read_bits(hash_bits);
        proof {
            crate::bitstream::lemma_value_of_bound(s.subrange(0, hash_bits as int));
            if hash_bits < 32 {
                vstd::arithmetic::power2::lemma_pow2_strictly_increases(hash_bits as nat, 32);
            }
        }
        (0, first_hash as u32)
    }

    /// The bit index of an entry that holds no hash yet: all ones.
    pub fn rank_index_mask() -> (mask: u32)
        ensures
            mask == rank_mask(P::spec_exponent(), B::spec_number_of_bits()),
            bits_of(mask as nat, rank_index_bits_spec(P::spec_exponent(), B::spec_number_of_bits()) as nat)
                == Seq::new(
                rank_index_bits_spec(P::spec_exponent(), B::spec_number_of_bits()) as nat,
                |i: int| true,
            ),
    {
        proof {
            P::lemma_exponent_range();
            B::lemma_number_of_bits_range();
            let bits = rank_index_bits_spec(P::spec_exponent(), B::spec_number_of_bits());
            vstd::arithmetic::power2::lemma2_to64();
            vstd::arithmetic::power2::lemma_pow2_strictly_increases(bits as nat, 32);
            vstd::arithmetic::power2::lemma_pow2_pos(bits as nat);
            vstd::bits::lemma_u32_shl_is_mul(1, bits as u32);
            lemma_bits_of_all_ones(bits as nat);
        }
        (1u32 << (Self::rank_index_bits() as u32)) - 1
    }
}

} // verus!
