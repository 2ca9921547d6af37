//! Sorted lists of composite hashes stored in a byte buffer: `width` bytes per hash,
//! little-endian, in strictly decreasing order.
use vstd::arithmetic::div_mod::{lemma_div_denominator, lemma_fundamental_div_mod, lemma_small_mod};
use vstd::arithmetic::mul::{lemma_mul_is_commutative, lemma_mul_strict_inequality};
use vstd::arithmetic::power2::{lemma2_to64, lemma_pow2_adds, lemma_pow2_pos, pow2};
use vstd::prelude::*;

verus! {

/// The number spelled by the `width` bytes of `bytes` from `start` on, least significant
/// byte first.
pub open spec fn le_value(bytes: Seq<u8>, start: int, width: nat) -> nat
    decreases width,
{
    if width == 0 {
        0
    } else {
        bytes[start] as nat + 256 * le_value(bytes, start + 1, (width - 1) as nat)
    }
}

/// The first `n` hashes of a buffer of hashes of `width` bytes.
pub open spec fn stored_hashes(bytes: Seq<u8>, n: nat, width: nat) -> Seq<nat> {
    Seq::new(n, |i: int| le_value(bytes, i * width, width))
}

/// The sequence is strictly decreasing.
pub open spec fn strictly_decreasing(s: Seq<nat>) -> bool {
    forall|i: int, j: int| 0 <= i < j < s.len() ==> s[i] > s[j]
}

/// Byte `j` of `value`, least significant first.
pub open spec fn byte_of(value: nat, j: nat) -> nat {
    (value / pow2(8 * j)) % 256
}

/// A number spelled by `width` bytes is below `2^(8 * width)`.
pub proof fn lemma_le_value_bound(bytes: Seq<u8>, start: int, width: nat)
    ensures
        le_value(bytes, start, width) < pow2(8 * width),
    decreases width,
{
    lemma2_to64();
    if width > 0 {
        lemma_le_value_bound(bytes, start + 1, (width - 1) as nat);
        lemma_pow2_adds(8, 8 * (width - 1) as nat);
        assert(8 * width == 8 + 8 * (width - 1) as nat);
        let rest = le_value(bytes, start + 1, (width - 1) as nat);
        let p = pow2(8 * (width - 1) as nat);
        assert(256 * rest <= 256 * (p - 1)) by (nonlinear_arith)
            requires
                rest <= p - 1,
        ;
    }
}

/// Only the bytes it spans make a number.
pub proof fn lemma_le_value_frame(a: Seq<u8>, b: Seq<u8>, sa: int, sb: int, width: nat)
    requires
        forall|j: int| 0 <= j < width ==> #[trigger] a[sa + j] == b[sb + j],
    ensures
        le_value(a, sa, width) == le_value(b, sb, width),
    decreases width,
{
    if width > 0 {
        assert(a[sa + 0] == b[sb + 0]);
        assert forall|j: int| 0 <= j < width - 1 implies #[trigger] a[(sa + 1) + j] == b[(sb + 1)
            + j] by {
            assert(a[sa + (j + 1)] == b[sb + (j + 1)]);
        }
        lemma_le_value_frame(a, b, sa + 1, sb + 1, (width - 1) as nat);
    }
}

/// The bytes of a number below `2^(8 * width)` spell it.
pub proof fn lemma_le_value_of_bytes(bytes: Seq<u8>, start: int, width: nat, value: nat)
    requires
        value < pow2(8 * width),
        forall|j: int| 0 <= j < width ==> #[trigger] bytes[start + j] as nat == byte_of(value, j as nat),
    ensures
        le_value(bytes, start, width) == value,
    decreases width,
{
    lemma2_to64();
    if width == 0 {
        lemma_pow2_pos(0);
    } else {
        let rest = value / 256;
        lemma_pow2_adds(8, 8 * (width - 1) as nat);
        assert(8 * width == 8 + 8 * (width - 1) as nat);
        assert forall|j: int| 0 <= j < width - 1 implies #[trigger] bytes[(start + 1) + j] as nat
            == byte_of(rest, j as nat) by {
            assert(bytes[start + (j + 1)] as nat == byte_of(value, (j + 1) as nat));
            lemma_pow2_adds(8, 8 * j as nat);
            assert(8 * (j + 1) == 8 + 8 * j);
            lemma_pow2_pos(8 * j as nat);
            lemma_div_denominator(value as int, 256, pow2(8 * j as nat) as int);
        }
        let p = pow2(8 * (width - 1) as nat);
        assert(value < 256 * p);
        assert(rest < p) by (nonlinear_arith)
            requires
                value < 256 * p,
                rest == value / 256,
        ;
        lemma_le_value_of_bytes(bytes, start + 1, (width - 1) as nat, rest);
        assert(bytes[start + 0] as nat == byte_of(value, 0));
        assert(pow2(0) == 1);
        assert(value / 1 == value);
        lemma_fundamental_div_mod(value as int, 256);
    }
}

/// Hash `i` ends within `n` hashes of `width` bytes.
proof fn lemma_slot_end(i: int, n: int, width: int)
    requires
        0 <= i < n,
        0 <= width,
    ensures
        i * width + width <= n * width,
        0 <= i * width,
{
    assert(i * width + width <= n * width) by (nonlinear_arith)
        requires
            0 <= i < n,
            0 <= width,
    ;
    assert(0 <= i * width) by (nonlinear_arith)
        requires
            0 <= i,
            0 <= width,
    ;
}

/// Reads hash `i` of a buffer of hashes of `width` bytes.
pub fn read_hash(hashes: &[u8], i: usize, width: usize) -> (value: u32)
    requires
        1 <= width <= 4,
        i * width + width <= hashes@.len(),
    ensures
        value as nat == le_value(hashes@, i * width, width as nat),
{
    let _len = hashes.len();
    let start = i * width;
    let mut j = width;
    let mut value: u32 = 0;
    while j > 0
        invariant
            j <= width,
            width <= 4,
            start == i * width,
            start + width <= hashes@.len(),
            _len == hashes@.len(),
            value as nat == le_value(hashes@, start + j, (width - j) as nat),
        decreases j,
    {
        j -= 1;
        proof {
            lemma_le_value_bound(hashes@, start + j + 1, (width - j - 1) as nat);
            lemma2_to64();
            if width - j - 1 < 3 {
                vstd::arithmetic::power2::lemma_pow2_strictly_increases(
                    8 * (width - j - 1) as nat,
                    24,
                );
            }
        }
        value = value * 256 + hashes[start + j] as u32;
    }
    value
}

/// Writes `value` as hash `i` of a buffer of hashes of `width` bytes, leaving the other bytes
/// as they are.
pub fn write_hash(hashes: &mut [u8], i: usize, width: usize, value: u32)
    requires
        1 <= width <= 4,
        i * width + width <= old(hashes)@.len(),
        (value as nat) < pow2(8 * width as nat),
    ensures
        final(hashes)@.len() == old(hashes)@.len(),
        le_value(final(hashes)@, i * width, width as nat) == value,
        forall|q: int|
            0 <= q < old(hashes)@.len() && !(i * width <= q < i * width + width) ==> #[trigger] final(hashes)@[q] == old(hashes)@[q],
{
    let ghost before = hashes@;
    let _len = hashes.len();
    let start = i * width;
    let mut j: usize = 0;
    while j < width
        invariant
            j <= width,
            width <= 4,
            start == i * width,
            start + width <= before.len(),
            hashes@.len() == before.len(),
            _len == hashes@.len(),
            forall|q: int|
                0 <= q < before.len() && !(start <= q < start + j) ==> #[trigger] hashes@[q]
                    == before[q],
            forall|t: int| 0 <= t < j ==> #[trigger] hashes@[start + t] as nat == byte_of(value as nat, t as nat),
        decreases width - j,
    {
        let shift = (8 * j) as u32;
        let byte = ((value >> shift) & 0xff) as u8;
        proof {
            vstd::bits::lemma_u32_shr_is_div(value, shift);
            let x = value >> shift;
            vstd::bits::lemma_u32_low_bits_mask_is_mod(x, 8);
            vstd::bits::lemma_low_bits_mask_values();
            lemma2_to64();
            assert(x & 0xff == x % 256);
        }
        hashes[start + j] = byte;
        j += 1;
    }
    proof {
        lemma_le_value_of_bytes(hashes@, start as int, width as nat, value as nat);
    }
}

/// Where a value falls in a strictly decreasing list of hashes: `Ok` with its position when
/// it is there, `Err` with the position where it would go otherwise.
pub fn search_desc(hashes: &[u8], n: usize, width: usize, target: u32) -> (res: Result<usize, usize>)
    requires
        1 <= width <= 4,
        n * width <= hashes@.len(),
        strictly_decreasing(stored_hashes(hashes@, n as nat, width as nat)),
    ensures
        match res {
            Ok(i) => i < n && stored_hashes(hashes@, n as nat, width as nat)[i as int] == target,
            Err(i) => i <= n && (forall|j: int|
                0 <= j < i ==> #[trigger] stored_hashes(hashes@, n as nat, width as nat)[j]
                    > target) && (forall|j: int|
                i <= j < n ==> #[trigger] stored_hashes(hashes@, n as nat, width as nat)[j]
                    < target),
        },
{
    let ghost s = stored_hashes(hashes@, n as nat, width as nat);
    let mut lo: usize = 0;
    let mut hi: usize = n;
    while lo < hi
        invariant
            lo <= hi <= n,
            1 <= width <= 4,
            n * width <= hashes@.len(),
            s == stored_hashes(hashes@, n as nat, width as nat),
            strictly_decreasing(s),
            forall|j: int| 0 <= j < lo ==> #[trigger] s[j] > target,
            forall|j: int| hi <= j < n ==> #[trigger] s[j] < target,
        decreases hi - lo,
    {
        let mid = lo + (hi - lo) / 2;
        proof {
            lemma_slot_end(mid as int, n as int, width as int);
        }
        let v = read_hash(hashes, mid, width);
        assert(s[mid as int] == v);
        if v == target {
            return Ok(mid);
        }
        if v > target {
            lo = mid + 1;
        } else {
            hi = mid;
        }
    }
    Err(lo)
}

/// Inserts `value` as hash `i` of a list of `n` hashes of `width` bytes, moving the hashes
/// from `i` on one place further; the bytes after the `n + 1` hashes are left as they are.
pub fn insert_hash_at(hashes: &mut [u8], n: usize, width: usize, i: usize, value: u32)
    requires
        1 <= width <= 4,
        i <= n,
        (n + 1) * width <= old(hashes)@.len(),
        (value as nat) < pow2(8 * width as nat),
    ensures
        final(hashes)@.len() == old(hashes)@.len(),
        stored_hashes(final(hashes)@, (n + 1) as nat, width as nat) == stored_hashes(
            old(hashes)@,
            n as nat,
            width as nat,
        ).insert(i as int, value as nat),
        forall|q: int|
            (n + 1) * width <= q < old(hashes)@.len() ==> #[trigger] final(hashes)@[q] == old(hashes)@[q],
{
    let ghost before = hashes@;
    let ghost len = before.len();
    let _len = hashes.len();
    proof {
        assert((n + 1) * width == n * width + width) by (nonlinear_arith);
        assert(i * width <= n * width) by (nonlinear_arith)
            requires
                i <= n,
        ;
    }
    let lowest = i * width;
    let mut t = n * width;
    while t > lowest
        invariant
            lowest <= t <= n * width,
            lowest == i * width,
            (n + 1) * width == n * width + width,
            (n + 1) * width <= len,
            hashes@.len() == len,
            before.len() == len,
            forall|q: int| t + width <= q < n * width + width ==> #[trigger] hashes@[q] == before[q
                - width],
            forall|q: int|
                0 <= q < len && !(t + width <= q < n * width + width) ==> #[trigger] hashes@[q]
                    == before[q],
        decreases t,
    {
        t -= 1;
        let byte = hashes[t];
        hashes[t + width] = byte;
    }
    proof {
        lemma_slot_end(i as int, (n + 1) as int, width as int);
    }
    let ghost shifted = hashes@;
    write_hash(hashes, i, width, value);
    proof {
        let a = stored_hashes(hashes@, (n + 1) as nat, width as nat);
        let b = stored_hashes(before, n as nat, width as nat).insert(i as int, value as nat);
        assert forall|j: int| 0 <= j < n + 1 implies #[trigger] a[j] == b[j] by {
            if j < i {
                lemma_slot_end(j, i as int, width as int);
                lemma_le_value_frame(hashes@, before, j * width, j * width, width as nat);
            } else if j > i {
                lemma_slot_end(j, (n + 1) as int, width as int);
                assert((j - 1) * width == j * width - width) by (nonlinear_arith);
                assert(j * width >= i * width + width) by (nonlinear_arith)
                    requires
                        j > i,
                        width >= 0,
                ;
                assert forall|k: int| 0 <= k < width implies #[trigger] hashes@[j * width + k]
                    == before[(j - 1) * width + k] by {
                    assert(shifted[j * width + k] == before[j * width + k - width]);
                }
                lemma_le_value_frame(hashes@, before, j * width, (j - 1) * width, width as nat);
            }
        }
        assert(a =~= b);
    }
}

} // verus!
