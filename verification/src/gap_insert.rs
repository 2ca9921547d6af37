//! Insertion into a list of gap hashes: in place in a prefix-free coded list, and, when the
//! list is full, by rewriting it with shorter hashes.
use crate::bitstream::{stream_of, stream_of_words};
use crate::gap_list::{
    coded_hashes, gap_coefficient, gap_hashes, gap_list_code, is_canonical,
    is_gap_hash_list, is_gap_list, is_prefix_free, lemma_gap_list_code_prefix,
    lemma_reads_first_hash, lemma_reads_gap_list, DispatchedDowngradedIter,
};
use crate::gaps::{fits_bits, gap_between, gap_uniform, GapFragment, GapHash};
use crate::gap_list::{gap_code, is_codable_gap};
use crate::bitstream::{bits_of, overwrite};
use crate::bitwriter::{rice_code, BitWriter};
use crate::bitreader::len_rice;
use crate::composite_hash::LastBufferedBit;
use vstd::arithmetic::power2::pow2;
use crate::rank_index::{
    entry_bit_index, is_rank_index_of, lemma_fresh_index, lemma_opener_index, opener_updates,
    opens_bucket, rank_bucket, rank_entry_start, rank_mask, rank_update, shifted_entries,
};
use crate::gaps::{has_rank_index_spec, rank_index_bits_spec, rank_index_capacity_spec, rank_index_total_size_spec};
use crate::composite_hash::SaturationError;
use crate::switch::{largest_viable_bits, switch_encoding, switch_flag, low_mask32, smallest_viable_bits, is_hash_list, SwitchHash};
use crate::gap_list::{plain_capacity, rank_index_fits};
use crate::precisions::register_mask;
use crate::gap_list::{rice_coefficients, lemma_rice_coefficients_small, holds_gap_list, PrefixCodeIter};
use crate::shared::stored_hashes;
use crate::bitstream::{bytes_of_words, words_of_bytes, value_of};
use crate::bitreader::BitReader;
use crate::precisions::{Bits, Precision};
use crate::switch::{switch_decoding, switch_downgrading};
use vstd::prelude::*;

verus! {

/// Whether `iter` has read the first `i` hashes of the list `hashes`, of `hb` bits, cutting
/// each down by `shift` bits: the prefix-free coded list that `stream` starts with, or the
/// plain list.
pub open spec fn reads_downgraded<P: Precision, B: Bits>(
    iter: DispatchedDowngradedIter<P, B>,
    stream: Seq<bool>,
    hashes: Seq<u32>,
    hb: u8,
    shift: u8,
    end: nat,
    i: nat,
) -> bool {
    let p = P::spec_exponent() as u32;
    let b = B::spec_number_of_bits() as u32;
    let k = gap_coefficient(P::spec_exponent(), B::spec_number_of_bits(), hb);
    &&& i <= hashes.len()
    &&& match iter {
        DispatchedDowngradedIter::PrefixCodeDowngradedIter(it) => {
            &&& it.inner().wf()
            &&& it.inner().stream() == stream
            &&& it.inner().limit() == stream.len()
            &&& it.inner().end() == end
            &&& it.inner().bits() == hb
            &&& it.inner().coefficient() == k
            &&& it.cut() == shift
            &&& P::spec_exponent() + B::spec_number_of_bits() + shift <= hb <= 32
            &&& is_gap_list(p, b, hashes, hb as u32, k)
            &&& 0 < hashes.len()
            &&& (k as nat) < 32
            &&& gap_list_code(p, b, hashes, hb as u32, k).len() == end
            &&& end <= stream.len()
            &&& stream.subrange(0, end as int) == gap_list_code(p, b, hashes, hb as u32, k)
            &&& i == 0 ==> it.inner().is_first() && it.inner().position() == 0
            &&& i > 0 ==> {
                &&& !it.inner().is_first()
                &&& it.inner().position() == gap_list_code(
                    p,
                    b,
                    hashes.take(i as int),
                    hb as u32,
                    k,
                ).len()
                &&& it.inner().previous_hash() == hashes[i - 1]
                &&& it.inner().uniform_state() == gap_uniform(p, b, hashes[i - 1], hb as u32)
            }
        },
        DispatchedDowngradedIter::InnerDowngradedIter(it) => {
            &&& it.wf()
            &&& it.hashes() == hashes.map_values(|h: u32| h as nat)
            &&& it.position() == i
            &&& it.bits() == hb
            &&& it.cut() == shift
        },
    }
}

/// The number of bits of a list of hashes of `hb` bits that a reader has gone through after
/// its first `i` hashes: the code of those hashes when the list is prefix-free coded, `i`
/// hashes of `hb` bits when it is plain.
pub open spec fn read_end(p: u8, b: u8, hashes: Seq<u32>, hb: u8, coded: bool, i: nat) -> nat {
    if coded {
        gap_list_code(p as u32, b as u32, hashes.take(i as int), hb as u32, gap_coefficient(p, b, hb)).len()
    } else {
        i * (hb as nat)
    }
}

/// Whether the list `hashes` of `hb` bits, cut down to `t` bits with `e` placed among them,
/// can be written with Rice parameter `k` within `bit_index` bits, the code written after
/// each hash read staying within what a reader two hashes ahead has gone through.
#[verifier::opaque]
pub open spec fn fits_behind_reader(
    p: u8,
    b: u8,
    hashes: Seq<u32>,
    hb: u8,
    coded: bool,
    e: u32,
    t: u8,
    k: nat,
    bit_index: nat,
) -> bool {
    let ds = downgraded_list(p as u32, b as u32, hashes, hb as u32, (hb - t) as u32);
    let n = ds.len();
    let m = merged_hashes(ds, e);
    &&& is_writable_list(p as u32, b as u32, m, t as u32, k)
    &&& gap_list_code(p as u32, b as u32, m, t as u32, k).len() <= bit_index
    &&& forall|j: nat|
        1 <= j <= n ==> gap_list_code(
            p as u32,
            b as u32,
            #[trigger] merge_state(ds, e, j).0,
            t as u32,
            k,
        ).len() <= read_end(
            p,
            b,
            hashes,
            hb,
            coded,
            if j + 2 <= n {
                j + 2
            } else {
                n
            },
        )
}

/// A list that fits behind its reader is writable within the bits given, and the code
/// written after `j` hashes read stays within what the reader has gone through.
pub proof fn lemma_fits_behind_reader(
    p: u8,
    b: u8,
    hashes: Seq<u32>,
    hb: u8,
    coded: bool,
    e: u32,
    t: u8,
    k: nat,
    bit_index: nat,
    j: nat,
)
    requires
        fits_behind_reader(p, b, hashes, hb, coded, e, t, k, bit_index),
    ensures
        ({
            let ds = downgraded_list(p as u32, b as u32, hashes, hb as u32, (hb - t) as u32);
            let n = ds.len();
            let m = merged_hashes(ds, e);
            &&& is_writable_list(p as u32, b as u32, m, t as u32, k)
            &&& gap_list_code(p as u32, b as u32, m, t as u32, k).len() <= bit_index
            &&& 1 <= j <= n ==> gap_list_code(p as u32, b as u32, merge_state(ds, e, j).0, t as u32, k).len()
                <= read_end(
                p,
                b,
                hashes,
                hb,
                coded,
                if j + 2 <= n {
                    j + 2
                } else {
                    n
                },
            )
        }),
{
    reveal(fits_behind_reader);
}

/// The largest number of bits at which a full list of hashes of `hb` bits is tried for a
/// rewrite: one fewer than `hb` when the list is coded below the largest number of bits, and
/// at most the largest number of bits of the Rice table.
pub open spec fn first_target(p: u8, b: u8, hb: u8) -> int {
    let start = if hb < largest_viable_bits(p, b) {
        hb - 1
    } else {
        hb as int
    };
    let top = p + b + rice_coefficients(p, b).len() - 1;
    if start > top {
        top
    } else {
        start
    }
}

/// Whether the full list of `n` hashes of `hb` bits in `bytes`, ending at `bit_index`, can be
/// rewritten at `t` bits with the hash of the register `register` of index `index` taken from
/// `original_hash` placed in it, behind its reader and within the bits it took.
pub open spec fn rewrite_fits(
    p: u8,
    b: u8,
    bytes: Seq<u8>,
    n: nat,
    hb: u8,
    bit_index: u32,
    index: u32,
    register: u32,
    original_hash: u64,
    t: u8,
) -> bool {
    fits_behind_reader(
        p,
        b,
        gap_hashes32(p, b, bytes, n, hb, bit_index as nat),
        hb,
        is_prefix_free(p, b, n, hb, bit_index as nat),
        switch_encoding(p as u32, b as u32, index, register, original_hash, t as u32),
        t,
        rice_coefficients(p, b)[t - p - b] as nat,
        bit_index as nat,
    )
}

/// A part of a writable list at its start is writable.
pub proof fn lemma_writable_prefix(p: u32, b: u32, m: Seq<u32>, s: Seq<u32>, hb: u32, k: nat)
    requires
        is_writable_list(p, b, m, hb, k),
        s.len() <= m.len(),
        m.subrange(0, s.len() as int) == s,
    ensures
        is_writable_list(p, b, s, hb, k),
{
    assert forall|i: int| 0 <= i < s.len() implies s[i] == m[i] by {
        assert(m.subrange(0, s.len() as int)[i] == m[i]);
    }
    assert forall|i: int| 0 < i < s.len() implies is_codable_gap(
        #[trigger] gap_between(p, b, s[i - 1], s[i], hb),
        k,
    ) by {
        assert(s[i - 1] == m[i - 1] && s[i] == m[i]);
    }
}

/// What is written while `ds` is written with `e` placed among its hashes is writable when
/// the whole list is.
pub proof fn lemma_merged_prefix_writable(
    p: u32,
    b: u32,
    ds: Seq<u32>,
    e: u32,
    j: nat,
    pushed: Seq<u32>,
    hb: u32,
    k: nat,
)
    requires
        j <= ds.len(),
        is_writable_list(p, b, merged_hashes(ds, e), hb, k),
        pushed.len() <= merge_state(ds, e, j).0.len(),
        merge_state(ds, e, j).0.subrange(0, pushed.len() as int) == pushed,
    ensures
        is_writable_list(p, b, pushed, hb, k),
{
    lemma_merge_state_grows(ds, e, j, ds.len());
    let m = merged_hashes(ds, e);
    let st = merge_state(ds, e, j).0;
    assert(m.subrange(0, pushed.len() as int) =~= pushed) by {
        assert forall|i: int| 0 <= i < pushed.len() implies m.subrange(0, pushed.len() as int)[i]
            == pushed[i] by {
            assert(m.subrange(0, st.len() as int)[i] == st[i]);
            assert(st.subrange(0, pushed.len() as int)[i] == st[i]);
        }
    }
    lemma_writable_prefix(p, b, m, pushed, hb, k);
}

/// The list `hashes` with each hash cut down by `shift` bits.
pub open spec fn downgraded_list(p: u32, b: u32, hashes: Seq<u32>, hb: u32, shift: u32) -> Seq<u32> {
    hashes.map_values(|h: u32| switch_downgrading(p, b, h, hb, shift))
}

/// The list written from the first `i` hashes of `ds` with `e` placed among them: the hashes
/// written so far, whether `e` has been written or met, and the number of repeated hashes met.
///
/// A hash equal to the last one written is skipped; `e` is written before the first hash
/// smaller than it, or after the last hash when no hash is smaller, unless it was met in the
/// list.
pub open spec fn merge_state(ds: Seq<u32>, e: u32, i: nat) -> (Seq<u32>, bool, nat)
    decreases i,
{
    if i == 0 {
        (Seq::empty(), false, 0)
    } else {
        let (out, accounted, duplicates) = merge_state(ds, e, (i - 1) as nat);
        let next = ds[i - 1];
        if out.len() > 0 && out.last() == next {
            if i == ds.len() && !accounted {
                (out.push(e), true, duplicates + 1)
            } else {
                (out, accounted, duplicates + 1)
            }
        } else {
            let met = accounted || e == next;
            let dups = if e == next {
                duplicates + 1
            } else {
                duplicates
            };
            let placed = !met && e > next;
            let written = if placed {
                out.push(e).push(next)
            } else {
                out.push(next)
            };
            if i == ds.len() && !(met || placed) {
                (written.push(e), true, dups)
            } else {
                (written, met || placed, dups)
            }
        }
    }
}

/// The list written from `ds` with `e` placed among them (`e` alone when `ds` is empty).
pub open spec fn merged_hashes(ds: Seq<u32>, e: u32) -> Seq<u32> {
    if ds.len() == 0 {
        seq![e]
    } else {
        merge_state(ds, e, ds.len()).0
    }
}

/// The number of repeated hashes met while writing `ds` with `e` placed among them.
pub open spec fn merged_duplicates(ds: Seq<u32>, e: u32) -> nat {
    merge_state(ds, e, ds.len()).2
}

/// A strictly decreasing list of hashes of `hb` bits, each with a register, whose gaps can be
/// written with Rice parameter `k`.
pub open spec fn is_writable_list(p: u32, b: u32, hashes: Seq<u32>, hb: u32, k: nat) -> bool {
    &&& forall|i: int, j: int| 0 <= i < j < hashes.len() ==> hashes[i] > hashes[j]
    &&& forall|i: int|
        0 <= i < hashes.len() ==> fits_bits(#[trigger] hashes[i], hb) && switch_decoding(
            p,
            b,
            hashes[i],
            hb,
        ).0 > 0
    &&& forall|i: int|
        0 < i < hashes.len() ==> is_codable_gap(
            #[trigger] gap_between(p, b, hashes[i - 1], hashes[i], hb),
            k,
        )
}

/// The written list grows with each hash read.
pub proof fn lemma_merge_state_grows(ds: Seq<u32>, e: u32, i: nat, j: nat)
    requires
        i <= j <= ds.len(),
    ensures
        merge_state(ds, e, i).0.len() <= merge_state(ds, e, j).0.len(),
        merge_state(ds, e, j).0.subrange(0, merge_state(ds, e, i).0.len() as int) == merge_state(
            ds,
            e,
            i,
        ).0,
    decreases j - i,
{
    if i == j {
        assert(merge_state(ds, e, j).0.subrange(0, merge_state(ds, e, j).0.len() as int)
            =~= merge_state(ds, e, j).0);
    } else {
        lemma_merge_state_grows(ds, e, i, (j - 1) as nat);
        let a = merge_state(ds, e, i).0;
        let c = merge_state(ds, e, (j - 1) as nat).0;
        let d = merge_state(ds, e, j).0;
        assert(d.subrange(0, c.len() as int) =~= c);
        assert(d.subrange(0, a.len() as int) =~= c.subrange(0, a.len() as int));
    }
}

/// While `ds` is being written with `e` placed among its hashes, the list written so far
/// ends with the last hash read and holds every hash read; it holds `e` once `e` is accounted
/// for, and until then `e` is smaller than every hash read.
proof fn lemma_merge_state_holds(ds: Seq<u32>, e: u32, i: nat)
    requires
        i < ds.len(),
    ensures
        ({
            let (out, accounted, duplicates) = merge_state(ds, e, i);
            &&& i >= 1 ==> out.len() > 0 && out.last() == ds[i - 1]
            &&& accounted ==> out.contains(e)
            &&& forall|j: int| 0 <= j < i ==> out.contains(#[trigger] ds[j])
            &&& !accounted ==> forall|j: int| 0 <= j < i ==> e < #[trigger] ds[j]
        }),
    decreases i,
{
    if i > 0 {
        lemma_merge_state_holds(ds, e, (i - 1) as nat);
        let (out, accounted, duplicates) = merge_state(ds, e, (i - 1) as nat);
        let next = ds[i - 1];
        let (now, _, _) = merge_state(ds, e, i);
        if out.len() > 0 && out.last() == next {
            assert(now =~= out);
            assert(out[out.len() - 1] == next);
        } else {
            assert forall|j: int| 0 <= j < i implies now.contains(#[trigger] ds[j]) by {
                if j < i - 1 {
                    let w = choose|w: int| 0 <= w < out.len() && out[w] == ds[j];
                    assert(now[w] == ds[j]);
                } else {
                    assert(now[now.len() - 1] == next);
                }
            }
            if accounted {
                let w = choose|w: int| 0 <= w < out.len() && out[w] == e;
                assert(now[w] == e);
            }
            if e == next || (!accounted && e > next) {
                if e == next {
                    assert(now[now.len() - 1] == e);
                } else {
                    assert(now[out.len() as int] == e);
                }
            }
        }
    }
}

/// Writing the hashes `ds` with `e` placed among them keeps every hash of `ds` and adds `e`.
pub proof fn lemma_merged_hashes_hold(ds: Seq<u32>, e: u32)
    requires
        0 < ds.len(),
    ensures
        merged_hashes(ds, e).contains(e),
        forall|i: int| 0 <= i < ds.len() ==> merged_hashes(ds, e).contains(#[trigger] ds[i]),
{
    let n = ds.len();
    lemma_merge_state_holds(ds, e, (n - 1) as nat);
    let (out, accounted, duplicates) = merge_state(ds, e, (n - 1) as nat);
    let next = ds[n - 1];
    let now = merged_hashes(ds, e);
    if out.len() > 0 && out.last() == next {
        assert(out[out.len() - 1] == next);
        assert forall|j: int| 0 <= j < n implies now.contains(#[trigger] ds[j]) by {
            if j < n - 1 {
                let w = choose|w: int| 0 <= w < out.len() && out[w] == ds[j];
                assert(now[w] == ds[j]);
            } else {
                assert(now[out.len() - 1] == next);
            }
        }
        if accounted {
            let w = choose|w: int| 0 <= w < out.len() && out[w] == e;
            assert(now[w] == e);
        } else {
            assert(now[out.len() as int] == e);
        }
    } else {
        assert forall|j: int| 0 <= j < n implies now.contains(#[trigger] ds[j]) by {
            if j < n - 1 {
                let w = choose|w: int| 0 <= w < out.len() && out[w] == ds[j];
                assert(now[w] == ds[j]);
            } else {
                assert(now[out.len() as int] == next || now[out.len() as int + 1] == next);
            }
        }
        if accounted {
            let w = choose|w: int| 0 <= w < out.len() && out[w] == e;
            assert(now[w] == e);
        } else if e == next {
            assert(now[out.len() as int] == e);
        } else if e > next {
            assert(now[out.len() as int] == e);
        } else {
            assert(now[now.len() - 1] == e);
        }
    }
}

/// The list written so far holds only hashes read and `e`.
proof fn lemma_merge_state_only(ds: Seq<u32>, e: u32, i: nat)
    requires
        i <= ds.len(),
    ensures
        forall|x: u32|
            #[trigger] merge_state(ds, e, i).0.contains(x) ==> x == e || ds.contains(x),
    decreases i,
{
    if i > 0 {
        lemma_merge_state_only(ds, e, (i - 1) as nat);
        let out = merge_state(ds, e, (i - 1) as nat).0;
        let now = merge_state(ds, e, i).0;
        assert forall|x: u32| now.contains(x) implies x == e || ds.contains(x) by {
            let w = choose|w: int| 0 <= w < now.len() && now[w] == x;
            if w < out.len() {
                assert(out[w] == x);
                assert(out.contains(x));
            } else if x != e {
                assert(x == ds[i - 1]);
            }
        }
    }
}

/// The list written from `ds` with `e` placed among them is the union of `ds` and `e`: it
/// holds `e`, every hash of `ds`, and nothing else.
pub proof fn lemma_merged_hashes_union(ds: Seq<u32>, e: u32)
    requires
        0 < ds.len(),
    ensures
        forall|x: u32| #[trigger] merged_hashes(ds, e).contains(x) <==> (x == e || ds.contains(x)),
{
    lemma_merged_hashes_hold(ds, e);
    lemma_merge_state_only(ds, e, ds.len());
    assert forall|x: u32| (x == e || ds.contains(x)) implies #[trigger] merged_hashes(
        ds,
        e,
    ).contains(x) by {
        if x != e {
            let w = choose|w: int| 0 <= w < ds.len() && ds[w] == x;
            assert(merged_hashes(ds, e).contains(ds[w]));
        }
    }
}

/// While `ds` is being written with `e` placed among its hashes, and the whole written list is
/// strictly decreasing, each hash read is either written or counted as repeated, and so is `e`
/// once accounted for; after the last hash, `e` is accounted for.
proof fn lemma_merge_state_count(ds: Seq<u32>, e: u32, i: nat)
    requires
        i <= ds.len(),
        forall|a: int, c: int|
            0 <= a < c < merge_state(ds, e, ds.len()).0.len() ==> merge_state(ds, e, ds.len()).0[a]
                > merge_state(ds, e, ds.len()).0[c],
    ensures
        ({
            let (out, accounted, duplicates) = merge_state(ds, e, i);
            &&& out.len() + duplicates == i + if accounted {
                1nat
            } else {
                0nat
            }
            &&& 0 < i == ds.len() ==> accounted
        }),
    decreases i,
{
    if i > 0 {
        lemma_merge_state_count(ds, e, (i - 1) as nat);
        lemma_merge_state_holds(ds, e, (i - 1) as nat);
        let (out, accounted, duplicates) = merge_state(ds, e, (i - 1) as nat);
        let next = ds[i - 1];
        let now = merge_state(ds, e, i).0;
        let all = merge_state(ds, e, ds.len()).0;
        if !(out.len() > 0 && out.last() == next) && accounted && e == next {
            lemma_merge_state_grows(ds, e, i, ds.len());
            let w = choose|w: int| 0 <= w < out.len() && out[w] == e;
            assert(now =~= out.push(next));
            assert(all.subrange(0, now.len() as int) == now);
            assert(all[w] == now[w]);
            assert(all[out.len() as int] == now[out.len() as int]);
            assert(false);
        }
    }
}

/// Where the list written from `ds` with `e` placed among them is strictly decreasing, every
/// hash of `ds`, and `e`, is either in it or counted as repeated.
pub proof fn lemma_merged_count(ds: Seq<u32>, e: u32)
    requires
        forall|a: int, c: int|
            0 <= a < c < merged_hashes(ds, e).len() ==> merged_hashes(ds, e)[a] > merged_hashes(
                ds,
                e,
            )[c],
    ensures
        merged_hashes(ds, e).len() + merged_duplicates(ds, e) == ds.len() + 1,
{
    if ds.len() > 0 {
        let all = merge_state(ds, e, ds.len()).0;
        assert(merged_hashes(ds, e) == all);
        assert forall|a: int, c: int| 0 <= a < c < all.len() implies all[a] > all[c] by {
            assert(merged_hashes(ds, e)[a] > merged_hashes(ds, e)[c]);
        }
        lemma_merge_state_count(ds, e, ds.len());
    }
}

/// A hash missing from a strictly decreasing list has a place in it.
pub proof fn lemma_place_exists(hashes: Seq<u32>, e: u32)
    requires
        forall|a: int, c: int| 0 <= a < c < hashes.len() ==> hashes[a] > hashes[c],
        !hashes.contains(e),
    ensures
        is_place(hashes, e, place_of(hashes, e)),
    decreases hashes.len(),
{
    if hashes.len() == 0 {
        assert(is_place(hashes, e, 0));
    } else {
        let rest = hashes.drop_last();
        assert forall|x: int| 0 <= x < rest.len() implies rest[x] != e by {
            assert(hashes[x] != e);
        }
        lemma_place_exists(rest, e);
        let j = place_of(rest, e);
        let last = hashes[hashes.len() - 1];
        assert(last != e);
        if j < rest.len() {
            assert(is_place(hashes, e, j));
        } else if last < e {
            assert(is_place(hashes, e, j));
        } else {
            assert(is_place(hashes, e, hashes.len() as int));
        }
    }
}

/// Placing a hash that is missing from a coded list, canonical, and with codable gaps to its
/// neighbours, keeps the list a coded list.
proof fn lemma_inserted_gap_list(pp: u32, bb: u32, hashes: Seq<u32>, e: u32, hb: u32, k: nat)
    requires
        is_gap_list(pp, bb, hashes, hb, k),
        !hashes.contains(e),
        is_canonical(pp, bb, e, hb),
        placement_codable(pp, bb, hashes, e, hb, k),
    ensures
        is_place(hashes, e, place_of(hashes, e)),
        is_gap_list(pp, bb, hashes.insert(place_of(hashes, e), e), hb, k),
{
    lemma_place_exists(hashes, e);
    let j = place_of(hashes, e);
    let inserted = hashes.insert(j, e);
    assert(is_place(hashes, e, j));
    assert forall|x: int, y: int| 0 <= x < y < inserted.len() implies inserted[x]
        > inserted[y] by {
        if x < j && y > j {
            assert(hashes[x] >= hashes[j - 1]);
        } else if x == j && y > j + 1 {
            assert(hashes[j] >= hashes[y - 1]);
        } else if x < j - 1 && y == j {
            assert(hashes[x] > hashes[j - 1]);
        }
    }
    assert forall|x: int| 0 <= x < inserted.len() implies is_canonical(
        pp,
        bb,
        #[trigger] inserted[x],
        hb,
    ) by {
        if x < j {
            assert(inserted[x] == hashes[x]);
        } else if x > j {
            assert(inserted[x] == hashes[x - 1]);
        }
    }
    assert forall|x: int| 0 < x < inserted.len() implies is_codable_gap(
        #[trigger] gap_between(pp, bb, inserted[x - 1], inserted[x], hb),
        k,
    ) by {
        if x < j {
            assert(inserted[x - 1] == hashes[x - 1] && inserted[x] == hashes[x]);
            assert(is_codable_gap(gap_between(pp, bb, hashes[x - 1], hashes[x], hb), k));
        } else if x > j + 1 {
            let i = x - 1;
            assert(inserted[x - 1] == hashes[i - 1] && inserted[x] == hashes[i]);
            assert(is_codable_gap(gap_between(pp, bb, hashes[i - 1], hashes[i], hb), k));
        } else if x == j {
            assert(inserted[x - 1] == hashes[j - 1] && inserted[x] == e);
            assert(is_codable_gap(gap_between(pp, bb, hashes[j - 1], e, hb), k));
        } else {
            assert(inserted[x - 1] == e && inserted[x] == hashes[j]);
            assert(is_codable_gap(gap_between(pp, bb, e, hashes[j], hb), k));
        }
    }
}

/// An insertion into a prefix-free coded list that finds room in place keeps the buffer a list
/// of gap hashes, one hash longer: the old hashes with the new one in its place, where the
/// gaps around that place can be coded and the longer list is still read as coded.
#[verifier::spinoff_prover]
pub proof fn lemma_coded_insertion_holds(
    p: u8,
    b: u8,
    old: Seq<u8>,
    new: Seq<u8>,
    n: nat,
    index: u64,
    register: u32,
    original_hash: u64,
    bit_index: u32,
    hash_bits: u8,
    result: Result<Option<InsertMetadata>, SaturationError>,
)
    requires
        4 <= p <= 18,
        4 <= b <= 6,
        crate::hyperloglog::is_hash_split(p, b, index, register, original_hash),
        is_gap_hash_list(p, b, old, n, hash_bits, bit_index as nat),
        is_prefix_free(p, b, n, hash_bits, bit_index as nat),
        is_coded_insertion(
            p,
            b,
            old,
            new,
            n,
            index as u32,
            register,
            original_hash,
            bit_index,
            hash_bits,
            result,
        ),
        ({
            let hashes = gap_hashes32(p, b, old, n, hash_bits, bit_index as nat);
            let e = switch_encoding(p as u32, b as u32, index as u32, register, original_hash, hash_bits as u32);
            let k = gap_coefficient(p, b, hash_bits);
            let code = gap_list_code(
                p as u32,
                b as u32,
                hashes.insert(place_of(hashes, e), e),
                hash_bits as u32,
                k,
            );
            &&& !hashes.contains(e)
            &&& code.len() + rank_index_total_size_spec(p, b, hash_bits) <= 8 * old.len()
            &&& placement_codable(p as u32, b as u32, hashes, e, hash_bits as u32, k)
            &&& is_prefix_free(p, b, n + 1, hash_bits, code.len())
        }),
    ensures
        ({
            let hashes = gap_hashes32(p, b, old, n, hash_bits, bit_index as nat);
            let e = switch_encoding(p as u32, b as u32, index as u32, register, original_hash, hash_bits as u32);
            let j = place_of(hashes, e);
            let k = gap_coefficient(p, b, hash_bits);
            let code = gap_list_code(p as u32, b as u32, hashes.insert(j, e), hash_bits as u32, k);
            &&& result == Ok::<Option<InsertMetadata>, SaturationError>(
                Some(InsertMetadata { hash_bits, duplicates: 0, bit_index: code.len() as u32 }),
            )
            &&& is_gap_hash_list(p, b, new, n + 1, hash_bits, code.len())
            &&& gap_hashes32(p, b, new, n + 1, hash_bits, code.len()) == hashes.insert(j, e)
            &&& gap_hashes(p, b, new, n + 1, hash_bits, code.len()).contains(e as nat)
        }),
{
    let pp = p as u32;
    let bb = b as u32;
    let hb = hash_bits as u32;
    let hashes = gap_hashes32(p, b, old, n, hash_bits, bit_index as nat);
    let e = switch_encoding(pp, bb, index as u32, register, original_hash, hb);
    let k = gap_coefficient(p, b, hash_bits);
    let j = place_of(hashes, e);
    let inserted = hashes.insert(j, e);
    let code = gap_list_code(pp, bb, inserted, hb, k);
    lemma_gap_hashes32(p, b, old, n, hash_bits, bit_index as nat);
    lemma_rice_coefficients_small(p, b);
    let s_old = stream_of(old);
    assert(holds_gap_list(pp, bb, s_old, n, hb, k, bit_index as nat));
    assert(hashes == coded_hashes(pp, bb, s_old, n, hb, k, bit_index as nat));
    assert(is_gap_list(pp, bb, hashes, hb, k));
    crate::gap_list::lemma_encoding_canonical(p, b, index, register, original_hash, hb);
    lemma_inserted_gap_list(pp, bb, hashes, e, hb, k);
    let s_new = stream_of(new);
    assert(s_new.len() == 8 * new.len());
    crate::gap_list::lemma_coded_hashes_of_code(pp, bb, inserted, hb, k, s_new);
    lemma_gap_hashes32(p, b, new, n + 1, hash_bits, code.len());
    assert(inserted[j] == e);
    let nat_hashes = gap_hashes(p, b, new, n + 1, hash_bits, code.len());
    assert(nat_hashes[j] == e as nat);
}

/// An insertion into a plain list that finds room keeps the buffer a plain list of gap hashes,
/// one hash longer: the old hashes with the new one among them.
pub proof fn lemma_plain_insertion_holds(
    p: u8,
    b: u8,
    old: Seq<u8>,
    new: Seq<u8>,
    n: nat,
    index: u32,
    register: u32,
    original_hash: u64,
    bit_index: u32,
    hash_bits: u8,
    result: Result<Option<InsertMetadata>, SaturationError>,
)
    requires
        is_gap_hash_list(p, b, old, n, hash_bits, bit_index as nat),
        !is_prefix_free(p, b, n, hash_bits, bit_index as nat),
        bit_index + hash_bits <= u32::MAX,
        is_plain_insertion(
            p,
            b,
            old,
            new,
            n,
            index,
            register,
            original_hash,
            bit_index,
            hash_bits,
            result,
        ),
        ({
            let capacity = plain_capacity(p, b, old.len(), hash_bits);
            let stored = stored_hashes(old.subrange(0, capacity as int), n, (hash_bits / 8) as nat);
            let e = switch_encoding(p as u32, b as u32, index, register, original_hash, hash_bits as u32);
            &&& !stored.contains(e as nat)
            &&& bit_index / 8 + hash_bits / 8 <= capacity
        }),
    ensures
        ({
            let e = switch_encoding(p as u32, b as u32, index, register, original_hash, hash_bits as u32);
            let end = bit_index + hash_bits;
            &&& result == Ok::<Option<InsertMetadata>, SaturationError>(
                Some(InsertMetadata { hash_bits, duplicates: 0, bit_index: end as u32 }),
            )
            &&& is_gap_hash_list(p, b, new, n + 1, hash_bits, end as nat)
            &&& gap_hashes(p, b, new, n + 1, hash_bits, end as nat).contains(e as nat)
            &&& exists|position: int|
                0 <= position <= n && gap_hashes(p, b, new, n + 1, hash_bits, end as nat)
                    == gap_hashes(p, b, old, n, hash_bits, bit_index as nat).insert(position, e as nat)
        }),
{
    let capacity = plain_capacity(p, b, old.len(), hash_bits);
    let width = (hash_bits / 8) as nat;
    let stored = stored_hashes(old.subrange(0, capacity as int), n, width);
    let e = switch_encoding(p as u32, b as u32, index, register, original_hash, hash_bits as u32) as nat;
    let end = (bit_index + hash_bits) as nat;
    assert(end == (n + 1) * hash_bits) by (nonlinear_arith)
        requires
            n * hash_bits == bit_index,
            end == bit_index + hash_bits,
    ;
    assert(!is_prefix_free(p, b, n + 1, hash_bits, end));
    let position = choose|position: int|
        0 <= position <= n && stored_hashes(new.subrange(0, capacity as int), n + 1, width)
            == stored.insert(position, e);
    assert(stored.insert(position, e)[position] == e);
    assert(gap_hashes(p, b, old, n, hash_bits, bit_index as nat) == stored);
    assert(0 <= position <= n && gap_hashes(p, b, new, n + 1, hash_bits, end) == gap_hashes(
        p,
        b,
        old,
        n,
        hash_bits,
        bit_index as nat,
    ).insert(position, e));
}

/// The code of a list grows by the code of the gap to each hash pushed on it.
pub proof fn lemma_gap_list_code_push(p: u32, b: u32, hashes: Seq<u32>, x: u32, hb: u32, k: nat)
    ensures
        gap_list_code(p, b, hashes.push(x), hb, k) == if hashes.len() == 0 {
            bits_of(x as nat, hb as nat)
        } else {
            gap_list_code(p, b, hashes, hb, k) + gap_code(
                gap_between(p, b, hashes.last(), x, hb),
                k,
            )
        },
{
    assert(hashes.push(x).drop_last() =~= hashes);
}

/// What an insertion into a list of gap hashes leaves: the number of bits of the hashes, the
/// number of hashes that turned out to repeat others, and the bit index at which the list ends.
#[derive(Debug, Clone, Copy, PartialEq, Eq, Structural)]
pub struct InsertMetadata {
    /// The number of bits of each hash of the list.
    pub hash_bits: u8,
    /// The number of hashes that turned out to repeat others.
    pub duplicates: u32,
    /// The bit index at which the list ends.
    pub bit_index: u32,
}

/// The hashes of a list of gap hashes, as 32-bit numbers.
pub open spec fn gap_hashes32(p: u8, b: u8, bytes: Seq<u8>, n: nat, hb: u8, bit_index: nat) -> Seq<u32> {
    gap_hashes(p, b, bytes, n, hb, bit_index).map_values(|h: nat| h as u32)
}

/// The hashes of a list of gap hashes all fit in 32 bits; those of a coded list are the
/// hashes its code stands for.
pub proof fn lemma_gap_hashes32(p: u8, b: u8, bytes: Seq<u8>, n: nat, hb: u8, bit_index: nat)
    requires
        4 <= p <= 18,
        4 <= b <= 6,
        is_gap_hash_list(p, b, bytes, n, hb, bit_index),
        hb <= 32,
    ensures
        gap_hashes32(p, b, bytes, n, hb, bit_index).map_values(|h: u32| h as nat) == gap_hashes(
            p,
            b,
            bytes,
            n,
            hb,
            bit_index,
        ),
        gap_hashes32(p, b, bytes, n, hb, bit_index).len() == n,
        is_prefix_free(p, b, n, hb, bit_index) ==> gap_hashes32(p, b, bytes, n, hb, bit_index)
            == coded_hashes(
            p as u32,
            b as u32,
            stream_of(bytes),
            n,
            hb as u32,
            gap_coefficient(p, b, hb),
            bit_index,
        ),
{
    let l = gap_hashes(p, b, bytes, n, hb, bit_index);
    let h = gap_hashes32(p, b, bytes, n, hb, bit_index);
    if is_prefix_free(p, b, n, hb, bit_index) {
        let c = coded_hashes(
            p as u32,
            b as u32,
            stream_of(bytes),
            n,
            hb as u32,
            gap_coefficient(p, b, hb),
            bit_index,
        );
        assert(h =~= c);
        assert(h.map_values(|x: u32| x as nat) =~= l);
    } else {
        let w = (hb / 8) as nat;
        assert forall|i: int| 0 <= i < l.len() implies (l[i] as u32) as nat == l[i] by {
            crate::shared::lemma_le_value_bound(
                bytes.subrange(0, crate::gap_list::plain_capacity(p, b, bytes.len(), hb) as int),
                i * w,
                w,
            );
            vstd::arithmetic::power2::lemma2_to64();
            if w < 4 {
                vstd::arithmetic::power2::lemma_pow2_strictly_increases(8 * w, 32);
            }
        }
        assert(h.map_values(|x: u32| x as nat) =~= l);
    }
}

/// A list of gap hashes ends within its buffer.
pub proof fn lemma_gap_list_end(p: u8, b: u8, bytes: Seq<u8>, n: nat, hb: u8, bit_index: nat)
    requires
        is_gap_hash_list(p, b, bytes, n, hb, bit_index),
    ensures
        bit_index <= 8 * bytes.len(),
{
    if !is_prefix_free(p, b, n, hb, bit_index) {
        let c = crate::gap_list::plain_capacity(p, b, bytes.len(), hb);
        let w = (hb / 8) as nat;
        assert(hb == 8 * w);
        assert(n * w <= c);
        assert(c <= bytes.len());
        assert(n * hb == 8 * (n * w)) by (nonlinear_arith)
            requires
                hb == 8 * w,
        ;
    }
}

/// The composite hash of a register, whatever the original hash it comes from, holds a register.
pub proof fn lemma_encoding_register(p: u32, b: u32, index: u32, register: u32, hash: u64, hb: u32)
    requires
        4 <= p <= 18,
        4 <= b <= 6,
        p + b <= hb <= 32,
        index < (1u32 << p),
        0 < register <= register_mask(b as u8),
    ensures
        switch_decoding(p, b, switch_encoding(p, b, index, register, hash, hb), hb).0 > 0,
{
    let e = switch_encoding(p, b, index, register, hash, hb);
    let m = register_mask(b as u8) as u32;
    let head = index << ((hb - p) as u32);
    if hb == p + b {
        crate::switch::lemma_decode_narrow(p, b, index, register, hash, hb);
    } else if register > b + 1 {
        let offset = (hb - p - 1 - b) as u32;
        let kept = ((hash >> ((64 - hb + p + b) as u64)) as u32) & low_mask32(offset);
        let fl = (hb - p - 1) as u32;
        assert(((e >> fl) & 1 == 1) && ((e >> offset) & m == register)) by (bit_vector)
            requires
                e == head | (1u32 << fl) | (register << offset) | kept,
                head == index << ((hb - p) as u32),
                index < (1u32 << p),
                kept == ((hash >> ((64 - hb + p + b) as u64)) as u32) & (((1u32 << offset) - 1) as u32),
                register <= m,
                m == 15 && b == 4 || m == 31 && b == 5 || m == 63 && b == 6,
                offset == hb - p - 1 - b,
                fl == hb - p - 1,
                4 <= p <= 18,
                p + b < hb <= 32,
        ;
    } else {
        let fl = (hb - p - 1) as u32;
        let low = ((!hash) >> ((64 - hb + 1 + p) as u64)) as u32;
        assert((e >> fl) & 1 == 0) by (bit_vector)
            requires
                e == head | low,
                head == index << ((hb - p) as u32),
                low == ((!hash) >> ((64 - hb + 1 + p) as u64)) as u32,
                fl == hb - p - 1,
                4 <= p <= 18,
                p + 4 < hb <= 32,
        ;
    }
}

/// The codes of the gaps of a list from the gap to hash `from` on.
pub open spec fn gaps_code(p: u32, b: u32, hashes: Seq<u32>, hb: u32, k: nat, from: int) -> Seq<bool>
    decreases hashes.len() - from,
{
    if from < 1 || from >= hashes.len() {
        Seq::empty()
    } else {
        gap_code(gap_between(p, b, hashes[from - 1], hashes[from], hb), k) + gaps_code(
            p,
            b,
            hashes,
            hb,
            k,
            from + 1,
        )
    }
}

/// The code of a list is the code of its first hashes followed by the codes of the gaps after.
pub proof fn lemma_gap_list_code_split(p: u32, b: u32, hashes: Seq<u32>, hb: u32, k: nat, m: int)
    requires
        1 <= m <= hashes.len(),
    ensures
        gap_list_code(p, b, hashes, hb, k) == gap_list_code(p, b, hashes.take(m), hb, k) + gaps_code(
            p,
            b,
            hashes,
            hb,
            k,
            m,
        ),
    decreases hashes.len() - m,
{
    if m == hashes.len() {
        assert(hashes.take(m) =~= hashes);
        assert(gap_list_code(p, b, hashes, hb, k) + Seq::<bool>::empty() =~= gap_list_code(
            p,
            b,
            hashes,
            hb,
            k,
        ));
    } else {
        lemma_gap_list_code_split(p, b, hashes, hb, k, m + 1);
        crate::gap_list::lemma_gap_list_code_take(p, b, hashes, hb, k, m);
        let g = gap_code(gap_between(p, b, hashes[m - 1], hashes[m], hb), k);
        assert(gap_list_code(p, b, hashes.take(m), hb, k) + g + gaps_code(p, b, hashes, hb, k, m + 1)
            =~= gap_list_code(p, b, hashes.take(m), hb, k) + (g + gaps_code(
            p,
            b,
            hashes,
            hb,
            k,
            m + 1,
        )));
    }
}

/// The gaps after a hash placed in a list are those of the list.
pub proof fn lemma_gaps_code_insert(
    p: u32,
    b: u32,
    hashes: Seq<u32>,
    e: u32,
    j: int,
    hb: u32,
    k: nat,
    m: int,
)
    requires
        0 <= j <= hashes.len(),
        j + 1 <= m,
    ensures
        gaps_code(p, b, hashes.insert(j, e), hb, k, m + 1) == gaps_code(p, b, hashes, hb, k, m),
    decreases hashes.len() - m,
{
    let h2 = hashes.insert(j, e);
    if m < 1 || m >= hashes.len() {
    } else {
        lemma_gaps_code_insert(p, b, hashes, e, j, hb, k, m + 1);
        assert(h2[m] == hashes[m - 1]);
        assert(h2[m + 1] == hashes[m]);
    }
}

/// The code of a list with a hash placed in it: the code of the hashes before its place, the
/// code of its place, the code of the gap to the hash after it, and the rest of the code.
pub proof fn lemma_gap_list_code_insert(
    p: u32,
    b: u32,
    hashes: Seq<u32>,
    e: u32,
    j: int,
    hb: u32,
    k: nat,
)
    requires
        0 < hashes.len(),
        0 <= j <= hashes.len(),
    ensures
        ({
            let code = gap_list_code(p, b, hashes, hb, k);
            let before = gap_list_code(p, b, hashes.take(j), hb, k);
            let placed = if j == 0 {
                bits_of(e as nat, hb as nat)
            } else {
                gap_code(gap_between(p, b, hashes[j - 1], e, hb), k)
            };
            let after = if j < hashes.len() {
                gap_code(gap_between(p, b, e, hashes[j], hb), k)
            } else {
                Seq::<bool>::empty()
            };
            let end_of_next = if j < hashes.len() {
                gap_list_code(p, b, hashes.take(j + 1), hb, k).len()
            } else {
                code.len()
            };
            &&& end_of_next <= code.len()
            &&& gap_list_code(p, b, hashes.insert(j, e), hb, k) == before + placed + after
                + code.subrange(end_of_next as int, code.len() as int)
        }),
{
    let n = hashes.len() as int;
    let h2 = hashes.insert(j, e);
    let code = gap_list_code(p, b, hashes, hb, k);
    assert(h2.take(j) =~= hashes.take(j));
    assert(h2.take(j + 1) =~= hashes.take(j).push(e));
    lemma_gap_list_code_push(p, b, hashes.take(j), e, hb, k);
    if j == n {
        assert(h2 =~= hashes.push(e));
        assert(hashes.take(j) =~= hashes);
        lemma_gap_list_code_push(p, b, hashes, e, hb, k);
        assert(code.subrange(code.len() as int, code.len() as int) =~= Seq::<bool>::empty());
        assert(hashes.last() == hashes[j - 1]);
    } else {
        assert(h2.take(j + 2) =~= hashes.take(j).push(e).push(hashes[j]));
        lemma_gap_list_code_push(p, b, hashes.take(j).push(e), hashes[j], hb, k);
        lemma_gap_list_code_split(p, b, h2, hb, k, j + 2);
        lemma_gaps_code_insert(p, b, hashes, e, j, hb, k, j + 1);
        lemma_gap_list_code_split(p, b, hashes, hb, k, j + 1);
        let first = gap_list_code(p, b, hashes.take(j + 1), hb, k);
        assert(code.subrange(first.len() as int, code.len() as int) =~= gaps_code(
            p,
            b,
            hashes,
            hb,
            k,
            j + 1,
        ));
        if j > 0 {
            assert(hashes.take(j).last() == hashes[j - 1]);
        }
        assert(hashes.take(j).push(e).last() == e);
    }
}

/// The quotients of a sum by a positive number: that of the sum is at most two more than the
/// sum of the quotients, when the sum exceeds the two numbers by at most two.
proof fn lemma_quotient_of_sum(x: nat, y: nat, z: nat, m: nat)
    requires
        m >= 1,
        z <= x + y + 2,
    ensures
        z / m <= x / m + y / m + 2,
{
    vstd::arithmetic::div_mod::lemma_fundamental_div_mod(x as int, m as int);
    vstd::arithmetic::div_mod::lemma_fundamental_div_mod(y as int, m as int);
    vstd::arithmetic::div_mod::lemma_fundamental_div_mod(z as int, m as int);
    let qx = x / m;
    let qy = y / m;
    let qz = z / m;
    assert(qz <= qx + qy + 2) by (nonlinear_arith)
        requires
            m >= 1,
            x == m * qx + x % m,
            y == m * qy + y % m,
            z == m * qz + z % m,
            0 <= x % m < m,
            0 <= y % m < m,
            0 <= z % m < m,
            z <= x + y + 2,
    ;
}

/// Placing a hash between two hashes of a list never shortens its code: the codes of the two
/// new gaps take at least as many bits as that of the gap they replace.
pub proof fn lemma_insertion_grows(p: u32, b: u32, previous: u32, e: u32, next: u32, hb: u32, k: nat)
    requires
        4 <= p <= 18,
        4 <= b <= 6,
        p + b <= hb <= 32,
        previous > e > next,
        fits_bits(previous, hb),
        fits_bits(e, hb),
    ensures
        gap_code(gap_between(p, b, previous, e, hb), k).len() + gap_code(
            gap_between(p, b, e, next, hb),
            k,
        ).len() >= gap_code(gap_between(p, b, previous, next, hb), k).len(),
{
    crate::gaps::lemma_uniform_bounds(p, b, previous, e, hb);
    crate::gaps::lemma_uniform_bounds(p, b, e, next, hb);
    crate::gaps::lemma_uniform_bounds(p, b, previous, next, hb);
    vstd::arithmetic::power2::lemma_pow2_pos(k);
    let g1 = gap_between(p, b, previous, e, hb);
    let g2 = gap_between(p, b, e, next, hb);
    let g = gap_between(p, b, previous, next, hb);
    lemma_quotient_of_sum(
        g1.uniform_delta as nat,
        g2.uniform_delta as nat,
        g.uniform_delta as nat,
        pow2(k),
    );
}

/// The entries recorded while writing one more hash: those before, and the hash when it opens
/// its bucket.
pub proof fn lemma_opener_updates_step(p: u8, b: u8, hb: u8, m: Seq<u32>, k: nat, t: nat)
    ensures
        opener_updates(p, b, hb, m, k, t + 1) == opener_updates(p, b, hb, m, k, t) + if opens_bucket(
            p,
            hb,
            m,
            t as int,
        ) {
            seq![(gap_list_code(p as u32, b as u32, m.take(t as int), hb as u32, k).len() as u32, m[t as int])]
        } else {
            Seq::<(u32, u32)>::empty()
        },
{
    let previous = opener_updates(p, b, hb, m, k, t);
    if opens_bucket(p, hb, m, t as int) {
        assert(previous.push((gap_list_code(p as u32, b as u32, m.take(t as int), hb as u32, k).len() as u32, m[t as int]))
            =~= previous + seq![(gap_list_code(p as u32, b as u32, m.take(t as int), hb as u32, k).len() as u32, m[t as int])]);
    } else {
        assert(previous =~= previous + Seq::<(u32, u32)>::empty());
    }
}

/// What rewriting a full list of gap hashes with fewer bits per hash leaves, for the hash of
/// the register `register` of index `index` taken from `original_hash`. Either the list is
/// saturated: the buffer is untouched and no width tried fits behind the reader. Or the new
/// number of bits, above which no width tried fits, at which the buffer starts with the code of
/// the rewritten list: the strictly decreasing union of the cut-down hashes and the new hash,
/// each hash left out of it counted as a duplicate; where the list keeps a rank index and the
/// buffer is no larger than its bit indices can address, the rank index is the one of the new
/// list.
pub open spec fn is_downgraded_insertion(
    p: u8,
    b: u8,
    old: Seq<u8>,
    new: Seq<u8>,
    n: nat,
    index: u32,
    register: u32,
    original_hash: u64,
    bit_index: u32,
    hash_bits: u8,
    result: Result<InsertMetadata, SaturationError>,
) -> bool {
    match result {
        Err(error) => {
            &&& error == SaturationError::Saturation(bit_index)
            &&& new == old
            &&& forall|t: u8|
                #![trigger rewrite_fits(p, b, old, n, hash_bits, bit_index, index, register, original_hash, t)]
                p + b <= t <= first_target(p, b, hash_bits) ==> !rewrite_fits(
                    p,
                    b,
                    old,
                    n,
                    hash_bits,
                    bit_index,
                    index,
                    register,
                    original_hash,
                    t,
                )
        },
        Ok(metadata) => {
            let t = metadata.hash_bits;
            let k = gap_coefficient(p, b, t);
            let ds = downgraded_list(
                p as u32,
                b as u32,
                gap_hashes32(p, b, old, n, hash_bits, bit_index as nat),
                hash_bits as u32,
                (hash_bits - t) as u32,
            );
            let e = switch_encoding(p as u32, b as u32, index, register, original_hash, t as u32);
            let code = gap_list_code(p as u32, b as u32, merged_hashes(ds, e), t as u32, k);
            &&& p + b <= t <= hash_bits
            &&& hash_bits < largest_viable_bits(p, b) ==> t < hash_bits
            &&& t - p - b < rice_coefficients(p, b).len()
            &&& is_writable_list(p as u32, b as u32, merged_hashes(ds, e), t as u32, k)
            &&& metadata.bit_index == code.len()
            &&& metadata.bit_index <= bit_index
            &&& stream_of(new).subrange(0, metadata.bit_index as int) == code
            &&& metadata.duplicates == merged_duplicates(ds, e)
            &&& metadata.duplicates + merged_hashes(ds, e).len() == n + 1
            &&& has_rank_index_spec(p, b) && 8 * old.len() <= pow2(rank_index_bits_spec(p, b) as nat)
                ==> is_rank_index_of(stream_of(new), p, b, t, old.len() / 8, merged_hashes(ds, e), k)
            &&& forall|x: u32| #[trigger] merged_hashes(ds, e).contains(x) <==> (x == e || ds.contains(x))
            &&& forall|u: u8|
                #![trigger rewrite_fits(p, b, old, n, hash_bits, bit_index, index, register, original_hash, u)]
                t < u <= first_target(p, b, hash_bits) ==> !rewrite_fits(
                    p,
                    b,
                    old,
                    n,
                    hash_bits,
                    bit_index,
                    index,
                    register,
                    original_hash,
                    u,
                )
        },
    }
}

/// Whether `j` is the place of `e` in the decreasing list `hashes`: after the larger hashes
/// and before the smaller ones.
pub open spec fn is_place(hashes: Seq<u32>, e: u32, j: int) -> bool {
    &&& 0 <= j <= hashes.len()
    &&& j > 0 ==> hashes[j - 1] > e
    &&& j < hashes.len() ==> hashes[j] < e
}

/// The place of `e` in the decreasing list `hashes`.
pub open spec fn place_of(hashes: Seq<u32>, e: u32) -> int {
    choose|j: int| is_place(hashes, e, j)
}

/// A hash has one place in a strictly decreasing list.
pub proof fn lemma_place_unique(hashes: Seq<u32>, e: u32, i: int, j: int)
    requires
        forall|a: int, c: int| 0 <= a < c < hashes.len() ==> hashes[a] > hashes[c],
        is_place(hashes, e, i),
        is_place(hashes, e, j),
    ensures
        i == j,
{
    if i < j {
        assert(hashes[j - 1] <= hashes[i]);
    } else if j < i {
        assert(hashes[i - 1] <= hashes[j]);
    }
}

/// Whether the gaps around the place of `e` in `hashes` can be coded with Rice parameter `k`.
pub open spec fn placement_codable(p: u32, b: u32, hashes: Seq<u32>, e: u32, hb: u32, k: nat) -> bool {
    forall|j: int|
        #[trigger] is_place(hashes, e, j) ==> (j > 0 ==> is_codable_gap(
            gap_between(p, b, hashes[j - 1], e, hb),
            k,
        )) && (j < hashes.len() ==> is_codable_gap(gap_between(p, b, e, hashes[j], hb), k))
}

/// Whether an insertion that fell back on rewriting the list with fewer bits per hash left
/// what `is_downgraded_insertion` describes.
pub open spec fn is_downgraded_fallback(
    p: u8,
    b: u8,
    old: Seq<u8>,
    new: Seq<u8>,
    n: nat,
    index: u32,
    register: u32,
    original_hash: u64,
    bit_index: u32,
    hash_bits: u8,
    result: Result<Option<InsertMetadata>, SaturationError>,
) -> bool {
    match result {
        Ok(Some(metadata)) => is_downgraded_insertion(
            p,
            b,
            old,
            new,
            n,
            index,
            register,
            original_hash,
            bit_index,
            hash_bits,
            Ok(metadata),
        ),
        Err(error) => is_downgraded_insertion(
            p,
            b,
            old,
            new,
            n,
            index,
            register,
            original_hash,
            bit_index,
            hash_bits,
            Err(error),
        ),
        Ok(None) => false,
    }
}

/// The stream `s` of a buffer of `words` words, whose rank index is kept for the coded list
/// `hashes`, once `e` has been spliced into the list in its place: the new hash recorded in the
/// entry of its bucket, where that entry is empty or holds a smaller hash, then the entries of the
/// later buckets moved: the one that holds the hash after `e` to the start of the gap code that
/// now leads to it, the others by the number of bits the code grew.
pub open spec fn rank_index_after_coded_insertion(
    s: Seq<bool>,
    p: u8,
    b: u8,
    hb: u8,
    words: nat,
    hashes: Seq<u32>,
    e: u32,
    k: nat,
) -> Seq<bool> {
    let j = place_of(hashes, e);
    let longer = hashes.insert(j, e);
    let at = gap_list_code(p as u32, b as u32, hashes.take(j), hb as u32, k).len();
    let recorded = rank_update(s, p, b, hb, words, at as u32, e);
    if j < hashes.len() {
        shifted_entries(
            recorded,
            p,
            b,
            hb,
            words,
            rank_bucket(p, hb, e),
            rank_index_capacity_spec(p) - 1,
            hashes[j],
            gap_list_code(p as u32, b as u32, longer.take(j + 1), hb as u32, k).len() as u32,
            (gap_list_code(p as u32, b as u32, longer, hb as u32, k).len() - gap_list_code(
                p as u32,
                b as u32,
                hashes,
                hb as u32,
                k,
            ).len()) as u32,
        )
    } else {
        recorded
    }
}

/// What inserting the hash of the register `register` of index `index` taken from
/// `original_hash` into a prefix-free coded list leaves: nothing new when the list holds it;
/// otherwise the list with the hash in its place, when its code still leaves room for the rank
/// index, the rank index updated for it, or else the list rewritten with fewer bits per hash.
pub open spec fn is_coded_insertion(
    p: u8,
    b: u8,
    old: Seq<u8>,
    new: Seq<u8>,
    n: nat,
    index: u32,
    register: u32,
    original_hash: u64,
    bit_index: u32,
    hash_bits: u8,
    result: Result<Option<InsertMetadata>, SaturationError>,
) -> bool {
    let k = gap_coefficient(p, b, hash_bits);
    let hashes = gap_hashes32(p, b, old, n, hash_bits, bit_index as nat);
    let e = switch_encoding(p as u32, b as u32, index, register, original_hash, hash_bits as u32);
    if hashes.contains(e) {
        result == Ok::<Option<InsertMetadata>, SaturationError>(None) && new == old
    } else {
        let code = gap_list_code(
            p as u32,
            b as u32,
            hashes.insert(place_of(hashes, e), e),
            hash_bits as u32,
            k,
        );
        if code.len() + rank_index_total_size_spec(p, b, hash_bits) > 8 * old.len() {
            is_downgraded_fallback(
                p,
                b,
                old,
                new,
                n,
                index,
                register,
                original_hash,
                bit_index,
                hash_bits,
                result,
            )
        } else {
            &&& result == Ok::<Option<InsertMetadata>, SaturationError>(
                Some(InsertMetadata { hash_bits, duplicates: 0, bit_index: code.len() as u32 }),
            )
            &&& new.len() == old.len()
            &&& stream_of(new).subrange(0, code.len() as int) == code
            &&& stream_of(new) == if has_rank_index_spec(p, b) {
                rank_index_after_coded_insertion(
                    overwrite(stream_of(old), 0, code),
                    p,
                    b,
                    hash_bits,
                    old.len() / 8,
                    hashes,
                    e,
                    k,
                )
            } else {
                overwrite(stream_of(old), 0, code)
            }
        }
    }
}

/// What inserting the hash of the register `register` of index `index` taken from
/// `original_hash` into a plain list leaves: nothing new when the list holds it; the list with
/// the hash in its place when there is room; the list rewritten with fewer bits per hash when
/// its hashes are as short as plain hashes get; otherwise a request to cut them down.
pub open spec fn is_plain_insertion(
    p: u8,
    b: u8,
    old: Seq<u8>,
    new: Seq<u8>,
    n: nat,
    index: u32,
    register: u32,
    original_hash: u64,
    bit_index: u32,
    hash_bits: u8,
    result: Result<Option<InsertMetadata>, SaturationError>,
) -> bool {
    let capacity = plain_capacity(p, b, old.len(), hash_bits);
    let width = (hash_bits / 8) as nat;
    let stored = stored_hashes(old.subrange(0, capacity as int), n, width);
    let e = switch_encoding(p as u32, b as u32, index, register, original_hash, hash_bits as u32) as nat;
    &&& new.len() == old.len()
    &&& stored.contains(e) ==> result == Ok::<Option<InsertMetadata>, SaturationError>(None) && new
        == old
    &&& !stored.contains(e) && bit_index / 8 + width > capacity ==> if hash_bits
        == smallest_viable_bits(p, b) {
        is_downgraded_fallback(
            p,
            b,
            old,
            new,
            n,
            index,
            register,
            original_hash,
            bit_index,
            hash_bits,
            result,
        )
    } else {
        result == Err::<Option<InsertMetadata>, SaturationError>(
            SaturationError::ExtendableSaturation,
        ) && new == old
    }
    &&& !stored.contains(e) && bit_index / 8 + width <= capacity ==> {
        &&& result == Ok::<Option<InsertMetadata>, SaturationError>(
            Some(
                InsertMetadata {
                    hash_bits,
                    duplicates: 0,
                    bit_index: ((n + 1) * hash_bits) as u32,
                },
            ),
        )
        &&& is_hash_list(new.subrange(0, capacity as int), n + 1, hash_bits)
        &&& forall|q: int| (n + 1) * width <= q < capacity ==> #[trigger] new[q] == old[q]
        &&& exists|position: int|
            0 <= position <= n && stored_hashes(new.subrange(0, capacity as int), n + 1, width)
                == stored.insert(position, e)
        &&& new.subrange(capacity as int, new.len() as int) == old.subrange(
            capacity as int,
            old.len() as int,
        )
    }
}

/// Moving the bit indices of the rank index keeps the bits before it.
pub proof fn lemma_shifted_entries_keep(
    s: Seq<bool>,
    p: u8,
    b: u8,
    hb: u8,
    words: nat,
    first: int,
    last: int,
    successor: u32,
    after: u32,
    shift: u32,
    kept: nat,
)
    requires
        4 <= p <= 18,
        4 <= b <= 6,
        has_rank_index_spec(p, b),
        s.len() == 64 * words,
        kept + rank_index_total_size_spec(p, b, hb) <= 64 * words,
        0 <= first,
        last < crate::gaps::rank_index_capacity_spec(p),
    ensures
        crate::rank_index::shifted_entries(s, p, b, hb, words, first, last, successor, after, shift).len() == s.len(),
        crate::rank_index::shifted_entries(s, p, b, hb, words, first, last, successor, after, shift).subrange(
            0,
            kept as int,
        ) == s.subrange(0, kept as int),
    decreases last - first,
{
    if last > first {
        lemma_shifted_entries_keep(s, p, b, hb, words, first, last - 1, successor, after, shift, kept);
        let previous = crate::rank_index::shifted_entries(s, p, b, hb, words, first, last - 1, successor, after, shift);
        let start = crate::rank_index::rank_entry_start(p, b, hb, words, last);
        let c = crate::gaps::rank_index_capacity_spec(p);
        let size = crate::rank_index::rank_entry_size(p, b, hb);
        crate::gaps::lemma_rank_index_precision(p, b);
        assert((last - 1) * size >= 0) by (nonlinear_arith)
            requires
                last >= 1,
        ;
        assert((last - 1) * size + crate::gaps::rank_index_bits_spec(p, b) <= (c - 1) * size) by (nonlinear_arith)
            requires
                1 <= last <= c - 1,
                crate::gaps::rank_index_bits_spec(p, b) <= size,
        ;
        assert(rank_index_total_size_spec(p, b, hb) == (c - 1) * size);
        let r = crate::rank_index::shifted_entries(s, p, b, hb, words, first, last, successor, after, shift);
        assert forall|q: int| 0 <= q < kept implies #[trigger] r[q] == previous[q] by {}
        assert(r.subrange(0, kept as int) =~= previous.subrange(0, kept as int));
    }
}

/// The sizes of the codes around the place of a hash: the codes of its place and of the gap
/// after it replace the code of the hash after it, and take at least as many bits.
pub proof fn lemma_insertion_size(p: u32, b: u32, hashes: Seq<u32>, e: u32, j: int, hb: u32, k: nat)
    requires
        4 <= p <= 18,
        4 <= b <= 6,
        p + b <= hb <= 32,
        0 < hashes.len(),
        is_place(hashes, e, j),
        fits_bits(e, hb),
        forall|i: int| 0 <= i < hashes.len() ==> fits_bits(#[trigger] hashes[i], hb),
    ensures
        ({
            let before = gap_list_code(p, b, hashes.take(j), hb, k).len();
            let end_of_next = if j < hashes.len() {
                gap_list_code(p, b, hashes.take(j + 1), hb, k).len()
            } else {
                gap_list_code(p, b, hashes, hb, k).len()
            };
            let placed = if j == 0 {
                hb as nat
            } else {
                gap_code(gap_between(p, b, hashes[j - 1], e, hb), k).len()
            };
            let after = if j < hashes.len() {
                gap_code(gap_between(p, b, e, hashes[j], hb), k).len()
            } else {
                0
            };
            &&& before <= end_of_next
            &&& end_of_next <= before + placed + after
        }),
{
    let n = hashes.len() as int;
    crate::gap_list::lemma_gap_list_code_prefix(p, b, hashes, hb, k, j);
    if j == n {
        assert(hashes.take(j) =~= hashes);
    } else {
        crate::gap_list::lemma_gap_list_code_take(p, b, hashes, hb, k, if j == 0 { 1 } else { j });
        if j > 0 {
            lemma_insertion_grows(p, b, hashes[j - 1], e, hashes[j], hb, k);
        } else {
            assert(hashes.take(0).len() == 0);
        }
    }
}

/// The list with a hash in its place, as spliced in the stream of the list.
pub proof fn lemma_spliced_insertion(
    p: u32,
    b: u32,
    hashes: Seq<u32>,
    e: u32,
    j: int,
    hb: u32,
    k: nat,
    s: Seq<bool>,
    spliced: Seq<bool>,
)
    requires
        0 < hashes.len(),
        0 < hb,
        0 <= j <= hashes.len(),
        gap_list_code(p, b, hashes, hb, k).len() <= s.len(),
        s.subrange(0, gap_list_code(p, b, hashes, hb, k).len() as int) == gap_list_code(
            p,
            b,
            hashes,
            hb,
            k,
        ),
        ({
            let code = gap_list_code(p, b, hashes, hb, k);
            let at = gap_list_code(p, b, hashes.take(j), hb, k).len();
            let placed = if j == 0 {
                bits_of(e as nat, hb as nat)
            } else {
                gap_code(gap_between(p, b, hashes[j - 1], e, hb), k)
            };
            let after = if j < hashes.len() {
                gap_code(gap_between(p, b, e, hashes[j], hb), k)
            } else {
                Seq::<bool>::empty()
            };
            let end_of_next = if j < hashes.len() {
                gap_list_code(p, b, hashes.take(j + 1), hb, k).len()
            } else {
                code.len()
            };
            &&& end_of_next <= code.len()
            &&& at + placed.len() + after.len() + (code.len() - end_of_next) <= s.len()
            &&& spliced == overwrite(
                s,
                at as int,
                placed + after + s.subrange(end_of_next as int, code.len() as int),
            )
        }),
    ensures
        gap_list_code(p, b, hashes.insert(j, e), hb, k).len() <= spliced.len(),
        spliced.subrange(0, gap_list_code(p, b, hashes.insert(j, e), hb, k).len() as int)
            == gap_list_code(p, b, hashes.insert(j, e), hb, k),
{
    let code = gap_list_code(p, b, hashes, hb, k);
    let at = gap_list_code(p, b, hashes.take(j), hb, k).len();
    lemma_gap_list_code_insert(p, b, hashes, e, j, hb, k);
    crate::gap_list::lemma_gap_list_code_prefix(p, b, hashes, hb, k, j);
    let code2 = gap_list_code(p, b, hashes.insert(j, e), hb, k);
    assert(s.subrange(0, at as int) =~= code.subrange(0, at as int));
    let end_of_next = if j < hashes.len() {
        gap_list_code(p, b, hashes.take(j + 1), hb, k).len()
    } else {
        code.len()
    };
    assert(s.subrange(end_of_next as int, code.len() as int) =~= code.subrange(
        end_of_next as int,
        code.len() as int,
    ));
    assert(spliced.subrange(0, code2.len() as int) =~= code2);
}

impl<P: Precision, B: Bits> GapHash<P, B> {
    /// Writes the code of hash `t` of the list `m` after the codes of the hashes before it:
    /// in full for the first hash, as the gap from the hash before it for the others. With a
    /// rank index, records the position and the hash when the hash opens a new bucket.
    fn write_next(
        writer: &mut BitWriter,
        previous: Option<u32>,
        x: u32,
        hash_bits: u8,
        uniform_coefficient: u8,
        updates: &mut Vec<(u32, u32)>,
        Ghost(m): Ghost<Seq<u32>>,
        Ghost(t): Ghost<int>,
        Ghost(initial): Ghost<Seq<bool>>,
    )
        requires
            P::spec_exponent() + B::spec_number_of_bits() <= hash_bits <= 32,
            uniform_coefficient < 32,
            is_writable_list(
                P::spec_exponent() as u32,
                B::spec_number_of_bits() as u32,
                m,
                hash_bits as u32,
                uniform_coefficient as nat,
            ),
            0 <= t < m.len(),
            x == m[t],
            previous == if t > 0 {
                Some(m[t - 1])
            } else {
                None::<u32>
            },
            old(writer).wf(),
            forall|i: int| 0 <= i < old(updates)@.len() ==> fits_bits(#[trigger] old(updates)@[i].1, hash_bits as u32),
            initial.len() == old(writer).capacity(),
            old(writer).view() == overwrite(
                initial,
                0,
                gap_list_code(
                    P::spec_exponent() as u32,
                    B::spec_number_of_bits() as u32,
                    m.take(t),
                    hash_bits as u32,
                    uniform_coefficient as nat,
                ),
            ),
            old(writer).position() == gap_list_code(
                P::spec_exponent() as u32,
                B::spec_number_of_bits() as u32,
                m.take(t),
                hash_bits as u32,
                uniform_coefficient as nat,
            ).len(),
            gap_list_code(
                P::spec_exponent() as u32,
                B::spec_number_of_bits() as u32,
                m,
                hash_bits as u32,
                uniform_coefficient as nat,
            ).len() <= old(writer).capacity(),
        ensures
            final(writer).wf(),
            forall|i: int| 0 <= i < final(updates)@.len() ==> fits_bits(#[trigger] final(updates)@[i].1, hash_bits as u32),
            final(writer).capacity() == old(writer).capacity(),
            final(updates)@ == old(updates)@ + if has_rank_index_spec(P::spec_exponent(), B::spec_number_of_bits())
                && opens_bucket(P::spec_exponent(), hash_bits, m, t) {
                seq![
                    (
                        gap_list_code(
                            P::spec_exponent() as u32,
                            B::spec_number_of_bits() as u32,
                            m.take(t),
                            hash_bits as u32,
                            uniform_coefficient as nat,
                        ).len() as u32,
                        m[t],
                    ),
                ]
            } else {
                Seq::<(u32, u32)>::empty()
            },
            final(writer).view() == overwrite(
                initial,
                0,
                gap_list_code(
                    P::spec_exponent() as u32,
                    B::spec_number_of_bits() as u32,
                    m.take(t + 1),
                    hash_bits as u32,
                    uniform_coefficient as nat,
                ),
            ),
            final(writer).position() == gap_list_code(
                P::spec_exponent() as u32,
                B::spec_number_of_bits() as u32,
                m.take(t + 1),
                hash_bits as u32,
                uniform_coefficient as nat,
            ).len(),
    {
        let ghost p = P::spec_exponent() as u32;
        let ghost b = B::spec_number_of_bits() as u32;
        let ghost k = uniform_coefficient as nat;
        let ghost hb = hash_bits as u32;
        proof {
            P::lemma_exponent_range();
            B::lemma_number_of_bits_range();
            assert(m.take(t).push(x) =~= m.take(t + 1));
            lemma_gap_list_code_push(p, b, m.take(t), x, hb, k);
            crate::gap_list::lemma_gap_list_code_prefix(p, b, m, hb, k, t + 1);
            old(writer).lemma_view_len();
            assert(fits_bits(m[t], hb));
        }
        match previous {
            None => {
                writer.write_bits(x as u64, hash_bits);
                proof {
                    assert(!opens_bucket(P::spec_exponent(), hash_bits, m, t));
                    assert(updates@ =~= old(updates)@ + Seq::<(u32, u32)>::empty());
                    assert(m.take(t) =~= Seq::<u32>::empty());
                    assert(overwrite(initial, 0, Seq::<bool>::empty()) =~= initial);
                    crate::bitstream::lemma_overwrite_compose(
                        initial,
                        0,
                        Seq::<bool>::empty(),
                        bits_of(x as nat, hash_bits as nat),
                    );
                    assert(Seq::<bool>::empty() + bits_of(x as nat, hash_bits as nat) =~= bits_of(
                        x as nat,
                        hash_bits as nat,
                    ));
                }
            },
            Some(previous_hash) => {
                proof {
                    assert(m[t - 1] > m[t]);
                    assert(fits_bits(m[t - 1], hb));
                    assert(m.take(t).last() == m[t - 1]);
                    assert(is_codable_gap(gap_between(p, b, m[t - 1], m[t], hb), k));
                }
                let gap = Self::into_gap_fragment(previous_hash, x, hash_bits);
                let ghost before = updates@;
                if Self::has_rank_index() {
                    if Self::rank_index_hash_bucket(hash_bits, x) > Self::rank_index_hash_bucket(
                        hash_bits,
                        previous_hash,
                    ) {
                        updates.push((writer.tell(), x));
                    }
                }
                proof {
                    if has_rank_index_spec(P::spec_exponent(), B::spec_number_of_bits())
                        && opens_bucket(P::spec_exponent(), hash_bits, m, t) {
                        assert(updates@ =~= before + seq![(gap_list_code(p, b, m.take(t), hb, k).len() as u32, m[t])]);
                    } else {
                        assert(updates@ =~= before + Seq::<(u32, u32)>::empty());
                    }
                }
                proof {
                    let code = gap_code(gap, k);
                    assert(code == rice_code(gap.uniform_delta as nat, k) + crate::bitstream::unary_code(
                        gap.geometric_minus_one as nat,
                    ));
                }
                writer.write_rice(gap.uniform_delta, gap.geometric_minus_one, uniform_coefficient);
                proof {
                    crate::bitstream::lemma_overwrite_compose(
                        initial,
                        0,
                        gap_list_code(p, b, m.take(t), hb, k),
                        gap_code(gap, k),
                    );
                }
            },
        }
    }

    /// Writes the code of the list read by `iter`, each hash cut down to `hash_bits` bits,
    /// with `encoded_hash` placed in it; returns the number of repeated hashes met.
    #[verifier::spinoff_prover]
    #[verifier::rlimit(80)]
    fn write_merged(
        iter: &mut DispatchedDowngradedIter<'_, P, B>,
        writer: &mut BitWriter,
        encoded_hash: u32,
        hash_bits: u8,
        uniform_coefficient: u8,
        updates: &mut Vec<(u32, u32)>,
        Ghost(stream): Ghost<Seq<bool>>,
        Ghost(hashes): Ghost<Seq<u32>>,
        Ghost(original_bits): Ghost<u8>,
        Ghost(end): Ghost<nat>,
    ) -> (duplicates: u32)
        requires
            P::spec_exponent() + B::spec_number_of_bits() <= hash_bits <= original_bits <= 32,
            reads_downgraded(
                *old(iter),
                stream,
                hashes,
                original_bits,
                (original_bits - hash_bits) as u8,
                end,
                0,
            ),
            0 < hashes.len() < u32::MAX,
            uniform_coefficient < 32,
            is_writable_list(
                P::spec_exponent() as u32,
                B::spec_number_of_bits() as u32,
                merged_hashes(
                    downgraded_list(
                        P::spec_exponent() as u32,
                        B::spec_number_of_bits() as u32,
                        hashes,
                        original_bits as u32,
                        (original_bits - hash_bits) as u32,
                    ),
                    encoded_hash,
                ),
                hash_bits as u32,
                uniform_coefficient as nat,
            ),
            old(writer).wf(),
            old(writer).position() == 0,
            forall|i: int| 0 <= i < old(updates)@.len() ==> fits_bits(#[trigger] old(updates)@[i].1, hash_bits as u32),
            gap_list_code(
                P::spec_exponent() as u32,
                B::spec_number_of_bits() as u32,
                merged_hashes(
                    downgraded_list(
                        P::spec_exponent() as u32,
                        B::spec_number_of_bits() as u32,
                        hashes,
                        original_bits as u32,
                        (original_bits - hash_bits) as u32,
                    ),
                    encoded_hash,
                ),
                hash_bits as u32,
                uniform_coefficient as nat,
            ).len() <= old(writer).capacity(),
        ensures
            final(writer).wf(),
            final(writer).capacity() == old(writer).capacity(),
            forall|i: int| 0 <= i < final(updates)@.len() ==> fits_bits(#[trigger] final(updates)@[i].1, hash_bits as u32),
            ({
                let m = merged_hashes(
                    downgraded_list(
                        P::spec_exponent() as u32,
                        B::spec_number_of_bits() as u32,
                        hashes,
                        original_bits as u32,
                        (original_bits - hash_bits) as u32,
                    ),
                    encoded_hash,
                );
                let code = gap_list_code(
                    P::spec_exponent() as u32,
                    B::spec_number_of_bits() as u32,
                    m,
                    hash_bits as u32,
                    uniform_coefficient as nat,
                );
                &&& final(writer).view() == overwrite(old(writer).view(), 0, code)
                &&& final(writer).position() == code.len()
            }),
            duplicates == merged_duplicates(
                downgraded_list(
                    P::spec_exponent() as u32,
                    B::spec_number_of_bits() as u32,
                    hashes,
                    original_bits as u32,
                    (original_bits - hash_bits) as u32,
                ),
                encoded_hash,
            ),
            has_rank_index_spec(P::spec_exponent(), B::spec_number_of_bits()) ==> final(updates)@ == old(
                updates,
            )@ + ({
                let m = merged_hashes(
                    downgraded_list(
                        P::spec_exponent() as u32,
                        B::spec_number_of_bits() as u32,
                        hashes,
                        original_bits as u32,
                        (original_bits - hash_bits) as u32,
                    ),
                    encoded_hash,
                );
                opener_updates(
                    P::spec_exponent(),
                    B::spec_number_of_bits(),
                    hash_bits,
                    m,
                    uniform_coefficient as nat,
                    m.len(),
                )
            }),
    {
        let ghost p = P::spec_exponent() as u32;
        let ghost b = B::spec_number_of_bits() as u32;
        let ghost k = uniform_coefficient as nat;
        let ghost hb = hash_bits as u32;
        let ghost shift = (original_bits - hash_bits) as u8;
        let ghost ds = downgraded_list(p, b, hashes, original_bits as u32, shift as u32);
        let ghost m = merged_hashes(ds, encoded_hash);
        let ghost initial = writer.view();
        let ghost initial_updates = updates@;
        let ghost n = hashes.len();
        proof {
            writer.lemma_view_len();
            assert(m.take(0) =~= Seq::<u32>::empty());
            assert(overwrite(initial, 0, Seq::<bool>::empty()) =~= initial);
        }
        let mut previous: Option<u32> = None;
        let mut duplicates: u32 = 0;
        let mut accounted = false;
        let mut maybe_next = Self::next_downgraded(
            iter,
            Ghost(stream),
            Ghost(hashes),
            Ghost(original_bits),
            Ghost(shift),
            Ghost(end),
            Ghost(0),
        );
        let mut maybe_double_next = Self::next_downgraded(
            iter,
            Ghost(stream),
            Ghost(hashes),
            Ghost(original_bits),
            Ghost(shift),
            Ghost(end),
            Ghost(1),
        );
        let ghost mut j: nat = 0;
        loop
            invariant
                p == P::spec_exponent(),
                b == B::spec_number_of_bits(),
                hb == hash_bits,
                k == uniform_coefficient,
                P::spec_exponent() + B::spec_number_of_bits() <= hash_bits <= original_bits <= 32,
                shift == original_bits - hash_bits,
                uniform_coefficient < 32,
                n == hashes.len(),
                0 < n < u32::MAX,
                ds == downgraded_list(p, b, hashes, original_bits as u32, shift as u32),
                m == merged_hashes(ds, encoded_hash),
                is_writable_list(p, b, m, hb, k),
                gap_list_code(p, b, m, hb, k).len() <= writer.capacity(),
                initial.len() == writer.capacity(),
                j <= n,
                reads_downgraded(
                    *iter,
                    stream,
                    hashes,
                    original_bits,
                    shift,
                    end,
                    if j + 2 <= n {
                        j + 2
                    } else {
                        n
                    },
                ),
                maybe_next == if j < n {
                    Some(ds[j as int])
                } else {
                    None::<u32>
                },
                maybe_double_next == if j + 1 < n {
                    Some(ds[j + 1int])
                } else {
                    None::<u32>
                },
                merge_state(ds, encoded_hash, j).1 == accounted,
                merge_state(ds, encoded_hash, j).2 == duplicates,
                duplicates <= j,
                j < n ==> previous == if merge_state(ds, encoded_hash, j).0.len() > 0 {
                    Some(merge_state(ds, encoded_hash, j).0.last())
                } else {
                    None::<u32>
                },
                m.take(merge_state(ds, encoded_hash, j).0.len() as int) == merge_state(
                    ds,
                    encoded_hash,
                    j,
                ).0,
                merge_state(ds, encoded_hash, j).0.len() <= m.len(),
                writer.wf(),
                writer.capacity() == old(writer).capacity(),
                forall|i: int| 0 <= i < updates@.len() ==> fits_bits(#[trigger] updates@[i].1, hash_bits as u32),
                has_rank_index_spec(P::spec_exponent(), B::spec_number_of_bits()) ==> updates@
                    == initial_updates + opener_updates(
                    P::spec_exponent(),
                    B::spec_number_of_bits(),
                    hash_bits,
                    m,
                    k,
                    merge_state(ds, encoded_hash, j).0.len(),
                ),
                writer.view() == overwrite(
                    initial,
                    0,
                    gap_list_code(p, b, merge_state(ds, encoded_hash, j).0, hb, k),
                ),
                writer.position() == gap_list_code(
                    p,
                    b,
                    merge_state(ds, encoded_hash, j).0,
                    hb,
                    k,
                ).len(),
            ensures
                j == n,
                forall|i: int| 0 <= i < updates@.len() ==> fits_bits(#[trigger] updates@[i].1, hash_bits as u32),
                writer.wf(),
                writer.capacity() == old(writer).capacity(),
                writer.view() == overwrite(initial, 0, gap_list_code(p, b, m, hb, k)),
                writer.position() == gap_list_code(p, b, m, hb, k).len(),
                duplicates == merged_duplicates(ds, encoded_hash),
                has_rank_index_spec(P::spec_exponent(), B::spec_number_of_bits()) ==> updates@
                    == initial_updates + opener_updates(
                    P::spec_exponent(),
                    B::spec_number_of_bits(),
                    hash_bits,
                    m,
                    k,
                    m.len(),
                ),
            decreases n - j,
        {
            let next = match maybe_next {
                None => {
                    proof {
                        assert(m.take(m.len() as int) =~= m);
                    }
                    break ;
                },
                Some(next) => next,
            };
            let ghost state = merge_state(ds, encoded_hash, j);
            let ghost out = state.0;
            let ghost after = merge_state(ds, encoded_hash, j + 1);
            proof {
                lemma_merge_state_grows(ds, encoded_hash, j + 1, n);
                assert(m.take(after.0.len() as int) =~= after.0);
            }
            maybe_next = maybe_double_next;
            maybe_double_next = Self::next_downgraded(
                iter,
                Ghost(stream),
                Ghost(hashes),
                Ghost(original_bits),
                Ghost(shift),
                Ghost(end),
                Ghost(
                    if j + 2 <= n {
                        j + 2
                    } else {
                        n
                    },
                ),
            );
            if previous.is_some() && previous.unwrap() == next {
                duplicates = duplicates + 1;
                if maybe_next.is_none() && !accounted {
                    accounted = true;
                    proof {
                        assert(after.0 =~= m.take(after.0.len() as int));
                    }
                    Self::write_next(
                        writer,
                        previous,
                        encoded_hash,
                        hash_bits,
                        uniform_coefficient,
                        updates,
                        Ghost(m),
                        Ghost(after.0.len() - 1int),
                        Ghost(initial),
                    );
                proof {
                    lemma_opener_updates_step(P::spec_exponent(), B::spec_number_of_bits(), hash_bits, m, k, (after.0.len() - 1int) as nat);
                }
                }
                proof {
                    j = j + 1;
                }
                continue ;
            }
            if encoded_hash == next {
                accounted = true;
                duplicates = duplicates + 1;
            }
            if encoded_hash > next && !accounted {
                accounted = true;
                proof {
                    assert(after.0 == out.push(encoded_hash).push(next));
                    assert(out.push(encoded_hash) =~= m.take(out.len() + 1int));
                    assert(m.take(out.len() + 2int)[out.len() as int] == encoded_hash);
                    assert(m[out.len() as int] == encoded_hash);
                }
                Self::write_next(
                    writer,
                    previous,
                    encoded_hash,
                    hash_bits,
                    uniform_coefficient,
                    updates,
                    Ghost(m),
                    Ghost(out.len() as int),
                    Ghost(initial),
                );
                proof {
                    lemma_opener_updates_step(P::spec_exponent(), B::spec_number_of_bits(), hash_bits, m, k, (out.len() as int) as nat);
                }
                proof {
                    assert(after.0 == out.push(encoded_hash).push(next));
                    assert(out.push(encoded_hash).push(next) =~= m.take(out.len() + 2int));
                    assert(m.take(out.len() + 2int)[out.len() + 1int] == next);
                    assert(m[out.len() + 1int] == next);
                }
                Self::write_next(
                    writer,
                    Some(encoded_hash),
                    next,
                    hash_bits,
                    uniform_coefficient,
                    updates,
                    Ghost(m),
                    Ghost(out.len() + 1int),
                    Ghost(initial),
                );
                proof {
                    lemma_opener_updates_step(P::spec_exponent(), B::spec_number_of_bits(), hash_bits, m, k, (out.len() + 1int) as nat);
                }
            } else {
                proof {
                    assert(after.0.subrange(0, out.len() + 1int) =~= out.push(next));
                    assert(out.push(next) =~= m.take(out.len() + 1int));
                    assert(m.take(out.len() + 1int)[out.len() as int] == next);
                    assert(m[out.len() as int] == next);
                }
                Self::write_next(
                    writer,
                    previous,
                    next,
                    hash_bits,
                    uniform_coefficient,
                    updates,
                    Ghost(m),
                    Ghost(out.len() as int),
                    Ghost(initial),
                );
                proof {
                    lemma_opener_updates_step(P::spec_exponent(), B::spec_number_of_bits(), hash_bits, m, k, (out.len() as int) as nat);
                }
            }
            previous = Some(next);
            if maybe_next.is_none() && !accounted {
                accounted = true;
                proof {
                    assert(after.0 =~= m.take(after.0.len() as int));
                }
                Self::write_next(
                    writer,
                    previous,
                    encoded_hash,
                    hash_bits,
                    uniform_coefficient,
                    updates,
                    Ghost(m),
                    Ghost(after.0.len() - 1int),
                    Ghost(initial),
                );
                proof {
                    lemma_opener_updates_step(P::spec_exponent(), B::spec_number_of_bits(), hash_bits, m, k, (after.0.len() - 1int) as nat);
                }
            }
            proof {
                j = j + 1;
            }
        }
        duplicates
    }

    /// The number of bits by which the code of the list `written`, whose last hash is
    /// `previous`, grows when `x` is pushed on it, when the longer list is writable; `None`
    /// otherwise.
    fn size_next(
        previous: Option<u32>,
        x: u32,
        hash_bits: u8,
        uniform_coefficient: u8,
        Ghost(written): Ghost<Seq<u32>>,
    ) -> (size: Option<u64>)
        requires
            P::spec_exponent() + B::spec_number_of_bits() <= hash_bits <= 32,
            uniform_coefficient < 32,
            is_writable_list(
                P::spec_exponent() as u32,
                B::spec_number_of_bits() as u32,
                written,
                hash_bits as u32,
                uniform_coefficient as nat,
            ),
            previous == if written.len() > 0 {
                Some(written.last())
            } else {
                None::<u32>
            },
        ensures
            size matches Some(sz) ==> {
                &&& is_writable_list(
                    P::spec_exponent() as u32,
                    B::spec_number_of_bits() as u32,
                    written.push(x),
                    hash_bits as u32,
                    uniform_coefficient as nat,
                )
                &&& gap_list_code(
                    P::spec_exponent() as u32,
                    B::spec_number_of_bits() as u32,
                    written.push(x),
                    hash_bits as u32,
                    uniform_coefficient as nat,
                ).len() == gap_list_code(
                    P::spec_exponent() as u32,
                    B::spec_number_of_bits() as u32,
                    written,
                    hash_bits as u32,
                    uniform_coefficient as nat,
                ).len() + sz
                &&& sz <= 0x1_0000_0000
            },
            size is Some <==> is_writable_list(
                P::spec_exponent() as u32,
                B::spec_number_of_bits() as u32,
                written.push(x),
                hash_bits as u32,
                uniform_coefficient as nat,
            ),
    {
        let ghost p = P::spec_exponent() as u32;
        let ghost b = B::spec_number_of_bits() as u32;
        let ghost k = uniform_coefficient as nat;
        let ghost hb = hash_bits as u32;
        let ghost pushed = written.push(x);
        let ghost last = written.len() as int;
        proof {
            P::lemma_exponent_range();
            B::lemma_number_of_bits_range();
            lemma_gap_list_code_push(p, b, written, x, hb, k);
            vstd::arithmetic::power2::lemma2_to64();
            assert(pushed[last] == x);
        }
        if (x as u64) >= (1u64 << hash_bits) {
            proof {
                assert(!fits_bits(pushed[last], hb));
            }
            return None;
        }
        if Self::decode(x, hash_bits).0 == 0 {
            proof {
                assert(switch_decoding(p, b, pushed[last], hb).0 == 0);
            }
            return None;
        }
        match previous {
            None => {
                proof {
                    assert(forall|i: int| 0 <= i < pushed.len() ==> pushed[i] == x);
                }
                Some(hash_bits as u64)
            },
            Some(previous_hash) => {
                if previous_hash <= x {
                    proof {
                        assert(pushed[last - 1] == written.last());
                        assert(!(pushed[last - 1] > pushed[last]));
                    }
                    return None;
                }
                proof {
                    assert(fits_bits(written.last(), hb));
                }
                let gap = Self::into_gap_fragment(previous_hash, x, hash_bits);
                proof {
                    vstd::bits::lemma_u32_shr_is_div(gap.uniform_delta, uniform_coefficient as u32);
                }
                if (gap.uniform_delta >> uniform_coefficient) > 254 || gap.geometric_minus_one > 254 {
                    proof {
                        assert(pushed[last - 1] == written.last());
                        assert(!is_codable_gap(gap_between(p, b, pushed[last - 1], pushed[last], hb), k));
                    }
                    return None;
                }
                proof {
                    assert(pushed[pushed.len() - 2] == written.last());
                    assert forall|i: int| 0 < i < pushed.len() implies is_codable_gap(
                        #[trigger] gap_between(p, b, pushed[i - 1], pushed[i], hb),
                        k,
                    ) by {
                        if i < pushed.len() - 1 {
                            assert(pushed[i - 1] == written[i - 1] && pushed[i] == written[i]);
                        }
                    }
                    vstd::arithmetic::power2::lemma_pow2_pos(k);
                    assert(gap.geometric_minus_one as nat / pow2(0) == gap.geometric_minus_one);
                    let q = gap.uniform_delta as nat / pow2(k);
                    assert(gap_code(gap, k).len() == q + 1 + k + gap.geometric_minus_one + 1);
                }
                let length = len_rice(gap.uniform_delta, uniform_coefficient, gap.geometric_minus_one, 0);
                Some(length as u64)
            },
        }
    }

    /// The number of bits of the code of the list read by `iter`, each hash cut down to
    /// `hash_bits` bits, with `encoded_hash` placed in it, when that list stays writable and
    /// its code keeps behind what has been read of the list and within `bit_index` bits;
    /// `None` otherwise. It is never `None` for a list that fits behind a reader two hashes
    /// ahead of the writer.
    #[verifier::spinoff_prover]
    #[verifier::rlimit(80)]
    fn fits_downgraded(
        iter: &mut DispatchedDowngradedIter<'_, P, B>,
        encoded_hash: u32,
        hash_bits: u8,
        uniform_coefficient: u8,
        bit_index: u32,
        Ghost(stream): Ghost<Seq<bool>>,
        Ghost(hashes): Ghost<Seq<u32>>,
        Ghost(original_bits): Ghost<u8>,
        Ghost(end): Ghost<nat>,
    ) -> (size: Option<u64>)
        requires
            P::spec_exponent() + B::spec_number_of_bits() <= hash_bits <= original_bits <= 32,
            reads_downgraded(
                *old(iter),
                stream,
                hashes,
                original_bits,
                (original_bits - hash_bits) as u8,
                end,
                0,
            ),
            0 < hashes.len() < u32::MAX,
            hashes.len() * original_bits <= u32::MAX,
            uniform_coefficient < 32,
        ensures
            fits_behind_reader(
                P::spec_exponent(),
                B::spec_number_of_bits(),
                hashes,
                original_bits,
                *old(iter) is PrefixCodeDowngradedIter,
                encoded_hash,
                hash_bits,
                uniform_coefficient as nat,
                bit_index as nat,
            ) ==> size == Some(
                gap_list_code(
                    P::spec_exponent() as u32,
                    B::spec_number_of_bits() as u32,
                    merged_hashes(
                        downgraded_list(
                            P::spec_exponent() as u32,
                            B::spec_number_of_bits() as u32,
                            hashes,
                            original_bits as u32,
                            (original_bits - hash_bits) as u32,
                        ),
                        encoded_hash,
                    ),
                    hash_bits as u32,
                    uniform_coefficient as nat,
                ).len() as u64,
            ),
            size matches Some(sz) ==> {
                let m = merged_hashes(
                    downgraded_list(
                        P::spec_exponent() as u32,
                        B::spec_number_of_bits() as u32,
                        hashes,
                        original_bits as u32,
                        (original_bits - hash_bits) as u32,
                    ),
                    encoded_hash,
                );
                &&& is_writable_list(
                    P::spec_exponent() as u32,
                    B::spec_number_of_bits() as u32,
                    m,
                    hash_bits as u32,
                    uniform_coefficient as nat,
                )
                &&& gap_list_code(
                    P::spec_exponent() as u32,
                    B::spec_number_of_bits() as u32,
                    m,
                    hash_bits as u32,
                    uniform_coefficient as nat,
                ).len() == sz
                &&& sz <= bit_index
            },
    {
        let ghost p = P::spec_exponent() as u32;
        let ghost b = B::spec_number_of_bits() as u32;
        let ghost k = uniform_coefficient as nat;
        let ghost hb = hash_bits as u32;
        let ghost shift = (original_bits - hash_bits) as u8;
        let ghost ds = downgraded_list(p, b, hashes, original_bits as u32, shift as u32);
        let ghost n = hashes.len();
        let ghost coded = *iter is PrefixCodeDowngradedIter;
        let ghost m = merged_hashes(ds, encoded_hash);
        let ghost h = fits_behind_reader(
            P::spec_exponent(),
            B::spec_number_of_bits(),
            hashes,
            original_bits,
            coded,
            encoded_hash,
            hash_bits,
            k,
            bit_index as nat,
        );
        let mut previous: Option<u32> = None;
        let mut writer_tell: u64 = 0;
        let mut accounted = false;
        let mut maybe_next = Self::next_downgraded(
            iter,
            Ghost(stream),
            Ghost(hashes),
            Ghost(original_bits),
            Ghost(shift),
            Ghost(end),
            Ghost(0),
        );
        let mut maybe_double_next = Self::next_downgraded(
            iter,
            Ghost(stream),
            Ghost(hashes),
            Ghost(original_bits),
            Ghost(shift),
            Ghost(end),
            Ghost(1),
        );
        let ghost mut j: nat = 0;
        let ghost mut out: Seq<u32> = Seq::empty();
        loop
            invariant
                p == P::spec_exponent(),
                b == B::spec_number_of_bits(),
                hb == hash_bits,
                k == uniform_coefficient,
                P::spec_exponent() + B::spec_number_of_bits() <= hash_bits <= original_bits <= 32,
                shift == original_bits - hash_bits,
                uniform_coefficient < 32,
                n == hashes.len(),
                0 < n < u32::MAX,
                ds == downgraded_list(p, b, hashes, original_bits as u32, shift as u32),
                j <= n,
                reads_downgraded(
                    *iter,
                    stream,
                    hashes,
                    original_bits,
                    shift,
                    end,
                    if j + 2 <= n {
                        j + 2
                    } else {
                        n
                    },
                ),
                maybe_next == if j < n {
                    Some(ds[j as int])
                } else {
                    None::<u32>
                },
                maybe_double_next == if j + 1 < n {
                    Some(ds[j + 1int])
                } else {
                    None::<u32>
                },
                out == merge_state(ds, encoded_hash, j).0,
                accounted == merge_state(ds, encoded_hash, j).1,
                j < n ==> previous == if out.len() > 0 {
                    Some(out.last())
                } else {
                    None::<u32>
                },
                is_writable_list(p, b, out, hb, k),
                writer_tell == gap_list_code(p, b, out, hb, k).len(),
                writer_tell <= bit_index,
                hashes.len() * original_bits <= u32::MAX,
                (*iter is PrefixCodeDowngradedIter) == coded,
                coded == (*old(iter) is PrefixCodeDowngradedIter),
                m == merged_hashes(ds, encoded_hash),
                h == fits_behind_reader(
                    P::spec_exponent(),
                    B::spec_number_of_bits(),
                    hashes,
                    original_bits,
                    coded,
                    encoded_hash,
                    hash_bits,
                    k,
                    bit_index as nat,
                ),
            decreases n - j,
        {
            let next = match maybe_next {
                None => {
                    return Some(writer_tell);
                },
                Some(next) => next,
            };
            maybe_next = maybe_double_next;
            maybe_double_next = Self::next_downgraded(
                iter,
                Ghost(stream),
                Ghost(hashes),
                Ghost(original_bits),
                Ghost(shift),
                Ghost(end),
                Ghost(
                    if j + 2 <= n {
                        j + 2
                    } else {
                        n
                    },
                ),
            );
            if previous.is_some() && previous.unwrap() == next {
                if maybe_next.is_none() && !accounted {
                    accounted = true;
                    match Self::size_next(previous, encoded_hash, hash_bits, uniform_coefficient, Ghost(out)) {
                        None => {
                            proof {
                                if h {
                                    lemma_fits_behind_reader(
                                        P::spec_exponent(),
                                        B::spec_number_of_bits(),
                                        hashes,
                                        original_bits,
                                        coded,
                                        encoded_hash,
                                        hash_bits,
                                        k,
                                        bit_index as nat,
                                        0,
                                    );
                                    assert(merge_state(ds, encoded_hash, (j + 1) as nat).0.subrange(
                                        0,
                                        out.len() + 1int,
                                    ) =~= out.push(encoded_hash));
                                    lemma_merged_prefix_writable(
                                        p,
                                        b,
                                        ds,
                                        encoded_hash,
                                        (j + 1) as nat,
                                        out.push(encoded_hash),
                                        hb,
                                        k,
                                    );
                                }
                            }
                            return None;
                        },
                        Some(size) => {
                            writer_tell = writer_tell + size;
                        },
                    }
                    proof {
                        out = out.push(encoded_hash);
                    }
                    if writer_tell > (bit_index as u64) {
                        proof {
                            if h {
                                lemma_fits_behind_reader(
                                    P::spec_exponent(),
                                    B::spec_number_of_bits(),
                                    hashes,
                                    original_bits,
                                    coded,
                                    encoded_hash,
                                    hash_bits,
                                    k,
                                    bit_index as nat,
                                    0,
                                );
                                assert(out == m);
                            }
                        }
                        return None;
                    }
                }
                proof {
                    j = j + 1;
                }
                continue ;
            }
            if encoded_hash == next {
                accounted = true;
            }
            if encoded_hash > next && !accounted {
                accounted = true;
                match Self::size_next(previous, encoded_hash, hash_bits, uniform_coefficient, Ghost(out)) {
                    None => {
                        proof {
                            if h {
                                lemma_fits_behind_reader(
                                    P::spec_exponent(),
                                    B::spec_number_of_bits(),
                                    hashes,
                                    original_bits,
                                    coded,
                                    encoded_hash,
                                    hash_bits,
                                    k,
                                    bit_index as nat,
                                    0,
                                );
                                assert(merge_state(ds, encoded_hash, (j + 1) as nat).0.subrange(
                                    0,
                                    out.len() + 1int,
                                ) =~= out.push(encoded_hash));
                                lemma_merged_prefix_writable(
                                    p,
                                    b,
                                    ds,
                                    encoded_hash,
                                    (j + 1) as nat,
                                    out.push(encoded_hash),
                                    hb,
                                    k,
                                );
                            }
                        }
                        return None;
                    },
                    Some(size) => {
                        writer_tell = writer_tell + size;
                    },
                }
                proof {
                    out = out.push(encoded_hash);
                }
                match Self::size_next(Some(encoded_hash), next, hash_bits, uniform_coefficient, Ghost(out)) {
                    None => {
                        proof {
                            if h {
                                lemma_fits_behind_reader(
                                    P::spec_exponent(),
                                    B::spec_number_of_bits(),
                                    hashes,
                                    original_bits,
                                    coded,
                                    encoded_hash,
                                    hash_bits,
                                    k,
                                    bit_index as nat,
                                    0,
                                );
                                assert(merge_state(ds, encoded_hash, (j + 1) as nat).0.subrange(
                                    0,
                                    out.len() + 1int,
                                ) =~= out.push(next));
                                lemma_merged_prefix_writable(
                                    p,
                                    b,
                                    ds,
                                    encoded_hash,
                                    (j + 1) as nat,
                                    out.push(next),
                                    hb,
                                    k,
                                );
                            }
                        }
                        return None;
                    },
                    Some(size) => {
                        writer_tell = writer_tell + size;
                    },
                }
                proof {
                    out = out.push(next);
                }
            } else {
                match Self::size_next(previous, next, hash_bits, uniform_coefficient, Ghost(out)) {
                    None => {
                        proof {
                            if h {
                                lemma_fits_behind_reader(
                                    P::spec_exponent(),
                                    B::spec_number_of_bits(),
                                    hashes,
                                    original_bits,
                                    coded,
                                    encoded_hash,
                                    hash_bits,
                                    k,
                                    bit_index as nat,
                                    0,
                                );
                                assert(merge_state(ds, encoded_hash, (j + 1) as nat).0.subrange(
                                    0,
                                    out.len() + 1int,
                                ) =~= out.push(next));
                                lemma_merged_prefix_writable(
                                    p,
                                    b,
                                    ds,
                                    encoded_hash,
                                    (j + 1) as nat,
                                    out.push(next),
                                    hb,
                                    k,
                                );
                            }
                        }
                        return None;
                    },
                    Some(size) => {
                        writer_tell = writer_tell + size;
                    },
                }
                proof {
                    out = out.push(next);
                }
            }
            previous = Some(next);
            if maybe_next.is_none() && !accounted {
                accounted = true;
                match Self::size_next(previous, encoded_hash, hash_bits, uniform_coefficient, Ghost(out)) {
                    None => {
                        proof {
                            if h {
                                lemma_fits_behind_reader(
                                    P::spec_exponent(),
                                    B::spec_number_of_bits(),
                                    hashes,
                                    original_bits,
                                    coded,
                                    encoded_hash,
                                    hash_bits,
                                    k,
                                    bit_index as nat,
                                    0,
                                );
                                assert(merge_state(ds, encoded_hash, (j + 1) as nat).0.subrange(
                                    0,
                                    out.len() + 1int,
                                ) =~= out.push(encoded_hash));
                                lemma_merged_prefix_writable(
                                    p,
                                    b,
                                    ds,
                                    encoded_hash,
                                    (j + 1) as nat,
                                    out.push(encoded_hash),
                                    hb,
                                    k,
                                );
                            }
                        }
                        return None;
                    },
                    Some(size) => {
                        writer_tell = writer_tell + size;
                    },
                }
                proof {
                    out = out.push(encoded_hash);
                }
            }
            let buffered = iter.last_buffered_bit();
            let ghost current = *iter;
            if writer_tell > (buffered as u64) || writer_tell > (bit_index as u64) {
                proof {
                    if h {
                        let jj = (j + 1) as nat;
                        P::lemma_exponent_range();
                        lemma_fits_behind_reader(
                            P::spec_exponent(),
                            B::spec_number_of_bits(),
                            hashes,
                            original_bits,
                            coded,
                            encoded_hash,
                            hash_bits,
                            k,
                            bit_index as nat,
                            jj,
                        );
                        let st = merge_state(ds, encoded_hash, jj).0;
                        assert(out == st);
                        lemma_merge_state_grows(ds, encoded_hash, jj, n);
                        assert(m.take(st.len() as int) =~= st);
                        lemma_gap_list_code_prefix(p, b, m, hb, k, st.len() as int);
                        let i = if jj + 2 <= n {
                            jj + 2
                        } else {
                            n
                        };
                        assert(gap_list_code(p, b, merge_state(ds, encoded_hash, jj).0, hb, k).len()
                            <= read_end(
                            P::spec_exponent(),
                            B::spec_number_of_bits(),
                            hashes,
                            original_bits,
                            coded,
                            i,
                        ));
                        match current {
                            DispatchedDowngradedIter::PrefixCodeDowngradedIter(it) => {
                                it.inner().lemma_buffered_end();
                            },
                            DispatchedDowngradedIter::InnerDowngradedIter(it) => {
                                assert(i * original_bits <= n * original_bits) by (nonlinear_arith)
                                    requires
                                        i <= n,
                                ;
                                vstd::arithmetic::div_mod::lemma_small_mod(
                                    (i * original_bits) as nat,
                                    0x1_0000_0000,
                                );
                            },
                        }
                    }
                }
                return None;
            }
            proof {
                j = j + 1;
            }
        }
    }

    /// A reader that cuts the hashes of a list of gap hashes down by `shift` bits, as
    /// `reads_downgraded` describes it.
    fn downgraded_reader<'a>(
        hashes: &'a [u8],
        words: &'a [u64],
        number_of_hashes: u32,
        hash_bits: u8,
        bit_index: u32,
        shift: u8,
    ) -> (iter: DispatchedDowngradedIter<'a, P, B>)
        requires
            P::spec_exponent() + B::spec_number_of_bits() + shift <= hash_bits <= 32,
            number_of_hashes * hash_bits <= u32::MAX,
            is_gap_hash_list(
                P::spec_exponent(),
                B::spec_number_of_bits(),
                hashes@,
                number_of_hashes as nat,
                hash_bits,
                bit_index as nat,
            ),
            !is_prefix_free(
                P::spec_exponent(),
                B::spec_number_of_bits(),
                number_of_hashes as nat,
                hash_bits,
                bit_index as nat,
            ) ==> forall|k: int|
                0 <= k < number_of_hashes ==> (#[trigger] switch_decoding(
                    P::spec_exponent() as u32,
                    B::spec_number_of_bits() as u32,
                    gap_hashes(
                        P::spec_exponent(),
                        B::spec_number_of_bits(),
                        hashes@,
                        number_of_hashes as nat,
                        hash_bits,
                        bit_index as nat,
                    )[k] as u32,
                    hash_bits as u32,
                )).0 > 0,
            words@.len() <= 0x01ff_ffff,
            stream_of_words(words@) == stream_of(hashes@),
        ensures
            (iter is PrefixCodeDowngradedIter) == is_prefix_free(
                P::spec_exponent(),
                B::spec_number_of_bits(),
                number_of_hashes as nat,
                hash_bits,
                bit_index as nat,
            ),
            reads_downgraded(
                iter,
                stream_of(hashes@),
                gap_hashes32(
                    P::spec_exponent(),
                    B::spec_number_of_bits(),
                    hashes@,
                    number_of_hashes as nat,
                    hash_bits,
                    bit_index as nat,
                ),
                hash_bits,
                shift,
                bit_index as nat,
                0,
            ),
    {
        proof {
            P::lemma_exponent_range();
            B::lemma_number_of_bits_range();
            lemma_gap_hashes32(
                P::spec_exponent(),
                B::spec_number_of_bits(),
                hashes@,
                number_of_hashes as nat,
                hash_bits,
                bit_index as nat,
            );
            if is_prefix_free(
                P::spec_exponent(),
                B::spec_number_of_bits(),
                number_of_hashes as nat,
                hash_bits,
                bit_index as nat,
            ) {
                lemma_rice_coefficients_small(P::spec_exponent(), B::spec_number_of_bits());
            }
        }
        let iter = Self::downgraded(hashes, words, number_of_hashes, hash_bits, bit_index, shift);
        proof {
            let l = gap_hashes(
                P::spec_exponent(),
                B::spec_number_of_bits(),
                hashes@,
                number_of_hashes as nat,
                hash_bits,
                bit_index as nat,
            );
            if !is_prefix_free(
                P::spec_exponent(),
                B::spec_number_of_bits(),
                number_of_hashes as nat,
                hash_bits,
                bit_index as nat,
            ) {
                assert(l.len() == number_of_hashes);
            }
        }
        iter
    }

    /// The number of bits at which a full list of gap hashes can be rewritten: the largest one
    /// of the Rice table, below the current one when the list is already coded, at which the
    /// rewritten list can be coded, stays behind what is read of the list while it is
    /// rewritten, and takes no more bits than the list did; with its Rice parameter, the hash
    /// to place at that number of bits, and the number of bits of the rewritten list. No number
    /// of bits above the one returned (none at all, when nothing is returned) at which the
    /// rewritten list fits behind its reader is skipped.
    fn downgrade_target(
        hashes: &[u8],
        words: &[u64],
        number_of_hashes: u32,
        index: usize,
        register: u8,
        original_hash: u64,
        bit_index: u32,
        hash_bits: u8,
    ) -> (target: Option<(u8, u8, u32, u64)>)
        requires
            0 < register <= register_mask(B::spec_number_of_bits()),
            (index as nat) < pow2(P::spec_exponent() as nat),
            P::spec_exponent() + B::spec_number_of_bits() <= hash_bits <= 32,
            0 < number_of_hashes < u32::MAX,
            number_of_hashes * hash_bits <= u32::MAX,
            is_gap_hash_list(
                P::spec_exponent(),
                B::spec_number_of_bits(),
                hashes@,
                number_of_hashes as nat,
                hash_bits,
                bit_index as nat,
            ),
            !is_prefix_free(
                P::spec_exponent(),
                B::spec_number_of_bits(),
                number_of_hashes as nat,
                hash_bits,
                bit_index as nat,
            ) ==> forall|k: int|
                0 <= k < number_of_hashes ==> (#[trigger] switch_decoding(
                    P::spec_exponent() as u32,
                    B::spec_number_of_bits() as u32,
                    gap_hashes(
                        P::spec_exponent(),
                        B::spec_number_of_bits(),
                        hashes@,
                        number_of_hashes as nat,
                        hash_bits,
                        bit_index as nat,
                    )[k] as u32,
                    hash_bits as u32,
                )).0 > 0,
            words@.len() <= 0x01ff_ffff,
            stream_of_words(words@) == stream_of(hashes@),
        ensures
            target matches Some((t, coefficient, encoded, size)) ==> {
                let p = P::spec_exponent();
                let b = B::spec_number_of_bits();
                let m = merged_hashes(
                    downgraded_list(
                        p as u32,
                        b as u32,
                        gap_hashes32(p, b, hashes@, number_of_hashes as nat, hash_bits, bit_index as nat),
                        hash_bits as u32,
                        (hash_bits - t) as u32,
                    ),
                    encoded,
                );
                &&& p + b <= t <= hash_bits
                &&& hash_bits < largest_viable_bits(p, b) ==> t < hash_bits
                &&& t - p - b < rice_coefficients(p, b).len()
                &&& coefficient == rice_coefficients(p, b)[t - p - b]
                &&& coefficient < 32
                &&& encoded == switch_encoding(
                    p as u32,
                    b as u32,
                    index as u32,
                    register as u32,
                    original_hash,
                    t as u32,
                )
                &&& is_writable_list(p as u32, b as u32, m, t as u32, coefficient as nat)
                &&& gap_list_code(p as u32, b as u32, m, t as u32, coefficient as nat).len() == size
                &&& size <= bit_index
            },
            forall|t: u8|
                #![trigger rewrite_fits(
                    P::spec_exponent(),
                    B::spec_number_of_bits(),
                    hashes@,
                    number_of_hashes as nat,
                    hash_bits,
                    bit_index,
                    index as u32,
                    register as u32,
                    original_hash,
                    t,
                )]
                P::spec_exponent() + B::spec_number_of_bits() <= t <= first_target(
                    P::spec_exponent(),
                    B::spec_number_of_bits(),
                    hash_bits,
                ) && (target matches Some(r) ==> t > r.0) ==> !rewrite_fits(
                    P::spec_exponent(),
                    B::spec_number_of_bits(),
                    hashes@,
                    number_of_hashes as nat,
                    hash_bits,
                    bit_index,
                    index as u32,
                    register as u32,
                    original_hash,
                    t,
                ),
    {
        proof {
            P::lemma_exponent_range();
            B::lemma_number_of_bits_range();
            lemma_rice_coefficients_small(P::spec_exponent(), B::spec_number_of_bits());
        }
        let ghost p = P::spec_exponent();
        let ghost b = B::spec_number_of_bits();
        let ghost stream = stream_of(hashes@);
        let ghost list = gap_hashes32(p, b, hashes@, number_of_hashes as nat, hash_bits, bit_index as nat);
        proof {
            lemma_gap_hashes32(p, b, hashes@, number_of_hashes as nat, hash_bits, bit_index as nat);
        }
        let table = Self::rice_coefficient_table();
        let smallest = P::exponent() + B::number_of_bits();
        let mut target = if hash_bits < Self::largest_viable_hash_bits() {
            hash_bits - 1
        } else {
            hash_bits
        };
        loop
            invariant
                p == P::spec_exponent(),
                b == B::spec_number_of_bits(),
                4 <= p <= 18,
                4 <= b <= 6,
                smallest == p + b,
                table@ == rice_coefficients(p, b),
                forall|i: int| 0 <= i < table@.len() ==> table@[i] < 32,
                0 < table@.len(),
                p + b + table@.len() <= 33,
                target <= hash_bits,
                hash_bits < largest_viable_bits(p, b) ==> target < hash_bits,
                0 < register <= register_mask(B::spec_number_of_bits()),
                (index as nat) < pow2(P::spec_exponent() as nat),
                P::spec_exponent() + B::spec_number_of_bits() <= hash_bits <= 32,
                0 < number_of_hashes < u32::MAX,
                number_of_hashes * hash_bits <= u32::MAX,
                is_gap_hash_list(p, b, hashes@, number_of_hashes as nat, hash_bits, bit_index as nat),
                !is_prefix_free(p, b, number_of_hashes as nat, hash_bits, bit_index as nat)
                    ==> forall|k: int|
                    0 <= k < number_of_hashes ==> (#[trigger] switch_decoding(
                        p as u32,
                        b as u32,
                        gap_hashes(p, b, hashes@, number_of_hashes as nat, hash_bits, bit_index as nat)[k] as u32,
                        hash_bits as u32,
                    )).0 > 0,
                words@.len() <= 0x01ff_ffff,
                list.len() == number_of_hashes,
                stream == stream_of(hashes@),
                list == gap_hashes32(p, b, hashes@, number_of_hashes as nat, hash_bits, bit_index as nat),
                stream_of_words(words@) == stream_of(hashes@),
                forall|t: u8|
                    #![trigger rewrite_fits(
                        p,
                        b,
                        hashes@,
                        number_of_hashes as nat,
                        hash_bits,
                        bit_index,
                        index as u32,
                        register as u32,
                        original_hash,
                        t,
                    )]
                    p + b <= t <= first_target(p, b, hash_bits) && t > target ==> !rewrite_fits(
                        p,
                        b,
                        hashes@,
                        number_of_hashes as nat,
                        hash_bits,
                        bit_index,
                        index as u32,
                        register as u32,
                        original_hash,
                        t,
                    ),
            decreases target,
        {
            if target < smallest || table.len() == 0 {
                return None;
            }
            let top = smallest + ((table.len() - 1) as u8);
            if target > top {
                target = top;
            }
            let coefficient = table[(target - smallest) as usize];
            let mut iter = Self::downgraded_reader(
                hashes,
                words,
                number_of_hashes,
                hash_bits,
                bit_index,
                hash_bits - target,
            );
            let encoded = Self::encode(index, register, original_hash, target);
            match Self::fits_downgraded(
                &mut iter,
                encoded,
                target,
                coefficient,
                bit_index,
                Ghost(stream),
                Ghost(list),
                Ghost(hash_bits),
                Ghost(bit_index as nat),
            ) {
                Some(size) => {
                    return Some((target, coefficient, encoded, size));
                },
                None => {
                    proof {
                        assert(!rewrite_fits(
                            p,
                            b,
                            hashes@,
                            number_of_hashes as nat,
                            hash_bits,
                            bit_index,
                            index as u32,
                            register as u32,
                            original_hash,
                            target,
                        ));
                    }
                    target = target - 1;
                },
            }
        }
    }

    /// Writes the rewritten list, cut down to `target` bits with `encoded_hash` placed in it,
    /// at the start of a copy of the buffer whose rank index, if any, is laid out anew for
    /// `target` bits; returns the buffer, the number of repeated hashes met and the number of
    /// bits written, with the hashes that open a bucket of the rank index and their positions.
    fn write_downgraded(
        hashes: &[u8],
        words: &Vec<u64>,
        number_of_hashes: u32,
        bit_index: u32,
        hash_bits: u8,
        target: u8,
        uniform_coefficient: u8,
        encoded_hash: u32,
    ) -> (written: (Vec<u64>, u32, u32, Vec<(u32, u32)>))
        requires
            P::spec_exponent() + B::spec_number_of_bits() <= target <= hash_bits <= 32,
            0 < number_of_hashes < u32::MAX,
            number_of_hashes * hash_bits <= u32::MAX,
            uniform_coefficient < 32,
            is_gap_hash_list(
                P::spec_exponent(),
                B::spec_number_of_bits(),
                hashes@,
                number_of_hashes as nat,
                hash_bits,
                bit_index as nat,
            ),
            !is_prefix_free(
                P::spec_exponent(),
                B::spec_number_of_bits(),
                number_of_hashes as nat,
                hash_bits,
                bit_index as nat,
            ) ==> forall|k: int|
                0 <= k < number_of_hashes ==> (#[trigger] switch_decoding(
                    P::spec_exponent() as u32,
                    B::spec_number_of_bits() as u32,
                    gap_hashes(
                        P::spec_exponent(),
                        B::spec_number_of_bits(),
                        hashes@,
                        number_of_hashes as nat,
                        hash_bits,
                        bit_index as nat,
                    )[k] as u32,
                    hash_bits as u32,
                )).0 > 0,
            0 < words@.len() <= 0x01ff_ffff,
            stream_of_words(words@) == stream_of(hashes@),
            has_rank_index_spec(P::spec_exponent(), B::spec_number_of_bits()) ==> bit_index
                + rank_index_total_size_spec(P::spec_exponent(), B::spec_number_of_bits(), target) <= 64
                * words@.len(),
            ({
                let p = P::spec_exponent();
                let b = B::spec_number_of_bits();
                let m = merged_hashes(
                    downgraded_list(
                        p as u32,
                        b as u32,
                        gap_hashes32(p, b, hashes@, number_of_hashes as nat, hash_bits, bit_index as nat),
                        hash_bits as u32,
                        (hash_bits - target) as u32,
                    ),
                    encoded_hash,
                );
                &&& is_writable_list(p as u32, b as u32, m, target as u32, uniform_coefficient as nat)
                &&& gap_list_code(p as u32, b as u32, m, target as u32, uniform_coefficient as nat).len()
                    <= bit_index
            }),
        ensures
            ({
                let p = P::spec_exponent();
                let b = B::spec_number_of_bits();
                let list = gap_hashes32(p, b, hashes@, number_of_hashes as nat, hash_bits, bit_index as nat);
                let ds = downgraded_list(p as u32, b as u32, list, hash_bits as u32, (hash_bits - target) as u32);
                let m = merged_hashes(ds, encoded_hash);
                let code = gap_list_code(p as u32, b as u32, m, target as u32, uniform_coefficient as nat);
                &&& written.0@.len() == words@.len()
                &&& stream_of_words(written.0@).subrange(0, code.len() as int) == code
                &&& written.1 == merged_duplicates(ds, encoded_hash)
                &&& written.2 == code.len()
                &&& forall|i: int| 0 <= i < written.3@.len() ==> fits_bits(#[trigger] written.3@[i].1, target as u32)
                &&& has_rank_index_spec(p, b) ==> written.3@ == opener_updates(
                    p,
                    b,
                    target,
                    m,
                    uniform_coefficient as nat,
                    m.len(),
                )
                &&& has_rank_index_spec(p, b) ==> forall|j: int|
                    1 <= j < rank_index_capacity_spec(p) ==> entry_bit_index(
                        stream_of_words(written.0@),
                        #[trigger] rank_entry_start(p, b, target, words@.len() as nat, j),
                        p,
                        b,
                    ) == rank_mask(p, b)
            }),
    {
        proof {
            P::lemma_exponent_range();
            B::lemma_number_of_bits_range();
        }
        let ghost p = P::spec_exponent();
        let ghost b = B::spec_number_of_bits();
        let ghost list = gap_hashes32(p, b, hashes@, number_of_hashes as nat, hash_bits, bit_index as nat);
        let ghost k = uniform_coefficient as nat;
        let ghost code = gap_list_code(
            p as u32,
            b as u32,
            merged_hashes(
                downgraded_list(p as u32, b as u32, list, hash_bits as u32, (hash_bits - target) as u32),
                encoded_hash,
            ),
            target as u32,
            k,
        );
        proof {
            lemma_gap_hashes32(p, b, hashes@, number_of_hashes as nat, hash_bits, bit_index as nat);
            lemma_gap_list_end(p, b, hashes@, number_of_hashes as nat, hash_bits, bit_index as nat);
        }
        let mut data = words.clone();
        proof {
            assert(data@ =~= words@);
        }
        if Self::has_rank_index() {
            Self::initialize_rank_index(&mut data, target);
        }
        let mut writer = BitWriter::new(data);
        proof {
            writer.lemma_view_len();
            assert(stream_of(hashes@).len() == 64 * words@.len());
        }
        let mut iter = Self::downgraded_reader(
            hashes,
            words.as_slice(),
            number_of_hashes,
            hash_bits,
            bit_index,
            hash_bits - target,
        );
        let mut updates: Vec<(u32, u32)> = Vec::new();
        let duplicates = Self::write_merged(
            &mut iter,
            &mut writer,
            encoded_hash,
            target,
            uniform_coefficient,
            &mut updates,
            Ghost(stream_of(hashes@)),
            Ghost(list),
            Ghost(hash_bits),
            Ghost(bit_index as nat),
        );
        let writer_tell = writer.tell();
        let ghost view = writer.view();
        let data = writer.into_words();
        proof {
            assert(stream_of_words(data@).subrange(0, code.len() as int) =~= code);
            if has_rank_index_spec(p, b) {
                assert(updates@ =~= Seq::<(u32, u32)>::empty() + updates@);
                crate::gaps::lemma_rank_index_precision(p, b);
                assert forall|j: int| 1 <= j < rank_index_capacity_spec(p) implies entry_bit_index(
                    stream_of_words(data@),
                    #[trigger] rank_entry_start(p, b, target, words@.len() as nat, j),
                    p,
                    b,
                ) == rank_mask(p, b) by {
                    lemma_fresh_index(stream_of_words(words@), p, b, target, words@.len() as nat, code, j);
                }
            }
        }
        (data, duplicates, writer_tell, updates)
    }

    /// Records each hash that opens a bucket of the rank index, with its position.
    fn apply_rank_updates(data: &mut Vec<u64>, target: u8, updates: &Vec<(u32, u32)>, Ghost(kept): Ghost<nat>)
        requires
            has_rank_index_spec(P::spec_exponent(), B::spec_number_of_bits()),
            P::spec_exponent() + B::spec_number_of_bits() <= target <= 32,
            0 < old(data)@.len() <= 0x01ff_ffff,
            rank_index_total_size_spec(P::spec_exponent(), B::spec_number_of_bits(), target) <= 64
                * old(data)@.len(),
            kept + rank_index_total_size_spec(P::spec_exponent(), B::spec_number_of_bits(), target) <= 64
                * old(data)@.len(),
            forall|i: int| 0 <= i < updates@.len() ==> fits_bits(#[trigger] updates@[i].1, target as u32),
        ensures
            final(data)@.len() == old(data)@.len(),
            stream_of_words(final(data)@).subrange(0, kept as int) == stream_of_words(old(data)@).subrange(
                0,
                kept as int,
            ),
            stream_of_words(final(data)@) == crate::rank_index::rank_updates(
                stream_of_words(old(data)@),
                P::spec_exponent(),
                B::spec_number_of_bits(),
                target,
                old(data)@.len() as nat,
                updates@,
            ),
    {
        let ghost original = stream_of_words(data@);
        let ghost words = data@.len() as nat;
        let mut u: usize = 0;
        proof {
            assert(updates@.take(0).len() == 0);
        }
        while u < updates.len()
            invariant
                has_rank_index_spec(P::spec_exponent(), B::spec_number_of_bits()),
                P::spec_exponent() + B::spec_number_of_bits() <= target <= 32,
                u <= updates@.len(),
                data@.len() == old(data)@.len(),
                0 < data@.len() <= 0x01ff_ffff,
                rank_index_total_size_spec(P::spec_exponent(), B::spec_number_of_bits(), target) <= 64
                    * data@.len(),
                kept + rank_index_total_size_spec(P::spec_exponent(), B::spec_number_of_bits(), target)
                    <= 64 * data@.len(),
                stream_of_words(data@).subrange(0, kept as int) == original.subrange(0, kept as int),
                forall|i: int| 0 <= i < updates@.len() ==> fits_bits(#[trigger] updates@[i].1, target as u32),
                words == data@.len(),
                stream_of_words(data@) == crate::rank_index::rank_updates(
                    original,
                    P::spec_exponent(),
                    B::spec_number_of_bits(),
                    target,
                    words,
                    updates@.take(u as int),
                ),
            decreases updates@.len() - u,
        {
            let (position, hash) = updates[u];
            let ghost before = stream_of_words(data@);
            proof {
                assert(fits_bits(updates@[u as int].1, target as u32));
            }
            Self::update_rank_index(data, target, position, hash);
            proof {
                assert(updates@.take(u + 1).drop_last() =~= updates@.take(u as int));
                assert(updates@.take(u + 1).last() == updates@[u as int]);
                let after = stream_of_words(data@);
                assert(before.len() == 64 * data@.len());
                P::lemma_exponent_range();
                B::lemma_number_of_bits_range();
                crate::gaps::lemma_rank_index_precision(P::spec_exponent(), B::spec_number_of_bits());
                let pp = P::spec_exponent();
                let bb = B::spec_number_of_bits();
                let bucket = crate::rank_index::rank_bucket(pp, target, hash);
                let start = crate::rank_index::rank_entry_start(pp, bb, target, data@.len() as nat, bucket);
                if bucket > 0 && (crate::rank_index::entry_hash(before, start, pp, bb, target) < hash
                    || crate::rank_index::entry_bit_index(before, start, pp, bb) == crate::rank_index::rank_mask(pp, bb)) {
                    assert((bucket - 1) * crate::rank_index::rank_entry_size(pp, bb, target) >= 0)
                        by (nonlinear_arith)
                        requires
                            bucket >= 1,
                    ;
                    let c = crate::gaps::rank_index_capacity_spec(pp);
                    let size = crate::rank_index::rank_entry_size(pp, bb, target);
                    assert(bucket <= c - 1);
                    assert((bucket - 1) * size + size <= (c - 1) * size) by (nonlinear_arith)
                        requires
                            1 <= bucket <= c - 1,
                    ;
                    assert(crate::gaps::rank_index_total_size_spec(pp, bb, target) == (c - 1) * size);
                    assert(start >= kept);
                    assert(start <= before.len());
                    assert forall|j: int| 0 <= j < kept implies #[trigger] after[j] == before[j] by {}
                    assert(after.subrange(0, kept as int) =~= before.subrange(0, kept as int));
                } else {
                    assert(after == before);
                }
            }
            u = u + 1;
        }
        proof {
            assert(updates@.take(updates@.len() as int) =~= updates@);
        }
    }

    /// Rewrites a full list of gap hashes with hashes of fewer bits, prefix-free coded, and
    /// places the hash of the register `register` of index `index` taken from
    /// `original_hash` in it.
    ///
    /// The number of bits is the largest one of the Rice table, below the current one when
    /// the list is already coded, at which the rewritten list can be coded, stays behind what
    /// is read of the list while it is rewritten, and takes no more bits than the list did;
    /// when there is none, the list is saturated.
    pub fn insert_downgrading(
        hashes: &mut [u8],
        number_of_hashes: u32,
        index: usize,
        register: u8,
        original_hash: u64,
        bit_index: u32,
        hash_bits: u8,
    ) -> (result: Result<InsertMetadata, SaturationError>)
        requires
            0 < register <= register_mask(B::spec_number_of_bits()),
            (index as nat) < pow2(P::spec_exponent() as nat),
            P::spec_exponent() + B::spec_number_of_bits() <= hash_bits <= 32,
            0 < number_of_hashes < u32::MAX,
            number_of_hashes * hash_bits <= u32::MAX,
            is_gap_hash_list(
                P::spec_exponent(),
                B::spec_number_of_bits(),
                old(hashes)@,
                number_of_hashes as nat,
                hash_bits,
                bit_index as nat,
            ),
            old(hashes)@.len() % 8 == 0,
            0 < old(hashes)@.len() <= 8 * 0x01ff_ffff,
            !is_prefix_free(
                P::spec_exponent(),
                B::spec_number_of_bits(),
                number_of_hashes as nat,
                hash_bits,
                bit_index as nat,
            ) ==> forall|k: int|
                0 <= k < number_of_hashes ==> (#[trigger] switch_decoding(
                    P::spec_exponent() as u32,
                    B::spec_number_of_bits() as u32,
                    gap_hashes(
                        P::spec_exponent(),
                        B::spec_number_of_bits(),
                        old(hashes)@,
                        number_of_hashes as nat,
                        hash_bits,
                        bit_index as nat,
                    )[k] as u32,
                    hash_bits as u32,
                )).0 > 0,
            has_rank_index_spec(P::spec_exponent(), B::spec_number_of_bits()) ==> bit_index
                + rank_index_total_size_spec(P::spec_exponent(), B::spec_number_of_bits(), hash_bits)
                <= 8 * old(hashes)@.len(),
        ensures
            final(hashes)@.len() == old(hashes)@.len(),
            is_downgraded_insertion(
                P::spec_exponent(),
                B::spec_number_of_bits(),
                old(hashes)@,
                final(hashes)@,
                number_of_hashes as nat,
                index as u32,
                register as u32,
                original_hash,
                bit_index,
                hash_bits,
                result,
            ),
    {
        proof {
            P::lemma_exponent_range();
            B::lemma_number_of_bits_range();
        }
        let ghost p = P::spec_exponent();
        let ghost b = B::spec_number_of_bits();
        let ghost original = hashes@;
        let words = words_of_bytes(hashes);
        let chosen = Self::downgrade_target(
            hashes,
            words.as_slice(),
            number_of_hashes,
            index,
            register,
            original_hash,
            bit_index,
            hash_bits,
        );
        let (target, uniform_coefficient, encoded_hash, _size) = match chosen {
            None => {
                return Err(SaturationError::Saturation(bit_index));
            },
            Some(found) => found,
        };
        proof {
            lemma_gap_hashes32(p, b, original, number_of_hashes as nat, hash_bits, bit_index as nat);
            lemma_merged_hashes_union(
                downgraded_list(
                    p as u32,
                    b as u32,
                    gap_hashes32(p, b, original, number_of_hashes as nat, hash_bits, bit_index as nat),
                    hash_bits as u32,
                    (hash_bits - target) as u32,
                ),
                encoded_hash,
            );
        }
        proof {
            assert(stream_of(original).len() == 64 * words@.len());
            if has_rank_index_spec(p, b) {
                crate::gaps::lemma_rank_index_precision(p, b);
                vstd::arithmetic::power2::lemma_pow2_pos((p - 9) as nat);
                let c = crate::gaps::rank_index_capacity_spec(p);
                let r = crate::gaps::rank_index_bits_spec(p, b);
                assert((c - 1) * (r + target) <= (c - 1) * (r + hash_bits)) by (nonlinear_arith)
                    requires
                        target <= hash_bits,
                        c >= 1,
                ;
            }
        }
        let (mut data, duplicates, writer_tell, updates) = Self::write_downgraded(
            hashes,
            &words,
            number_of_hashes,
            bit_index,
            hash_bits,
            target,
            uniform_coefficient,
            encoded_hash,
        );
        let ghost written = stream_of_words(data@);
        if Self::has_rank_index() {
            Self::apply_rank_updates(&mut data, target, &updates, Ghost(writer_tell as nat));
        }
        let ghost merged = merged_hashes(
            downgraded_list(
                p as u32,
                b as u32,
                gap_hashes32(p, b, original, number_of_hashes as nat, hash_bits, bit_index as nat),
                hash_bits as u32,
                (hash_bits - target) as u32,
            ),
            encoded_hash,
        );
        proof {
            if has_rank_index_spec(p, b) && 8 * original.len() <= pow2(rank_index_bits_spec(p, b) as nat) {
                let k = uniform_coefficient as nat;
                let total = rank_index_total_size_spec(p, b, target);
                crate::gaps::lemma_rank_index_precision(p, b);
                vstd::arithmetic::power2::lemma2_to64();
                assert(total >= 2) by {
                    let c = rank_index_capacity_spec(p);
                    vstd::arithmetic::power2::lemma_pow2_strictly_increases(0, (p - 9) as nat);
                    assert(c >= 2);
                    assert((c - 1) * (rank_index_bits_spec(p, b) + target) >= 2) by (nonlinear_arith)
                        requires
                            c >= 2,
                            rank_index_bits_spec(p, b) + target >= 2,
                    ;
                }
                assert forall|i: int| #![trigger opens_bucket(p, target, merged, i)] opens_bucket(p, target, merged, i)
                    implies gap_list_code(p as u32, b as u32, merged.take(i), target as u32, k).len() < rank_mask(p, b) by {
                    crate::gap_list::lemma_gap_list_code_prefix(p as u32, b as u32, merged, target as u32, k, i);
                }
                lemma_opener_index(written, p, b, target, words@.len() as nat, merged, k, merged.len());
                assert(words@.len() as nat == original.len() / 8);
            }
        }
        let bytes = bytes_of_words(data.as_slice());
        let mut i: usize = 0;
        while i < hashes.len()
            invariant
                i <= hashes@.len(),
                hashes@.len() == original.len(),
                bytes@.len() == original.len(),
                forall|j: int| 0 <= j < i ==> hashes@[j] == bytes@[j],
            decreases hashes@.len() - i,
        {
            hashes[i] = bytes[i];
            i = i + 1;
        }
        proof {
            assert(hashes@ =~= bytes@);
            lemma_merged_count(
                downgraded_list(
                    p as u32,
                    b as u32,
                    gap_hashes32(p, b, original, number_of_hashes as nat, hash_bits, bit_index as nat),
                    hash_bits as u32,
                    (hash_bits - target) as u32,
                ),
                encoded_hash,
            );
        }
        Ok(InsertMetadata { hash_bits: target, duplicates, bit_index: writer_tell })
    }

    /// Finds the place of `encoded_hash` in the decreasing list `hashes` coded in `words`:
    /// whether the list holds it; otherwise the number of hashes larger than it, the hashes
    /// around its place, and the bits at which the code of its place starts and at which the
    /// code of the hash after it ends.
    fn locate(
        words: &[u64],
        bit_index: u32,
        hash_bits: u8,
        encoded_hash: u32,
        Ghost(stream): Ghost<Seq<bool>>,
        Ghost(hashes): Ghost<Seq<u32>>,
    ) -> (place: (bool, u32, Option<u32>, Option<u32>, u32, u32))
        requires
            words@.len() <= 0x01ff_ffff,
            stream_of_words(words@) == stream,
            P::spec_exponent() + B::spec_number_of_bits() <= hash_bits <= 32,
            hash_bits - P::spec_exponent() - B::spec_number_of_bits() < rice_coefficients(
                P::spec_exponent(),
                B::spec_number_of_bits(),
            ).len(),
            is_gap_list(
                P::spec_exponent() as u32,
                B::spec_number_of_bits() as u32,
                hashes,
                hash_bits as u32,
                gap_coefficient(P::spec_exponent(), B::spec_number_of_bits(), hash_bits),
            ),
            0 < hashes.len() < u32::MAX,
            gap_list_code(
                P::spec_exponent() as u32,
                B::spec_number_of_bits() as u32,
                hashes,
                hash_bits as u32,
                gap_coefficient(P::spec_exponent(), B::spec_number_of_bits(), hash_bits),
            ).len() == bit_index,
            bit_index <= stream.len(),
            stream.subrange(0, bit_index as int) == gap_list_code(
                P::spec_exponent() as u32,
                B::spec_number_of_bits() as u32,
                hashes,
                hash_bits as u32,
                gap_coefficient(P::spec_exponent(), B::spec_number_of_bits(), hash_bits),
            ),
        ensures
            place.0 == hashes.contains(encoded_hash),
            !place.0 ==> {
                let p = P::spec_exponent() as u32;
                let b = B::spec_number_of_bits() as u32;
                let k = gap_coefficient(P::spec_exponent(), B::spec_number_of_bits(), hash_bits);
                let j = place.1 as int;
                let n = hashes.len() as int;
                &&& 0 <= j <= n
                &&& j > 0 ==> hashes[j - 1] > encoded_hash
                &&& j < n ==> hashes[j] < encoded_hash
                &&& place.2 == if j > 0 {
                    Some(hashes[j - 1])
                } else {
                    None::<u32>
                }
                &&& place.3 == if j < n {
                    Some(hashes[j])
                } else {
                    None::<u32>
                }
                &&& place.4 == gap_list_code(p, b, hashes.take(j), hash_bits as u32, k).len()
                &&& place.5 == if j < n {
                    gap_list_code(p, b, hashes.take(j + 1), hash_bits as u32, k).len()
                } else {
                    bit_index as nat
                }
            },
    {
        let ghost p = P::spec_exponent() as u32;
        let ghost b = B::spec_number_of_bits() as u32;
        let ghost hb = hash_bits as u32;
        let ghost k = gap_coefficient(P::spec_exponent(), B::spec_number_of_bits(), hash_bits);
        let ghost n = hashes.len();
        proof {
            P::lemma_exponent_range();
            B::lemma_number_of_bits_range();
            lemma_rice_coefficients_small(P::spec_exponent(), B::spec_number_of_bits());
            lemma_gap_list_code_prefix(p, b, hashes, hb, k, 0);
            assert(hashes.take(0).len() == 0);
            assert(stream.len() == 64 * words@.len());
        }
        let mut iter = PrefixCodeIter::<P, B>::new(words, bit_index, hash_bits);
        let mut previous: Option<u32> = None;
        let mut last_read: u32 = 0;
        let mut i: u32 = 0;
        loop
            invariant
                4 <= p <= 18,
                4 <= b <= 6,
                p + b <= hb <= 32,
                (k as nat) < 32,
                p == P::spec_exponent(),
                b == B::spec_number_of_bits(),
                hb == hash_bits,
                n == hashes.len(),
                0 < n < u32::MAX,
                k == gap_coefficient(P::spec_exponent(), B::spec_number_of_bits(), hash_bits),
                iter.wf(),
                iter.stream() == stream,
                iter.limit() == stream.len(),
                iter.end() == bit_index,
                iter.bits() == hash_bits,
                iter.coefficient() == k,
                is_gap_list(p, b, hashes, hb, k),
                gap_list_code(p, b, hashes, hb, k).len() == bit_index,
                bit_index <= stream.len(),
                stream.subrange(0, bit_index as int) == gap_list_code(p, b, hashes, hb, k),
                i <= n,
                i == 0 ==> iter.is_first() && iter.position() == 0,
                i > 0 ==> {
                    &&& !iter.is_first()
                    &&& iter.previous_hash() == hashes[i - 1]
                    &&& iter.uniform_state() == gap_uniform(p, b, hashes[i - 1], hb)
                },
                iter.position() == gap_list_code(p, b, hashes.take(i as int), hb, k).len(),
                last_read == iter.position(),
                previous == if i > 0 {
                    Some(hashes[i - 1])
                } else {
                    None::<u32>
                },
                forall|q: int| 0 <= q < i ==> hashes[q] > encoded_hash,
            decreases n - i,
        {
            proof {
                if i == 0 {
                    lemma_reads_first_hash(p, b, hashes, hb, k, stream);
                } else if i < n {
                    lemma_reads_gap_list(p, b, hashes, hb, k, stream, i as int);
                    lemma_gap_list_code_prefix(p, b, hashes, hb, k, i as int);
                } else {
                    assert(hashes.take(i as int) =~= hashes);
                }
                if i < n {
                    lemma_gap_list_code_prefix(p, b, hashes, hb, k, i + 1);
                }
            }
            match iter.next() {
                None => {
                    proof {
                        assert(i == n);
                        assert(!hashes.contains(encoded_hash));
                    }
                    return (false, i, previous, None, last_read, bit_index);
                },
                Some(value) => {
                    proof {
                        assert(value == hashes[i as int]);
                    }
                    if encoded_hash >= value {
                        if value == encoded_hash {
                            proof {
                                assert(hashes[i as int] == encoded_hash);
                            }
                            return (true, i, previous, Some(value), last_read, iter.last_read_bit_position());
                        }
                        proof {
                            assert forall|q: int| 0 <= q < n implies hashes[q] != encoded_hash by {
                                if q > i {
                                    assert(hashes[q] < hashes[i as int]);
                                }
                            }
                        }
                        return (false, i, previous, Some(value), last_read, iter.last_read_bit_position());
                    }
                    last_read = iter.last_read_bit_position();
                    previous = Some(value);
                },
            }
            i = i + 1;
        }
    }

    /// A copy of `words` with, from bit `at` on, the code of the place of `encoded_hash` (the
    /// gap `first` to it, or the hash in full), the gap `second` after it, and then the bits
    /// of `words` from `rest_from` to `rest_to`.
    #[verifier::spinoff_prover]
    fn splice(
        words: &Vec<u64>,
        at: u32,
        first: Option<GapFragment>,
        encoded_hash: u32,
        second: Option<GapFragment>,
        rest_from: u32,
        rest_to: u32,
        hash_bits: u8,
        uniform_coefficient: u8,
    ) -> (data: Vec<u64>)
        requires
            0 < words@.len() <= 0x01ff_ffff,
            0 < hash_bits <= 32,
            uniform_coefficient < 32,
            first matches Some(g) ==> is_codable_gap(g, uniform_coefficient as nat),
            second matches Some(g) ==> is_codable_gap(g, uniform_coefficient as nat),
            rest_from <= rest_to <= 64 * words@.len(),
            ({
                let placed = match first {
                    None => bits_of(encoded_hash as nat, hash_bits as nat),
                    Some(g) => gap_code(g, uniform_coefficient as nat),
                };
                let after = match second {
                    None => Seq::<bool>::empty(),
                    Some(g) => gap_code(g, uniform_coefficient as nat),
                };
                &&& rest_from <= at + placed.len() + after.len()
                &&& at + placed.len() + after.len() + (rest_to - rest_from) <= 64 * words@.len()
            }),
        ensures
            data@.len() == words@.len(),
            ({
                let s = stream_of_words(words@);
                let placed = match first {
                    None => bits_of(encoded_hash as nat, hash_bits as nat),
                    Some(g) => gap_code(g, uniform_coefficient as nat),
                };
                let after = match second {
                    None => Seq::<bool>::empty(),
                    Some(g) => gap_code(g, uniform_coefficient as nat),
                };
                stream_of_words(data@) == overwrite(
                    s,
                    at as int,
                    placed + after + s.subrange(rest_from as int, rest_to as int),
                )
            }),
    {
        let ghost s = stream_of_words(words@);
        let ghost k = uniform_coefficient as nat;
        let ghost placed = match first {
            None => bits_of(encoded_hash as nat, hash_bits as nat),
            Some(g) => gap_code(g, k),
        };
        let ghost after = match second {
            None => Seq::<bool>::empty(),
            Some(g) => gap_code(g, k),
        };
        let mut data = words.clone();
        proof {
            assert(data@ =~= words@);
            if let Some(g) = first {
                assert(gap_code(g, k).len() >= 1);
            }
        }
        let mut writer = BitWriter::new(data);
        proof {
            writer.lemma_view_len();
        }
        writer.seek(at);
        match first {
            None => {
                writer.write_bits(encoded_hash as u64, hash_bits);
            },
            Some(g) => {
                writer.write_rice(g.uniform_delta, g.geometric_minus_one, uniform_coefficient);
            },
        }
        let ghost middle = writer.view();
        match second {
            None => {
                proof {
                    assert(overwrite(middle, at + placed.len(), Seq::<bool>::empty()) =~= middle);
                }
            },
            Some(g) => {
                writer.write_rice(g.uniform_delta, g.geometric_minus_one, uniform_coefficient);
            },
        }
        proof {
            crate::bitstream::lemma_overwrite_compose(s, at as int, placed, after);
        }
        let written = writer.tell();
        if written > rest_from && rest_from < rest_to {
            let mut reader = BitReader::skip(words.as_slice(), rest_from);
            proof {
                assert(s.subrange(rest_from as int, rest_from as int) =~= Seq::<bool>::empty());
                assert(placed + after + Seq::<bool>::empty() =~= placed + after);
            }
            while reader.last_read_bit_position() < rest_to
                invariant
                    reader.wf(),
                    reader.view() == s,
                    reader.limit() == 64 * words@.len(),
                    s.len() == 64 * words@.len(),
                    rest_from <= reader.position() <= rest_to,
                    rest_to <= 64 * words@.len(),
                    writer.wf(),
                    writer.capacity() == 64 * words@.len(),
                    writer.position() == at + placed.len() + after.len() + (reader.position() - rest_from),
                    at + placed.len() + after.len() + (rest_to - rest_from) <= 64 * words@.len(),
                    writer.view() == overwrite(
                        s,
                        at as int,
                        placed + after + s.subrange(rest_from as int, reader.position() as int),
                    ),
                decreases rest_to - reader.position(),
            {
                let position = reader.last_read_bit_position();
                let remaining = rest_to - position;
                let n_bits: u8 = if remaining < 64 {
                    remaining as u8
                } else {
                    64
                };
                let ghost before = writer.view();
                let value = reader.read_bits(n_bits);
                writer.write_bits(value, n_bits);
                proof {
                    let chunk = s.subrange(position as int, position + n_bits);
                    crate::bitstream::lemma_bits_of_value_of(chunk);
                    crate::bitstream::lemma_overwrite_compose(
                        s,
                        at as int,
                        placed + after + s.subrange(rest_from as int, position as int),
                        chunk,
                    );
                    assert(placed + after + s.subrange(rest_from as int, position as int) + chunk
                        =~= placed + after + s.subrange(rest_from as int, position + n_bits));
                }
            }
        } else {
            proof {
                let rest = s.subrange(rest_from as int, rest_to as int);
                let w = overwrite(s, at as int, placed + after);
                if rest_from < rest_to {
                    assert(written == rest_from);
                    assert(overwrite(s, at as int, placed + after + rest) =~= w);
                } else {
                    assert(rest =~= Seq::<bool>::empty());
                    assert(placed + after + rest =~= placed + after);
                }
            }
        }
        writer.into_words()
    }

    /// Stores the bits of `data` in `hashes`, eight bytes to a word.
    fn store_words(hashes: &mut [u8], data: &Vec<u64>)
        requires
            old(hashes)@.len() == 8 * data@.len(),
            data@.len() <= 0x01ff_ffff,
        ensures
            final(hashes)@.len() == old(hashes)@.len(),
            stream_of(final(hashes)@) == stream_of_words(data@),
    {
        let bytes = bytes_of_words(data.as_slice());
        let mut i: usize = 0;
        while i < hashes.len()
            invariant
                i <= hashes@.len(),
                hashes@.len() == bytes@.len(),
                forall|j: int| 0 <= j < i ==> hashes@[j] == bytes@[j],
            decreases hashes@.len() - i,
        {
            hashes[i] = bytes[i];
            i = i + 1;
        }
        proof {
            assert(hashes@ =~= bytes@);
        }
    }

    /// The number of bytes that a plain list may take in a buffer of `len` bytes.
    fn plain_capacity_of(len: usize, hash_bits: u8) -> (capacity: usize)
        requires
            hash_bits <= 32,
            rank_index_fits(P::spec_exponent(), B::spec_number_of_bits(), len as nat, hash_bits),
        ensures
            capacity == plain_capacity(P::spec_exponent(), B::spec_number_of_bits(), len as nat, hash_bits),
    {
        proof {
            P::lemma_exponent_range();
            B::lemma_number_of_bits_range();
            vstd::arithmetic::power2::lemma2_to64();
            vstd::arithmetic::power2::lemma_pow2_strictly_increases(P::spec_exponent() as nat, 19);
            vstd::bits::lemma_usize_shl_is_mul(1, P::spec_exponent() as usize);
        }
        let registers = 1usize << P::exponent();
        proof {
            assert(registers * (B::spec_number_of_bits() as usize) < 0x0100_0000) by (nonlinear_arith)
                requires
                    registers < 524288,
                    B::spec_number_of_bits() <= 6,
            ;
        }
        let maximal_size = (registers * (B::number_of_bits() as usize) + 63) / 64 * 8;
        if len > maximal_size / 2 {
            len - (Self::rank_index_padded_size(hash_bits) as usize)
        } else {
            len
        }
    }

    /// The gaps around the place `j` of `encoded_hash` in the list `hashes` (none before it
    /// when it comes first, none after it when it comes last), with the number of bits of the
    /// code of its place and of the gap after it.
    fn insertion_gaps(
        previous: Option<u32>,
        next: Option<u32>,
        encoded_hash: u32,
        hash_bits: u8,
        uniform_coefficient: u8,
        Ghost(hashes): Ghost<Seq<u32>>,
        Ghost(j): Ghost<int>,
    ) -> (gaps: (Option<GapFragment>, Option<GapFragment>, u32, u32))
        requires
            P::spec_exponent() + B::spec_number_of_bits() <= hash_bits <= 32,
            uniform_coefficient < 32,
            fits_bits(encoded_hash, hash_bits as u32),
            switch_decoding(
                P::spec_exponent() as u32,
                B::spec_number_of_bits() as u32,
                encoded_hash,
                hash_bits as u32,
            ).0 > 0,
            is_place(hashes, encoded_hash, j),
            previous == if j > 0 {
                Some(hashes[j - 1])
            } else {
                None::<u32>
            },
            next == if j < hashes.len() {
                Some(hashes[j])
            } else {
                None::<u32>
            },
            forall|i: int|
                0 <= i < hashes.len() ==> fits_bits(#[trigger] hashes[i], hash_bits as u32)
                    && switch_decoding(
                    P::spec_exponent() as u32,
                    B::spec_number_of_bits() as u32,
                    hashes[i],
                    hash_bits as u32,
                ).0 > 0,
            placement_codable(
                P::spec_exponent() as u32,
                B::spec_number_of_bits() as u32,
                hashes,
                encoded_hash,
                hash_bits as u32,
                uniform_coefficient as nat,
            ),
        ensures
            ({
                let p = P::spec_exponent() as u32;
                let b = B::spec_number_of_bits() as u32;
                let hb = hash_bits as u32;
                let k = uniform_coefficient as nat;
                &&& gaps.0 == if j > 0 {
                    Some(gap_between(p, b, hashes[j - 1], encoded_hash, hb))
                } else {
                    None::<GapFragment>
                }
                &&& gaps.1 == if j < hashes.len() {
                    Some(gap_between(p, b, encoded_hash, hashes[j], hb))
                } else {
                    None::<GapFragment>
                }
                &&& gaps.0 matches Some(g) ==> is_codable_gap(g, k)
                &&& gaps.1 matches Some(g) ==> is_codable_gap(g, k)
                &&& gaps.2 == match gaps.0 {
                    None => hash_bits as nat,
                    Some(g) => gap_code(g, k).len(),
                }
                &&& gaps.3 == match gaps.1 {
                    None => 0,
                    Some(g) => gap_code(g, k).len(),
                }
                &&& gaps.2 <= 600
                &&& gaps.3 <= 600
            }),
    {
        let ghost k = uniform_coefficient as nat;
        proof {
            vstd::arithmetic::power2::lemma2_to64();
            vstd::arithmetic::power2::lemma_pow2_pos(k);
            assert(is_place(hashes, encoded_hash, j));
        }
        let first = match previous {
            None => None,
            Some(previous_hash) => Some(Self::into_gap_fragment(previous_hash, encoded_hash, hash_bits)),
        };
        let second = match next {
            None => None,
            Some(next_hash) => Some(Self::into_gap_fragment(encoded_hash, next_hash, hash_bits)),
        };
        let previous_to_current_size: u32 = match first {
            None => hash_bits as u32,
            Some(gap) => {
                proof {
                    assert(gap.geometric_minus_one as nat / pow2(0) == gap.geometric_minus_one);
                }
                len_rice(gap.uniform_delta, uniform_coefficient, gap.geometric_minus_one, 0)
            },
        };
        let current_to_next_size: u32 = match second {
            None => 0,
            Some(gap) => {
                proof {
                    assert(gap.geometric_minus_one as nat / pow2(0) == gap.geometric_minus_one);
                }
                len_rice(gap.uniform_delta, uniform_coefficient, gap.geometric_minus_one, 0)
            },
        };
        (first, second, previous_to_current_size, current_to_next_size)
    }

    /// Updates the rank index after `encoded_hash` took its place at bit `last_read`, with the
    /// code of its place taking `previous_to_current_size` bits and the list growing by
    /// `inserted` bits; the bits before `kept` stay.
    fn rank_index_after_insertion(
        data: &mut Vec<u64>,
        hash_bits: u8,
        last_read: u32,
        encoded_hash: u32,
        next: Option<u32>,
        previous_to_current_size: u32,
        inserted: u32,
        Ghost(kept): Ghost<nat>,
    )
        requires
            has_rank_index_spec(P::spec_exponent(), B::spec_number_of_bits()),
            P::spec_exponent() + B::spec_number_of_bits() <= hash_bits <= 32,
            fits_bits(encoded_hash, hash_bits as u32),
            0 < old(data)@.len() <= 0x01ff_ffff,
            kept + rank_index_total_size_spec(P::spec_exponent(), B::spec_number_of_bits(), hash_bits)
                <= 64 * old(data)@.len(),
            last_read as nat + previous_to_current_size <= u32::MAX,
            inserted <= 64 * old(data)@.len(),
        ensures
            final(data)@.len() == old(data)@.len(),
            stream_of_words(final(data)@).subrange(0, kept as int) == stream_of_words(old(data)@).subrange(
                0,
                kept as int,
            ),
            ({
                let p = P::spec_exponent();
                let b = B::spec_number_of_bits();
                let words = old(data)@.len() as nat;
                let recorded = crate::rank_index::rank_update(
                    stream_of_words(old(data)@),
                    p,
                    b,
                    hash_bits,
                    words,
                    last_read,
                    encoded_hash,
                );
                stream_of_words(final(data)@) == match next {
                    None => recorded,
                    Some(next_hash) => crate::rank_index::shifted_entries(
                        recorded,
                        p,
                        b,
                        hash_bits,
                        words,
                        crate::rank_index::rank_bucket(p, hash_bits, encoded_hash),
                        crate::gaps::rank_index_capacity_spec(p) - 1,
                        next_hash,
                        (last_read + previous_to_current_size) as u32,
                        inserted,
                    ),
                }
            }),
    {
        proof {
            P::lemma_exponent_range();
            B::lemma_number_of_bits_range();
            crate::gaps::lemma_rank_index_precision(P::spec_exponent(), B::spec_number_of_bits());
        }
        let ghost pp = P::spec_exponent();
        let ghost bb = B::spec_number_of_bits();
        let ghost before = stream_of_words(data@);
        Self::update_rank_index(data, hash_bits, last_read, encoded_hash);
        let ghost middle = stream_of_words(data@);
        proof {
            assert(before.len() == 64 * data@.len());
            let bucket = crate::rank_index::rank_bucket(pp, hash_bits, encoded_hash);
            let start = crate::rank_index::rank_entry_start(pp, bb, hash_bits, data@.len() as nat, bucket);
            if bucket > 0 && (crate::rank_index::entry_hash(before, start, pp, bb, hash_bits) < encoded_hash
                || crate::rank_index::entry_bit_index(before, start, pp, bb) == crate::rank_index::rank_mask(pp, bb)) {
                let c = crate::gaps::rank_index_capacity_spec(pp);
                let size = crate::rank_index::rank_entry_size(pp, bb, hash_bits);
                assert((bucket - 1) * size + size <= (c - 1) * size) by (nonlinear_arith)
                    requires
                        1 <= bucket <= c - 1,
                ;
                assert((bucket - 1) * size >= 0) by (nonlinear_arith)
                    requires
                        bucket >= 1,
                ;
                assert(crate::gaps::rank_index_total_size_spec(pp, bb, hash_bits) == (c - 1) * size);
                assert forall|q: int| 0 <= q < kept implies #[trigger] middle[q] == before[q] by {}
            }
            assert(middle.subrange(0, kept as int) =~= before.subrange(0, kept as int));
        }
        match next {
            None => {},
            Some(next_hash) => {
                proof {
                    let c = crate::gaps::rank_index_capacity_spec(pp);
                    let r = crate::gaps::rank_index_bits_spec(pp, bb);
                    vstd::arithmetic::power2::lemma2_to64();
                    vstd::arithmetic::power2::lemma_pow2_strictly_increases(r as nat, 32);
                    assert forall|bucket: int|
                        crate::rank_index::rank_bucket(pp, hash_bits, encoded_hash) < bucket < c implies
                        crate::rank_index::entry_bit_index(
                            middle,
                            #[trigger] crate::rank_index::rank_entry_start(pp, bb, hash_bits, data@.len() as nat, bucket),
                            pp,
                            bb,
                        ) + inserted <= u32::MAX by {
                        let start = crate::rank_index::rank_entry_start(pp, bb, hash_bits, data@.len() as nat, bucket);
                        let size = crate::rank_index::rank_entry_size(pp, bb, hash_bits);
                        assert((bucket - 1) * size >= 0) by (nonlinear_arith)
                            requires
                                bucket >= 1,
                        ;
                        assert((bucket - 1) * size + size <= (c - 1) * size) by (nonlinear_arith)
                            requires
                                1 <= bucket <= c - 1,
                        ;
                        assert(crate::gaps::rank_index_total_size_spec(pp, bb, hash_bits) == (c - 1) * size);
                        assert(middle.len() == 64 * data@.len());
                        assert(middle.subrange(start, start + r).len() == r);
                        crate::bitstream::lemma_value_of_bound(middle.subrange(start, start + r));
                        vstd::arithmetic::power2::lemma_pow2_strictly_increases(r as nat, 22);
                        assert(pow2(22) == 0x40_0000);
                    }
                }
                Self::shift_index(
                    data,
                    encoded_hash,
                    last_read + previous_to_current_size,
                    next_hash,
                    hash_bits,
                    inserted,
                );
                proof {
                    let after = stream_of_words(data@);
                    lemma_shifted_entries_keep(
                        middle,
                        pp,
                        bb,
                        hash_bits,
                        data@.len() as nat,
                        crate::rank_index::rank_bucket(pp, hash_bits, encoded_hash),
                        crate::gaps::rank_index_capacity_spec(pp) - 1,
                        next_hash,
                        (last_read + previous_to_current_size) as u32,
                        inserted,
                        kept,
                    );
                }
            },
        }
    }

    /// Inserts the hash of the register `register` of index `index` taken from `original_hash`
    /// into a prefix-free coded list of gap hashes.
    #[verifier::spinoff_prover]
    #[verifier::rlimit(60)]
    fn insert_coded(
        hashes: &mut [u8],
        number_of_hashes: u32,
        bit_index: u32,
        index: usize,
        register: u8,
        original_hash: u64,
        hash_bits: u8,
    ) -> (result: Result<Option<InsertMetadata>, SaturationError>)
        requires
            0 < register <= register_mask(B::spec_number_of_bits()),
            (index as nat) < pow2(P::spec_exponent() as nat),
            P::spec_exponent() + B::spec_number_of_bits() <= hash_bits <= 32,
            0 < number_of_hashes < u32::MAX,
            number_of_hashes * hash_bits <= u32::MAX,
            is_prefix_free(
                P::spec_exponent(),
                B::spec_number_of_bits(),
                number_of_hashes as nat,
                hash_bits,
                bit_index as nat,
            ),
            is_gap_hash_list(
                P::spec_exponent(),
                B::spec_number_of_bits(),
                old(hashes)@,
                number_of_hashes as nat,
                hash_bits,
                bit_index as nat,
            ),
            0 < old(hashes)@.len(),
            has_rank_index_spec(P::spec_exponent(), B::spec_number_of_bits()) ==> bit_index
                + rank_index_total_size_spec(P::spec_exponent(), B::spec_number_of_bits(), hash_bits)
                <= 8 * old(hashes)@.len(),
            placement_codable(
                P::spec_exponent() as u32,
                B::spec_number_of_bits() as u32,
                gap_hashes32(
                    P::spec_exponent(),
                    B::spec_number_of_bits(),
                    old(hashes)@,
                    number_of_hashes as nat,
                    hash_bits,
                    bit_index as nat,
                ),
                switch_encoding(
                    P::spec_exponent() as u32,
                    B::spec_number_of_bits() as u32,
                    index as u32,
                    register as u32,
                    original_hash,
                    hash_bits as u32,
                ),
                hash_bits as u32,
                gap_coefficient(P::spec_exponent(), B::spec_number_of_bits(), hash_bits),
            ),
        ensures
            is_coded_insertion(
                P::spec_exponent(),
                B::spec_number_of_bits(),
                old(hashes)@,
                final(hashes)@,
                number_of_hashes as nat,
                index as u32,
                register as u32,
                original_hash,
                bit_index,
                hash_bits,
                result,
            ),
    {
        let ghost p = P::spec_exponent() as u32;
        let ghost b = B::spec_number_of_bits() as u32;
        let ghost hb = hash_bits as u32;
        let ghost k = gap_coefficient(P::spec_exponent(), B::spec_number_of_bits(), hash_bits);
        let ghost original = hashes@;
        let ghost s = stream_of(hashes@);
        let ghost hs = gap_hashes32(
            P::spec_exponent(),
            B::spec_number_of_bits(),
            hashes@,
            number_of_hashes as nat,
            hash_bits,
            bit_index as nat,
        );
        proof {
            P::lemma_exponent_range();
            B::lemma_number_of_bits_range();
            lemma_rice_coefficients_small(P::spec_exponent(), B::spec_number_of_bits());
            lemma_gap_hashes32(
                P::spec_exponent(),
                B::spec_number_of_bits(),
                hashes@,
                number_of_hashes as nat,
                hash_bits,
                bit_index as nat,
            );
            vstd::arithmetic::power2::lemma2_to64();
            vstd::arithmetic::power2::lemma_pow2_strictly_increases(p as nat, 32);
            vstd::bits::lemma_u32_shl_is_mul(1, p);
            crate::switch::lemma_switch_encoding_fits(p, b, index as u32, register as u32, original_hash, hb);
            lemma_encoding_register(p, b, index as u32, register as u32, original_hash, hb);
        }
        let encoded = Self::encode(index, register, original_hash, hash_bits);
        proof {
            let hl = hash_bits as u64;
            vstd::arithmetic::power2::lemma_pow2_strictly_increases(hash_bits as nat, 64);
            vstd::bits::lemma_u64_shl_is_mul(1, hl);
            assert(fits_bits(encoded, hb));
        }
        let words = words_of_bytes(hashes);
        let (present, j, previous, next, last_read, next_end) = Self::locate(
            words.as_slice(),
            bit_index,
            hash_bits,
            encoded,
            Ghost(s),
            Ghost(hs),
        );
        if present {
            return Ok(None);
        }
        let ghost code = gap_list_code(p, b, hs, hb, k);
        let ghost n = hs.len() as int;
        proof {
            lemma_place_unique(hs, encoded, j as int, place_of(hs, encoded));
            assert forall|i: int| 0 <= i < hs.len() implies fits_bits(#[trigger] hs[i], hb)
                && switch_decoding(p, b, hs[i], hb).0 > 0 by {
                assert(crate::gap_list::is_canonical(p, b, hs[i], hb));
            }
        }
        let uniform_coefficient = Self::uniform_coefficient(hash_bits);
        let (first, second, previous_to_current_size, current_to_next_size) = Self::insertion_gaps(
            previous,
            next,
            encoded,
            hash_bits,
            uniform_coefficient,
            Ghost(hs),
            Ghost(j as int),
        );
        proof {
            lemma_insertion_size(p, b, hs, encoded, j as int, hb, k);
        }
        let ghost code2 = gap_list_code(p, b, hs.insert(j as int, encoded), hb, k);
        proof {
            lemma_gap_list_code_insert(p, b, hs, encoded, j as int, hb, k);
            lemma_gap_list_code_prefix(p, b, hs, hb, k, j as int);
            if (j as int) < n {
                lemma_gap_list_code_prefix(p, b, hs, hb, k, j + 1);
            } else {
                assert(hs.take(n) =~= hs);
            }
            assert(next_end <= bit_index);
            assert(code2.len() == last_read + previous_to_current_size + current_to_next_size
                + bit_index - next_end);
        }
        let variation = next_end - last_read;
        let inserted = previous_to_current_size + current_to_next_size - variation;
        proof {
            assert(stream_of(original).len() == 64 * words@.len());
            assert(code2.len() == bit_index + inserted);
        }
        let offset = Self::rank_index_offset(words.as_slice(), hash_bits);
        if bit_index as u64 + inserted as u64 > offset as u64 {
            return match Self::insert_downgrading(
                hashes,
                number_of_hashes,
                index,
                register,
                original_hash,
                bit_index,
                hash_bits,
            ) {
                Ok(metadata) => Ok(Some(metadata)),
                Err(error) => Err(error),
            };
        }
        let mut data = Self::splice(
            &words,
            last_read,
            first,
            encoded,
            second,
            next_end,
            bit_index,
            hash_bits,
            uniform_coefficient,
        );
        proof {
            lemma_spliced_insertion(p, b, hs, encoded, j as int, hb, k, s, stream_of_words(data@));
            assert(last_read + previous_to_current_size <= code2.len());
            let spliced = stream_of_words(data@);
            assert(spliced.len() == s.len());
            assert forall|q: int| 0 <= q < s.len() implies #[trigger] spliced[q] == overwrite(s, 0, code2)[q] by {
                if q < code2.len() {
                    assert(spliced.subrange(0, code2.len() as int)[q] == code2[q]);
                }
            }
            assert(spliced =~= overwrite(s, 0, code2));
            assert(hs.insert(j as int, encoded).take(j + 1) =~= hs.take(j as int).push(encoded));
            lemma_gap_list_code_push(p, b, hs.take(j as int), encoded, hb, k);
            assert(words@.len() as nat == original.len() / 8);
        }
        if Self::has_rank_index() {
            Self::rank_index_after_insertion(
                &mut data,
                hash_bits,
                last_read,
                encoded,
                next,
                previous_to_current_size,
                inserted,
                Ghost((bit_index + inserted) as nat),
            );
        }
        Self::store_words(hashes, &data);
        Ok(Some(InsertMetadata { hash_bits, duplicates: 0, bit_index: bit_index + inserted }))
    }

    /// Inserts the hash of the register `register` of index `index` taken from `original_hash`
    /// into a plain list of gap hashes.
    fn insert_plain(
        hashes: &mut [u8],
        number_of_hashes: u32,
        bit_index: u32,
        index: usize,
        register: u8,
        original_hash: u64,
        hash_bits: u8,
    ) -> (result: Result<Option<InsertMetadata>, SaturationError>)
        requires
            0 < register <= register_mask(B::spec_number_of_bits()),
            (index as nat) < pow2(P::spec_exponent() as nat),
            P::spec_exponent() + B::spec_number_of_bits() <= hash_bits <= 32,
            number_of_hashes < u32::MAX,
            number_of_hashes * hash_bits <= u32::MAX,
            bit_index + hash_bits <= u32::MAX,
            is_gap_hash_list(
                P::spec_exponent(),
                B::spec_number_of_bits(),
                old(hashes)@,
                number_of_hashes as nat,
                hash_bits,
                bit_index as nat,
            ),
            old(hashes)@.len() % 8 == 0,
            0 < old(hashes)@.len() <= 8 * 0x01ff_ffff,
            has_rank_index_spec(P::spec_exponent(), B::spec_number_of_bits()) ==> bit_index
                + rank_index_total_size_spec(P::spec_exponent(), B::spec_number_of_bits(), hash_bits)
                <= 8 * old(hashes)@.len(),
            !is_prefix_free(
                P::spec_exponent(),
                B::spec_number_of_bits(),
                number_of_hashes as nat,
                hash_bits,
                bit_index as nat,
            ) ==> forall|k: int|
                0 <= k < number_of_hashes ==> (#[trigger] switch_decoding(
                    P::spec_exponent() as u32,
                    B::spec_number_of_bits() as u32,
                    gap_hashes(
                        P::spec_exponent(),
                        B::spec_number_of_bits(),
                        old(hashes)@,
                        number_of_hashes as nat,
                        hash_bits,
                        bit_index as nat,
                    )[k] as u32,
                    hash_bits as u32,
                )).0 > 0,
            !is_prefix_free(
                P::spec_exponent(),
                B::spec_number_of_bits(),
                number_of_hashes as nat,
                hash_bits,
                bit_index as nat,
            ),
        ensures
            is_plain_insertion(
                P::spec_exponent(),
                B::spec_number_of_bits(),
                old(hashes)@,
                final(hashes)@,
                number_of_hashes as nat,
                index as u32,
                register as u32,
                original_hash,
                bit_index,
                hash_bits,
                result,
            ),
    {
        let ghost original = hashes@;
        let capacity = Self::plain_capacity_of(hashes.len(), hash_bits);
        let ghost mut head_after: Seq<u8> = Seq::empty();
        let outcome = {
            let (head, _tail) = hashes.split_at_mut(capacity);
            let outcome = SwitchHash::<P, B>::insert_sorted_desc(
                head,
                number_of_hashes,
                bit_index,
                index,
                register,
                original_hash,
                hash_bits,
            );
            proof {
                head_after = head@;
            }
            outcome
        };
        proof {
            assert(hashes@.subrange(0, capacity as int) =~= head_after);
            assert(original.subrange(capacity as int, original.len() as int) =~= hashes@.subrange(
                capacity as int,
                hashes@.len() as int,
            ));
        }
        match outcome {
            Ok(None) => {
                proof {
                    let width = (hash_bits / 8) as nat;
                    let e = switch_encoding(
                        P::spec_exponent() as u32,
                        B::spec_number_of_bits() as u32,
                        index as u32,
                        register as u32,
                        original_hash,
                        hash_bits as u32,
                    ) as nat;
                    let stored = stored_hashes(
                        original.subrange(0, capacity as int),
                        number_of_hashes as nat,
                        width,
                    );
                    assert(stored.contains(e));
                    assert(hashes@ =~= original);
                }
                Ok(None)
            },
            Ok(Some(new_bit_index)) => Ok(
                Some(InsertMetadata { hash_bits, duplicates: 0, bit_index: new_bit_index }),
            ),
            Err(SaturationError::ExtendableSaturation) => {
                proof {
                    assert(hashes@ =~= original);
                }
                Err(SaturationError::ExtendableSaturation)
            },
            Err(SaturationError::Saturation(_)) => {
                proof {
                    assert(hashes@ =~= original);
                }
                if number_of_hashes == 0 {
                    proof {
                        let p = P::spec_exponent();
                        let b = B::spec_number_of_bits();
                        P::lemma_exponent_range();
                        B::lemma_number_of_bits_range();
                        lemma_gap_hashes32(p, b, original, 0, hash_bits, bit_index as nat);
                        assert(bit_index == 0);
                        assert forall|t: u8|
                            p + b <= t <= first_target(p, b, hash_bits) implies !#[trigger] rewrite_fits(
                            p,
                            b,
                            original,
                            0,
                            hash_bits,
                            bit_index,
                            index as u32,
                            register as u32,
                            original_hash,
                            t,
                        ) by {
                            reveal(fits_behind_reader);
                            P::lemma_exponent_range();
                            let ds = downgraded_list(
                                p as u32,
                                b as u32,
                                gap_hashes32(p, b, original, 0, hash_bits, 0),
                                hash_bits as u32,
                                (hash_bits - t) as u32,
                            );
                            assert(ds.len() == 0);
                            let e = switch_encoding(
                                p as u32,
                                b as u32,
                                index as u32,
                                register as u32,
                                original_hash,
                                t as u32,
                            );
                            assert(merged_hashes(ds, e) == seq![e]);
                            assert(gap_list_code(
                                p as u32,
                                b as u32,
                                seq![e],
                                t as u32,
                                rice_coefficients(p, b)[t - p - b] as nat,
                            ).len() == t);
                        }
                    }
                    return Err(SaturationError::Saturation(bit_index));
                }
                match Self::insert_downgrading(
                    hashes,
                    number_of_hashes,
                    index,
                    register,
                    original_hash,
                    bit_index,
                    hash_bits,
                ) {
                    Ok(metadata) => Ok(Some(metadata)),
                    Err(error) => Err(error),
                }
            },
        }
    }

    /// Inserts the hash of the register `register` of index `index` taken from `original_hash`
    /// into the list of `number_of_hashes` gap hashes of `hash_bits` bits that ends at bit
    /// `bit_index` of `hashes`: in place, prefix-free coded or plain, while there is room, and
    /// by rewriting the list with fewer bits per hash when it is full.
    pub fn insert_sorted_desc(
        hashes: &mut [u8],
        number_of_hashes: u32,
        bit_index: u32,
        index: usize,
        register: u8,
        original_hash: u64,
        hash_bits: u8,
    ) -> (result: Result<Option<InsertMetadata>, SaturationError>)
        requires
            0 < register <= register_mask(B::spec_number_of_bits()),
            (index as nat) < pow2(P::spec_exponent() as nat),
            P::spec_exponent() + B::spec_number_of_bits() <= hash_bits <= 32,
            number_of_hashes < u32::MAX,
            number_of_hashes * hash_bits <= u32::MAX,
            bit_index + hash_bits <= u32::MAX,
            is_gap_hash_list(
                P::spec_exponent(),
                B::spec_number_of_bits(),
                old(hashes)@,
                number_of_hashes as nat,
                hash_bits,
                bit_index as nat,
            ),
            old(hashes)@.len() % 8 == 0,
            0 < old(hashes)@.len() <= 8 * 0x01ff_ffff,
            has_rank_index_spec(P::spec_exponent(), B::spec_number_of_bits()) ==> bit_index
                + rank_index_total_size_spec(P::spec_exponent(), B::spec_number_of_bits(), hash_bits)
                <= 8 * old(hashes)@.len(),
            !is_prefix_free(
                P::spec_exponent(),
                B::spec_number_of_bits(),
                number_of_hashes as nat,
                hash_bits,
                bit_index as nat,
            ) ==> forall|k: int|
                0 <= k < number_of_hashes ==> (#[trigger] switch_decoding(
                    P::spec_exponent() as u32,
                    B::spec_number_of_bits() as u32,
                    gap_hashes(
                        P::spec_exponent(),
                        B::spec_number_of_bits(),
                        old(hashes)@,
                        number_of_hashes as nat,
                        hash_bits,
                        bit_index as nat,
                    )[k] as u32,
                    hash_bits as u32,
                )).0 > 0,
            is_prefix_free(
                P::spec_exponent(),
                B::spec_number_of_bits(),
                number_of_hashes as nat,
                hash_bits,
                bit_index as nat,
            ) ==> placement_codable(
                P::spec_exponent() as u32,
                B::spec_number_of_bits() as u32,
                gap_hashes32(
                    P::spec_exponent(),
                    B::spec_number_of_bits(),
                    old(hashes)@,
                    number_of_hashes as nat,
                    hash_bits,
                    bit_index as nat,
                ),
                switch_encoding(
                    P::spec_exponent() as u32,
                    B::spec_number_of_bits() as u32,
                    index as u32,
                    register as u32,
                    original_hash,
                    hash_bits as u32,
                ),
                hash_bits as u32,
                gap_coefficient(P::spec_exponent(), B::spec_number_of_bits(), hash_bits),
            ),
        ensures
            if is_prefix_free(
                P::spec_exponent(),
                B::spec_number_of_bits(),
                number_of_hashes as nat,
                hash_bits,
                bit_index as nat,
            ) {
                is_coded_insertion(
                    P::spec_exponent(),
                    B::spec_number_of_bits(),
                    old(hashes)@,
                    final(hashes)@,
                    number_of_hashes as nat,
                    index as u32,
                    register as u32,
                    original_hash,
                    bit_index,
                    hash_bits,
                    result,
                )
            } else {
                is_plain_insertion(
                    P::spec_exponent(),
                    B::spec_number_of_bits(),
                    old(hashes)@,
                    final(hashes)@,
                    number_of_hashes as nat,
                    index as u32,
                    register as u32,
                    original_hash,
                    bit_index,
                    hash_bits,
                    result,
                )
            },
    {
        if Self::is_prefix_free_encoded(number_of_hashes, hash_bits, bit_index) {
            Self::insert_coded(
                hashes,
                number_of_hashes,
                bit_index,
                index,
                register,
                original_hash,
                hash_bits,
            )
        } else {
            Self::insert_plain(
                hashes,
                number_of_hashes,
                bit_index,
                index,
                register,
                original_hash,
                hash_bits,
            )
        }
    }

    /// Reads the next hash of a list, cut down.
    fn next_downgraded(
        iter: &mut DispatchedDowngradedIter<'_, P, B>,
        Ghost(stream): Ghost<Seq<bool>>,
        Ghost(hashes): Ghost<Seq<u32>>,
        Ghost(hb): Ghost<u8>,
        Ghost(shift): Ghost<u8>,
        Ghost(end): Ghost<nat>,
        Ghost(i): Ghost<nat>,
    ) -> (item: Option<u32>)
        requires
            reads_downgraded(*old(iter), stream, hashes, hb, shift, end, i),
        ensures
            i < hashes.len() ==> reads_downgraded(*final(iter), stream, hashes, hb, shift, end, i + 1)
                && item == Some(
                switch_downgrading(
                    P::spec_exponent() as u32,
                    B::spec_number_of_bits() as u32,
                    hashes[i as int],
                    hb as u32,
                    shift as u32,
                ),
            ),
            i == hashes.len() ==> item is None && reads_downgraded(
                *final(iter),
                stream,
                hashes,
                hb,
                shift,
                end,
                i,
            ),
            (*final(iter) is PrefixCodeDowngradedIter) == (*old(iter) is PrefixCodeDowngradedIter),
    {
        let ghost p = P::spec_exponent() as u32;
        let ghost b = B::spec_number_of_bits() as u32;
        let ghost k = gap_coefficient(P::spec_exponent(), B::spec_number_of_bits(), hb);
        proof {
            P::lemma_exponent_range();
            B::lemma_number_of_bits_range();
            if *iter is PrefixCodeDowngradedIter {
                {
                    if i == 0 {
                        lemma_reads_first_hash(p, b, hashes, hb as u32, k, stream);
                    } else if i < hashes.len() {
                        lemma_reads_gap_list(p, b, hashes, hb as u32, k, stream, i as int);
                        lemma_gap_list_code_prefix(p, b, hashes, hb as u32, k, i as int);
                    } else {
                        assert(hashes.take(i as int) =~= hashes);
                    }
                    if i < hashes.len() {
                        assert(is_canonical(p, b, hashes[i as int], hb as u32));
                    }
                }
            }
        }
        iter.next()
    }
}

} // verus!
