//! What splicing a hash into a coded list does to the rank index kept for the list.
use crate::bitstream::overwrite;
use crate::gap_insert::{
    is_place, lemma_gap_list_code_insert, lemma_insertion_size, lemma_place_exists, place_of,
    rank_index_after_coded_insertion,
};
use crate::gap_list::{gap_list_code, is_canonical, is_gap_list, lemma_gap_list_code_prefix};
use crate::gaps::{
    fits_bits, has_rank_index_spec, rank_index_bits_spec, rank_index_capacity_spec,
    rank_index_total_size_spec,
};
use crate::rank_index::{
    entry_bit_index, entry_hash, entry_of_list, is_rank_index_of, lemma_bucket_order,
    lemma_bucket_range, lemma_entry_place, lemma_entry_written, lemma_overwrite_read,
    lemma_shifted_entry, opens_bucket, rank_bucket, rank_entry_start, rank_mask, rank_update,
    shifted_entries,
};
use vstd::arithmetic::power2::pow2;
use vstd::prelude::*;

verus! {

/// Where the first hash of a decreasing list lies in an earlier bucket than a later hash, some
/// hash up to that one opens the later hash's bucket.
proof fn lemma_opener_exists(p: u8, hb: u8, m: Seq<u32>, x: int)
    requires
        0 < x < m.len(),
        hb >= p - 9,
        forall|a: int, c: int| 0 <= a < c < m.len() ==> m[a] > m[c],
        rank_bucket(p, hb, m[0]) < rank_bucket(p, hb, m[x]),
    ensures
        exists|i: int|
            #![trigger opens_bucket(p, hb, m, i)]
            1 <= i <= x && opens_bucket(p, hb, m, i) && rank_bucket(p, hb, m[i]) == rank_bucket(
                p,
                hb,
                m[x],
            ),
    decreases x,
{
    lemma_bucket_order(p, hb, m[x - 1], m[x]);
    if rank_bucket(p, hb, m[x - 1]) < rank_bucket(p, hb, m[x]) {
        assert(opens_bucket(p, hb, m, x));
    } else {
        lemma_opener_exists(p, hb, m, x - 1);
    }
}

/// Splicing into a coded list a hash in its place moves the code of each later hash by the
/// same number of bits.
proof fn lemma_later_position(p: u32, b: u32, m: Seq<u32>, e: u32, j: int, i: int, hb: u32, k: nat)
    requires
        0 <= j < i <= m.len(),
        0 < hb,
    ensures
        gap_list_code(p, b, m.insert(j, e).take(i + 1), hb, k).len() + gap_list_code(p, b, m, hb, k).len()
            == gap_list_code(p, b, m.take(i), hb, k).len() + gap_list_code(p, b, m.insert(j, e), hb, k).len(),
{
    let t = m.take(i);
    assert(m.insert(j, e).take(i + 1) =~= t.insert(j, e));
    assert(t.take(j) =~= m.take(j));
    assert(t.take(j + 1) =~= m.take(j + 1));
    assert(t[j] == m[j]);
    if j > 0 {
        assert(t[j - 1] == m[j - 1]);
    }
    lemma_gap_list_code_insert(p, b, t, e, j, hb, k);
    lemma_gap_list_code_insert(p, b, m, e, j, hb, k);
    lemma_gap_list_code_prefix(p, b, m, hb, k, j + 1);
    lemma_gap_list_code_prefix(p, b, t, hb, k, j + 1);
    lemma_gap_list_code_prefix(p, b, m, hb, k, i);
}

/// The setting of an insertion into a coded list with a rank index: the list, the hash, the
/// buffer, and the rank index of the list in it.
pub open spec fn insertion_setting(s: Seq<bool>, p: u8, b: u8, hb: u8, words: nat, m: Seq<u32>, e: u32, k: nat) -> bool {
    &&& 10 <= p <= 18
    &&& 4 <= b <= 6
    &&& p + b <= hb <= 32
    &&& has_rank_index_spec(p, b)
    &&& s.len() == 64 * words
    &&& 64 * words <= pow2(rank_index_bits_spec(p, b) as nat)
    &&& gap_list_code(p as u32, b as u32, m.insert(place_of(m, e), e), hb as u32, k).len()
        + rank_index_total_size_spec(p, b, hb) <= 64 * words
    &&& is_gap_list(p as u32, b as u32, m, hb as u32, k)
    &&& 0 < m.len()
    &&& !m.contains(e)
    &&& fits_bits(e, hb as u32)
    &&& rank_bucket(p, hb, m[0]) == 0
    &&& is_rank_index_of(s, p, b, hb, words, m, k)
}

/// The facts about an insertion that every bucket needs: the place of the new hash, the sizes
/// of the codes, and the ranges of the buckets.
#[verifier::spinoff_prover]
#[verifier::rlimit(100)]
proof fn lemma_setting_facts(s: Seq<bool>, p: u8, b: u8, hb: u8, words: nat, m: Seq<u32>, e: u32, k: nat)
    requires
        insertion_setting(s, p, b, hb, words, m, e, k),
    ensures
        is_place(m, e, place_of(m, e)),
        forall|i: int| 0 <= i < m.len() ==> fits_bits(#[trigger] m[i], hb as u32),
        forall|x: int, y: int| 0 <= x < y < m.len() ==> m[x] > m[y],
        gap_list_code(p as u32, b as u32, m, hb as u32, k).len() <= gap_list_code(
            p as u32,
            b as u32,
            m.insert(place_of(m, e), e),
            hb as u32,
            k,
        ).len(),
        gap_list_code(p as u32, b as u32, m.insert(place_of(m, e), e), hb as u32, k).len() + 2 <= pow2(
            rank_index_bits_spec(p, b) as nat,
        ),
        rank_index_capacity_spec(p) >= 2,
        0 <= rank_bucket(p, hb, e) < rank_index_capacity_spec(p),
        pow2(rank_index_bits_spec(p, b) as nat) <= u32::MAX,
{
    let pp = p as u32;
    let bb = b as u32;
    let h = hb as u32;
    let n = m.len() as int;
    lemma_place_exists(m, e);
    let j = place_of(m, e);
    let cap = rank_index_capacity_spec(p);
    let rb = rank_index_bits_spec(p, b) as nat;
    let total = rank_index_total_size_spec(p, b, hb);
    crate::gaps::lemma_rank_index_precision(p, b);
    vstd::arithmetic::power2::lemma2_to64();
    vstd::arithmetic::power2::lemma_pow2_strictly_increases(rb, 32);
    assert forall|i: int| 0 <= i < n implies fits_bits(#[trigger] m[i], h) by {
        assert(is_canonical(pp, bb, m[i], h));
    }
    assert(cap >= 2) by {
        vstd::arithmetic::power2::lemma_pow2_strictly_increases(0, (p - 9) as nat);
    }
    assert(total >= 2) by {
        assert((cap - 1) * (rb + hb) >= 2) by (nonlinear_arith)
            requires
                cap >= 2,
                rb + hb >= 2,
        ;
    }
    lemma_insertion_size(pp, bb, m, e, j, h, k);
    lemma_gap_list_code_insert(pp, bb, m, e, j, h, k);
    lemma_gap_list_code_prefix(pp, bb, m, h, k, j);
    if j < n {
        lemma_gap_list_code_prefix(pp, bb, m, h, k, j + 1);
    } else {
        assert(m.take(n) =~= m);
    }
    lemma_bucket_range(p, hb, e);
}

/// The stream after splicing `e` into the coded list `m` and updating the rank index.
pub open spec fn stream_after_insertion(s: Seq<bool>, p: u8, b: u8, hb: u8, words: nat, m: Seq<u32>, e: u32, k: nat) -> Seq<bool> {
    rank_index_after_coded_insertion(
        overwrite(s, 0, gap_list_code(p as u32, b as u32, m.insert(place_of(m, e), e), hb as u32, k)),
        p,
        b,
        hb,
        words,
        m,
        e,
        k,
    )
}

/// A non-empty entry of the rank index of a list holds a position within the code of the list.
proof fn lemma_entry_position(s: Seq<bool>, p: u8, b: u8, hb: u8, words: nat, m: Seq<u32>, k: nat, q: int)
    requires
        is_rank_index_of(s, p, b, hb, words, m, k),
        1 <= q < rank_index_capacity_spec(p),
        0 < hb,
        entry_bit_index(s, rank_entry_start(p, b, hb, words, q), p, b) != rank_mask(p, b),
    ensures
        exists|i: int|
            #![trigger opens_bucket(p, hb, m, i)]
            opens_bucket(p, hb, m, i) && rank_bucket(p, hb, m[i]) == q && entry_bit_index(
                s,
                rank_entry_start(p, b, hb, words, q),
                p,
                b,
            ) == gap_list_code(p as u32, b as u32, m.take(i), hb as u32, k).len() && entry_hash(
                s,
                rank_entry_start(p, b, hb, words, q),
                p,
                b,
                hb,
            ) == m[i],
        entry_bit_index(s, rank_entry_start(p, b, hb, words, q), p, b) <= gap_list_code(
            p as u32,
            b as u32,
            m,
            hb as u32,
            k,
        ).len(),
{
    assert(entry_of_list(s, p, b, hb, words, m, k, m.len(), q));
    let i = choose|i: int| #![trigger opens_bucket(p, hb, m, i)] opens_bucket(p, hb, m, i) && rank_bucket(p, hb, m[i]) == q;
    lemma_gap_list_code_prefix(p as u32, b as u32, m, hb as u32, k, i);
}

/// What an entry of the rank index reads after the insertion: the new hash where it was
/// recorded, a moved bit index where the entry was moved, and otherwise what it read before.
#[verifier::spinoff_prover]
#[verifier::rlimit(100)]
proof fn lemma_entry_after(s: Seq<bool>, p: u8, b: u8, hb: u8, words: nat, m: Seq<u32>, e: u32, k: nat, jj: int)
    requires
        insertion_setting(s, p, b, hb, words, m, e, k),
        1 <= jj < rank_index_capacity_spec(p),
    ensures
        ({
            let j = place_of(m, e);
            let l = m.insert(j, e);
            let start = rank_entry_start(p, b, hb, words, jj);
            let old_index = entry_bit_index(s, start, p, b);
            let old_hash = entry_hash(s, start, p, b, hb);
            let je = rank_bucket(p, hb, e);
            let recorded = jj == je && (old_hash < e || old_index == rank_mask(p, b));
            let moved = jj > je && j < m.len() && old_index != rank_mask(p, b);
            let r = stream_after_insertion(s, p, b, hb, words, m, e, k);
            &&& entry_hash(r, start, p, b, hb) == if recorded {
                e as nat
            } else {
                old_hash
            }
            &&& entry_bit_index(r, start, p, b) == if recorded {
                gap_list_code(p as u32, b as u32, m.take(j), hb as u32, k).len()
            } else if moved {
                if old_hash == m[j] {
                    gap_list_code(p as u32, b as u32, l.take(j + 1), hb as u32, k).len()
                } else {
                    (old_index + gap_list_code(p as u32, b as u32, l, hb as u32, k).len() - gap_list_code(
                        p as u32,
                        b as u32,
                        m,
                        hb as u32,
                        k,
                    ).len()) as nat
                }
            } else {
                old_index
            }
        }),
{
    lemma_setting_facts(s, p, b, hb, words, m, e, k);
    crate::gaps::lemma_rank_index_precision(p, b);
    let pp = p as u32;
    let bb = b as u32;
    let h = hb as u32;
    let n = m.len() as int;
    let j = place_of(m, e);
    let l = m.insert(j, e);
    let code = gap_list_code(pp, bb, m, h, k);
    let code2 = gap_list_code(pp, bb, l, h, k);
    let s1 = overwrite(s, 0, code2);
    let at = gap_list_code(pp, bb, m.take(j), h, k).len();
    let after = gap_list_code(pp, bb, l.take(j + 1), h, k).len();
    let delta = (code2.len() - code.len()) as nat;
    let je = rank_bucket(p, hb, e);
    let cap = rank_index_capacity_spec(p);
    let rb = rank_index_bits_spec(p, b) as nat;
    lemma_gap_list_code_prefix(pp, bb, m, h, k, j);
    lemma_gap_list_code_prefix(pp, bb, l, h, k, j + 1);
    assert(l.take(j) =~= m.take(j));
    lemma_gap_list_code_prefix(pp, bb, l, h, k, j);
    // The code is written before the rank index.
    assert forall|q: int| 1 <= q < cap implies entry_bit_index(s1, #[trigger] rank_entry_start(p, b, hb, words, q), p, b)
        == entry_bit_index(s, rank_entry_start(p, b, hb, words, q), p, b) && entry_hash(
        s1,
        rank_entry_start(p, b, hb, words, q),
        p,
        b,
        hb,
    ) == entry_hash(s, rank_entry_start(p, b, hb, words, q), p, b, hb) by {
        lemma_entry_place(p, b, hb, words, q);
        lemma_overwrite_read(s, 0, code2, rank_entry_start(p, b, hb, words, q), rb as int);
        lemma_overwrite_read(s, 0, code2, rank_entry_start(p, b, hb, words, q) + rb, hb as int);
    }
    let rec = rank_update(s1, p, b, hb, words, at as u32, e);
    let write = je > 0 && (entry_hash(s1, rank_entry_start(p, b, hb, words, je), p, b, hb) < e
        || entry_bit_index(s1, rank_entry_start(p, b, hb, words, je), p, b) == rank_mask(p, b));
    assert forall|q: int| 1 <= q < cap implies entry_bit_index(rec, #[trigger] rank_entry_start(p, b, hb, words, q), p, b)
        == (if write && q == je { at } else { entry_bit_index(s, rank_entry_start(p, b, hb, words, q), p, b) })
        && entry_hash(rec, rank_entry_start(p, b, hb, words, q), p, b, hb) == (if write && q == je {
        e as nat
    } else {
        entry_hash(s, rank_entry_start(p, b, hb, words, q), p, b, hb)
    }) && rec.len() == s.len() by {
        if write {
            lemma_entry_written(s1, p, b, hb, words, at, e, q);
        }
    }
    if j < n {
        let r = shifted_entries(rec, p, b, hb, words, je, cap - 1, m[j], after as u32, delta as u32);
        assert(r == stream_after_insertion(s, p, b, hb, words, m, e, k));
        assert forall|q: int| je < q <= cap - 1 && entry_bit_index(rec, #[trigger] rank_entry_start(p, b, hb, words, q), p, b)
            != rank_mask(p, b) implies entry_bit_index(rec, rank_entry_start(p, b, hb, words, q), p, b) + (delta as u32)
            < pow2(rb) by {
            lemma_entry_position(s, p, b, hb, words, m, k, q);
        }
        lemma_shifted_entry(rec, p, b, hb, words, je, cap - 1, m[j], after as u32, delta as u32, jj);
    }
}

/// A bucket before the one of the new hash keeps its entry, and the longer list its opener.
#[verifier::spinoff_prover]
#[verifier::rlimit(100)]
proof fn lemma_low_bucket(s: Seq<bool>, p: u8, b: u8, hb: u8, words: nat, m: Seq<u32>, e: u32, k: nat, jj: int)
    requires
        insertion_setting(s, p, b, hb, words, m, e, k),
        1 <= jj < rank_bucket(p, hb, e),
        jj < rank_index_capacity_spec(p),
    ensures
        entry_of_list(
            stream_after_insertion(s, p, b, hb, words, m, e, k),
            p,
            b,
            hb,
            words,
            m.insert(place_of(m, e), e),
            k,
            m.len() + 1,
            jj,
        ),
{
    lemma_setting_facts(s, p, b, hb, words, m, e, k);
    lemma_entry_after(s, p, b, hb, words, m, e, k, jj);
    let j = place_of(m, e);
    let l = m.insert(j, e);
    let n = m.len() as int;
    assert(entry_of_list(s, p, b, hb, words, m, k, m.len(), jj));
    assert forall|i: int| #![trigger opens_bucket(p, hb, l, i)] opens_bucket(p, hb, l, i) && rank_bucket(p, hb, l[i]) == jj
        implies i < j && opens_bucket(p, hb, m, i) && l.take(i) == m.take(i) && l[i] == m[i] by {
        if i >= j {
            if i == j {
                assert(l[i] == e);
            } else {
                assert(l[i] == m[i - 1]);
                lemma_bucket_order(p, hb, e, m[i - 1]);
            }
        }
        assert(l[i - 1] == m[i - 1]);
        assert(l.take(i) =~= m.take(i));
    }
    assert forall|i: int| #![trigger opens_bucket(p, hb, m, i)] opens_bucket(p, hb, m, i) && rank_bucket(p, hb, m[i]) == jj
        implies i < j && opens_bucket(p, hb, l, i) by {
        if i >= j {
            lemma_bucket_order(p, hb, e, m[i]);
        }
        assert(l[i] == m[i] && l[i - 1] == m[i - 1]);
    }
}

/// The bucket of the new hash records it where it opens the bucket, and otherwise keeps the
/// hash that opens it.
#[verifier::spinoff_prover]
#[verifier::rlimit(100)]
proof fn lemma_own_bucket(s: Seq<bool>, p: u8, b: u8, hb: u8, words: nat, m: Seq<u32>, e: u32, k: nat)
    requires
        insertion_setting(s, p, b, hb, words, m, e, k),
        1 <= rank_bucket(p, hb, e),
    ensures
        entry_of_list(
            stream_after_insertion(s, p, b, hb, words, m, e, k),
            p,
            b,
            hb,
            words,
            m.insert(place_of(m, e), e),
            k,
            m.len() + 1,
            rank_bucket(p, hb, e),
        ),
{
    lemma_setting_facts(s, p, b, hb, words, m, e, k);
    let je = rank_bucket(p, hb, e);
    lemma_entry_after(s, p, b, hb, words, m, e, k, je);
    let pp = p as u32;
    let bb = b as u32;
    let h = hb as u32;
    let j = place_of(m, e);
    let l = m.insert(j, e);
    let n = m.len() as int;
    let start = rank_entry_start(p, b, hb, words, je);
    assert(entry_of_list(s, p, b, hb, words, m, k, m.len(), je));
    assert(l.take(j) =~= m.take(j));
    if j == 0 {
        lemma_bucket_order(p, hb, e, m[0]);
    } else {
        lemma_bucket_order(p, hb, m[j - 1], e);
    }
    assert(j >= 1);
    if rank_bucket(p, hb, m[j - 1]) < je {
        // The new hash opens its bucket.
        assert(l[j] == e && l[j - 1] == m[j - 1]);
        assert(opens_bucket(p, hb, l, j));
        assert forall|i: int| #![trigger opens_bucket(p, hb, l, i)] opens_bucket(p, hb, l, i) && rank_bucket(p, hb, l[i]) == je
            implies i == j by {
            if i < j {
                assert(l[i] == m[i]);
                lemma_bucket_order(p, hb, m[i], m[j - 1]);
            } else if i > j {
                assert(l[i] == m[i - 1]);
                if i > j + 1 {
                    assert(l[i - 1] == m[i - 2]);
                    lemma_bucket_order(p, hb, e, m[i - 2]);
                    lemma_bucket_order(p, hb, m[i - 2], m[i - 1]);
                }
            }
        }
        assert forall|i: int| #![trigger opens_bucket(p, hb, m, i)] opens_bucket(p, hb, m, i) && rank_bucket(p, hb, m[i]) == je
            implies i == j by {
            if i < j {
                lemma_bucket_order(p, hb, m[i], m[j - 1]);
            } else if i > j {
                lemma_bucket_order(p, hb, m[j], m[i - 1]);
                lemma_bucket_order(p, hb, e, m[j]);
            }
        }
        if j < n && opens_bucket(p, hb, m, j) && rank_bucket(p, hb, m[j]) == je {
            assert(entry_hash(s, start, p, b, hb) == m[j]);
        } else {
            assert(entry_bit_index(s, start, p, b) == rank_mask(p, b));
        }
    } else {
        // The bucket opens before the new hash and keeps its entry.
        assert(rank_bucket(p, hb, m[j - 1]) == je);
        lemma_opener_exists(p, hb, m, j - 1);
        let i0 = choose|i: int| #![trigger opens_bucket(p, hb, m, i)] 1 <= i <= j - 1 && opens_bucket(p, hb, m, i)
            && rank_bucket(p, hb, m[i]) == je;
        lemma_bucket_order(p, hb, m[i0], m[j - 1]);
        assert(entry_hash(s, start, p, b, hb) == m[i0]);
        lemma_gap_list_code_prefix(pp, bb, m, h, k, i0);
        assert(entry_bit_index(s, start, p, b) != rank_mask(p, b));
        assert(l.take(i0) =~= m.take(i0));
        assert(l[i0] == m[i0] && l[i0 - 1] == m[i0 - 1]);
        assert(opens_bucket(p, hb, l, i0));
        assert forall|i: int| #![trigger opens_bucket(p, hb, l, i)] opens_bucket(p, hb, l, i) && rank_bucket(p, hb, l[i]) == je
            implies i == i0 by {
            if i < j {
                assert(l[i] == m[i] && l[i - 1] == m[i - 1]);
                assert(opens_bucket(p, hb, m, i));
                if i < i0 {
                    lemma_bucket_order(p, hb, m[i], m[i0 - 1]);
                } else if i > i0 {
                    lemma_bucket_order(p, hb, m[i0], m[i - 1]);
                }
            } else if i == j {
                assert(l[j - 1] == m[j - 1]);
            } else if i == j + 1 {
                assert(l[i - 1] == e);
            } else {
                assert(l[i] == m[i - 1] && l[i - 1] == m[i - 2]);
                lemma_bucket_order(p, hb, m[j - 1], m[i - 2]);
                lemma_bucket_order(p, hb, m[i - 2], m[i - 1]);
            }
        }
    }
}

/// The openers of a bucket after the one of the new hash are the same hashes in the two lists,
/// one place apart.
#[verifier::spinoff_prover]
#[verifier::rlimit(100)]
proof fn lemma_high_openers(p: u8, hb: u8, m: Seq<u32>, e: u32, jj: int)
    requires
        is_place(m, e, place_of(m, e)),
        forall|x: int, y: int| 0 <= x < y < m.len() ==> m[x] > m[y],
        hb >= p - 9,
        0 < m.len(),
        rank_bucket(p, hb, m[0]) == 0,
        rank_bucket(p, hb, e) < jj,
        1 <= jj,
    ensures
        forall|x: int|
            #![trigger opens_bucket(p, hb, m.insert(place_of(m, e), e), x)]
            opens_bucket(p, hb, m.insert(place_of(m, e), e), x) && rank_bucket(
                p,
                hb,
                m.insert(place_of(m, e), e)[x],
            ) == jj ==> x >= place_of(m, e) + 1 && m.insert(place_of(m, e), e)[x] == m[x - 1]
                && opens_bucket(p, hb, m, x - 1),
        forall|i: int|
            #![trigger opens_bucket(p, hb, m, i)]
            opens_bucket(p, hb, m, i) && rank_bucket(p, hb, m[i]) == jj ==> i >= place_of(m, e)
                && opens_bucket(p, hb, m.insert(place_of(m, e), e), i + 1) && m.insert(
                place_of(m, e),
                e,
            )[i + 1] == m[i],
{
    let j = place_of(m, e);
    let l = m.insert(j, e);
    assert forall|x: int| #![trigger opens_bucket(p, hb, l, x)] opens_bucket(p, hb, l, x) && rank_bucket(p, hb, l[x]) == jj
        implies x >= j + 1 && l[x] == m[x - 1] && opens_bucket(p, hb, m, x - 1) by {
        if x < j {
            assert(l[x] == m[x]);
            lemma_bucket_order(p, hb, m[x], e);
        } else if x == j {
            assert(l[x] == e);
        } else {
            assert(l[x] == m[x - 1]);
            if x == j + 1 {
                if j == 0 {
                    lemma_bucket_order(p, hb, e, m[0]);
                } else {
                    lemma_bucket_order(p, hb, m[j - 1], e);
                }
            } else {
                assert(l[x - 1] == m[x - 2]);
            }
        }
    }
    assert forall|i: int| #![trigger opens_bucket(p, hb, m, i)] opens_bucket(p, hb, m, i) && rank_bucket(p, hb, m[i]) == jj
        implies i >= j && opens_bucket(p, hb, l, i + 1) && l[i + 1] == m[i] by {
        if i < j {
            lemma_bucket_order(p, hb, m[i], e);
        }
        assert(l[i + 1] == m[i]);
        if i == j {
            assert(l[i] == e);
        } else {
            assert(l[i] == m[i - 1]);
        }
    }
}

/// A bucket after the one of the new hash keeps the hash that opens it, at a position moved as
/// the code moved.
#[verifier::spinoff_prover]
#[verifier::rlimit(100)]
proof fn lemma_high_bucket(s: Seq<bool>, p: u8, b: u8, hb: u8, words: nat, m: Seq<u32>, e: u32, k: nat, jj: int)
    requires
        insertion_setting(s, p, b, hb, words, m, e, k),
        rank_bucket(p, hb, e) < jj < rank_index_capacity_spec(p),
        1 <= jj,
    ensures
        entry_of_list(
            stream_after_insertion(s, p, b, hb, words, m, e, k),
            p,
            b,
            hb,
            words,
            m.insert(place_of(m, e), e),
            k,
            m.len() + 1,
            jj,
        ),
{
    lemma_setting_facts(s, p, b, hb, words, m, e, k);
    lemma_entry_after(s, p, b, hb, words, m, e, k, jj);
    let pp = p as u32;
    let bb = b as u32;
    let h = hb as u32;
    let j = place_of(m, e);
    let l = m.insert(j, e);
    let start = rank_entry_start(p, b, hb, words, jj);
    assert(entry_of_list(s, p, b, hb, words, m, k, m.len(), jj));
    lemma_high_openers(p, hb, m, e, jj);
    if entry_bit_index(s, start, p, b) != rank_mask(p, b) {
        let i = choose|i: int| #![trigger opens_bucket(p, hb, m, i)] opens_bucket(p, hb, m, i) && rank_bucket(p, hb, m[i]) == jj;
        assert(opens_bucket(p, hb, l, i + 1));
        if i == j {
            assert(l.take(i + 1) =~= l.take(j + 1));
        } else {
            lemma_later_position(pp, bb, m, e, j, i, h, k);
            assert(m[i] != m[j]);
        }
    } else {
        assert forall|x: int| #![trigger opens_bucket(p, hb, l, x)] opens_bucket(p, hb, l, x) && x < m.len() + 1
            implies rank_bucket(p, hb, l[x]) != jj by {
            if rank_bucket(p, hb, l[x]) == jj {
                assert(opens_bucket(p, hb, m, x - 1));
                lemma_gap_list_code_prefix(pp, bb, m, h, k, x - 1);
            }
        }
    }
}

/// Splicing a hash into a coded list whose first hash lies in the first bucket keeps the rank
/// index the one of the list: where the buffer holds the rank index of the list, after the
/// insertion it holds the rank index of the longer list.
#[verifier::spinoff_prover]
#[verifier::rlimit(100)]
pub proof fn lemma_coded_insertion_keeps_rank_index(
    s: Seq<bool>,
    p: u8,
    b: u8,
    hb: u8,
    words: nat,
    m: Seq<u32>,
    e: u32,
    k: nat,
)
    requires
        insertion_setting(s, p, b, hb, words, m, e, k),
    ensures
        is_rank_index_of(
            stream_after_insertion(s, p, b, hb, words, m, e, k),
            p,
            b,
            hb,
            words,
            m.insert(place_of(m, e), e),
            k,
        ),
{
    lemma_setting_facts(s, p, b, hb, words, m, e, k);
    let je = rank_bucket(p, hb, e);
    let l = m.insert(place_of(m, e), e);
    assert(l.len() == m.len() + 1);
    assert forall|jj: int| 1 <= jj < rank_index_capacity_spec(p) implies #[trigger] entry_of_list(
        stream_after_insertion(s, p, b, hb, words, m, e, k),
        p,
        b,
        hb,
        words,
        l,
        k,
        l.len(),
        jj,
    ) by {
        if jj < je {
            lemma_low_bucket(s, p, b, hb, words, m, e, k, jj);
        } else if jj == je {
            lemma_own_bucket(s, p, b, hb, words, m, e, k);
        } else {
            lemma_high_bucket(s, p, b, hb, words, m, e, k, jj);
        }
    }
}

} // verus!
