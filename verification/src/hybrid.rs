//! Counting the values two hash lists share.
use vstd::prelude::*;

verus! {

/// The sequence is strictly decreasing.
pub open spec fn strictly_decreasing_u64(s: Seq<u64>) -> bool {
    forall|i: int, j: int| 0 <= i < j < s.len() ==> s[i] > s[j]
}

/// Returns the number of values that two strictly decreasing lists share, walking both
/// lists once.
pub fn intersection_from_sorted_iterators(left: &[u64], right: &[u64]) -> (intersection: u32)
    requires
        left@.filter(|v: u64| right@.contains(v)).len() <= u32::MAX,
        strictly_decreasing_u64(left@),
        strictly_decreasing_u64(right@),
    ensures
        intersection == left@.filter(|v: u64| right@.contains(v)).len(),
{
    let ghost shared = |v: u64| right@.contains(v);
    let mut intersection: u32 = 0;
    let mut i: usize = 0;
    let mut j: usize = 0;
    proof {
        assert(left@.take(0) =~= Seq::<u64>::empty());
    }
    while i < left.len() && j < right.len()
        invariant
            i <= left@.len(),
            j <= right@.len(),
            left@.filter(shared).len() <= u32::MAX,
            strictly_decreasing_u64(left@),
            strictly_decreasing_u64(right@),
            shared == (|v: u64| right@.contains(v)),
            intersection == left@.take(i as int).filter(shared).len(),
            i < left@.len() ==> forall|k: int| 0 <= k < j ==> #[trigger] right@[k] > left@[i as int],
        decreases left@.len() - i + right@.len() - j,
    {
        let left_value = left[i];
        let right_value = right[j];
        proof {
            assert(left@.take(i + 1) =~= left@.take(i as int).push(left_value));
            left@.take(i as int).lemma_filter_push(left_value, shared);
        }
        if left_value == right_value {
            proof {
                assert(shared(left_value)) by {
                    assert(right@[j as int] == left_value);
                }
                lemma_filter_prefix_len(left@, i + 1, shared);
            }
            intersection += 1;
            i += 1;
            j += 1;
        } else if left_value < right_value {
            j += 1;
        } else {
            proof {
                assert(!shared(left_value)) by {
                    assert forall|k: int| 0 <= k < right@.len() implies right@[k] != left_value by {
                        if k >= j as int && k > j as int {
                            assert(right@[k] < right@[j as int]);
                        }
                    }
                }
            }
            i += 1;
        }
    }
    proof {
        if i < left@.len() {
            // The right list is exhausted: no later left value is shared.
            assert forall|t: int| i <= t < left@.len() implies !shared(left@[t]) by {
                assert forall|k: int| 0 <= k < right@.len() implies right@[k] != left@[t] by {
                    if t > i as int {
                        assert(left@[t] < left@[i as int]);
                    }
                }
            }
            lemma_filter_tail_unshared(left@, i as int, shared);
        } else {
            assert(left@.take(i as int) =~= left@);
        }
    }
    intersection
}

/// When no value after position `i` passes, the filter of the whole sequence is that of its
/// first `i` values.
proof fn lemma_filter_tail_unshared(s: Seq<u64>, i: int, pred: spec_fn(u64) -> bool)
    requires
        0 <= i <= s.len(),
        forall|t: int| i <= t < s.len() ==> !pred(s[t]),
    ensures
        s.filter(pred).len() == s.take(i).filter(pred).len(),
    decreases s.len() - i,
{
    if i < s.len() {
        assert(s.take(i + 1) =~= s.take(i).push(s[i]));
        s.take(i).lemma_filter_push(s[i], pred);
        lemma_filter_tail_unshared(s, i + 1, pred);
    } else {
        assert(s.take(i) =~= s);
    }
}

/// The values of a prefix that pass a filter are no more than those of the whole sequence.
proof fn lemma_filter_prefix_len(s: Seq<u64>, i: int, pred: spec_fn(u64) -> bool)
    requires
        0 <= i <= s.len(),
    ensures
        s.take(i).filter(pred).len() <= s.filter(pred).len(),
    decreases s.len() - i,
{
    if i < s.len() {
        assert(s.take(i + 1) =~= s.take(i).push(s[i]));
        s.take(i).lemma_filter_push(s[i], pred);
        lemma_filter_prefix_len(s, i + 1, pred);
    } else {
        assert(s.take(i) =~= s);
    }
}

} // verus!
