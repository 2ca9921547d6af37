//! The cardinalities of two sets and of their union, made consistent with each other.
use vstd::prelude::*;

verus! {

/// Estimated cardinalities of two sets and of their union.
#[derive(Debug, Clone, Copy, PartialEq, Eq, Structural, Default)]
pub struct EstimatedUnionCardinalities {
    /// The estimated cardinality of the left set.
    left_cardinality: u64,
    /// The estimated cardinality of the right set.
    right_cardinality: u64,
    /// The estimated cardinality of the union of the two sets.
    union_cardinality: u64,
}

/// The union estimate brought into the only range a union can lie in: at least each set, at
/// most both together.
pub open spec fn corrected_union(left: u64, right: u64, union: u64) -> u64 {
    let capped = if union > left + right {
        (left + right) as u64
    } else {
        union
    };
    if capped < left || capped < right {
        if left < right {
            right
        } else {
            left
        }
    } else {
        capped
    }
}

impl EstimatedUnionCardinalities {
    /// The estimated cardinality of the left set.
    pub closed spec fn left(self) -> u64 {
        self.left_cardinality
    }

    /// The estimated cardinality of the right set.
    pub closed spec fn right(self) -> u64 {
        self.right_cardinality
    }

    /// The estimated cardinality of the union.
    pub closed spec fn union(self) -> u64 {
        self.union_cardinality
    }

    /// The three estimates are consistent: the union is at least each set and at most both.
    pub closed spec fn wf(self) -> bool {
        &&& self.left_cardinality <= self.union_cardinality
        &&& self.right_cardinality <= self.union_cardinality
        &&& self.union_cardinality <= self.left_cardinality + self.right_cardinality
        &&& self.left_cardinality + self.right_cardinality <= u64::MAX
    }

    /// Builds the estimates, correcting the union estimate into its possible range.
    pub fn with_correction(left_cardinality: u64, right_cardinality: u64, union_cardinality: u64) -> (estimates: Self)
        requires
            left_cardinality + right_cardinality <= u64::MAX,
        ensures
            estimates.wf(),
            estimates.left() == left_cardinality,
            estimates.right() == right_cardinality,
            estimates.union() == corrected_union(
                left_cardinality,
                right_cardinality,
                union_cardinality,
            ),
            left_cardinality <= estimates.union() && right_cardinality <= estimates.union()
                && estimates.union() <= left_cardinality + right_cardinality,
            left_cardinality <= union_cardinality && right_cardinality <= union_cardinality
                && union_cardinality <= left_cardinality + right_cardinality ==> estimates.union()
                == union_cardinality,
            union_cardinality < left_cardinality || union_cardinality < right_cardinality
                ==> estimates.union() == left_cardinality || estimates.union() == right_cardinality,
            union_cardinality > left_cardinality + right_cardinality ==> estimates.union()
                == left_cardinality + right_cardinality,
    {
        let mut union_cardinality = union_cardinality;
        if union_cardinality > left_cardinality + right_cardinality {
            union_cardinality = left_cardinality + right_cardinality;
        }
        if union_cardinality < left_cardinality || union_cardinality < right_cardinality {
            union_cardinality = if left_cardinality < right_cardinality {
                right_cardinality
            } else {
                left_cardinality
            };
        }
        Self { left_cardinality, right_cardinality, union_cardinality }
    }

    /// The estimated cardinality of the intersection: both sets together minus the union.
    pub fn get_intersection_cardinality(&self) -> (cardinality: u64)
        requires
            self.wf(),
        ensures
            cardinality == self.left() + self.right() - self.union(),
    {
        self.left_cardinality + self.right_cardinality - self.union_cardinality
    }

    /// The estimated cardinality of the left set minus the right set.
    pub fn get_left_difference_cardinality(&self) -> (cardinality: u64)
        requires
            self.wf(),
        ensures
            cardinality == self.union() - self.right(),
    {
        self.union_cardinality - self.right_cardinality
    }

    /// The estimated cardinality of the right set minus the left set.
    pub fn get_right_difference_cardinality(&self) -> (cardinality: u64)
        requires
            self.wf(),
        ensures
            cardinality == self.union() - self.left(),
    {
        self.union_cardinality - self.left_cardinality
    }
}

/// The corrected union is the union estimate clamped into the range a union can lie in: it is
/// at least each set and at most both together; an estimate inside that range is kept; one
/// below it becomes the larger set; one above it becomes both sets together.
pub proof fn lemma_corrected_union_clamps(left: u64, right: u64, union: u64)
    requires
        left + right <= u64::MAX,
    ensures
        left <= corrected_union(left, right, union),
        right <= corrected_union(left, right, union),
        corrected_union(left, right, union) <= left + right,
        left <= union && right <= union && union <= left + right ==> corrected_union(left, right, union)
            == union,
        union < left || union < right ==> corrected_union(left, right, union) == left
            || corrected_union(left, right, union) == right,
        union > left + right ==> corrected_union(left, right, union) == left + right,
{
}

/// From consistent estimates, the intersection is at most the smaller set, and each difference
/// is what the other set leaves of the union; when the union estimate is below the larger set,
/// the smaller set lies wholly in the intersection and the difference on the larger side is
/// the gap between the two sets.
pub proof fn lemma_corrected_parts(left: u64, right: u64, union: u64)
    requires
        left + right <= u64::MAX,
        union < left || union < right,
    ensures
        ({
            let c = corrected_union(left, right, union);
            &&& left + right - c == if left < right {
                left
            } else {
                right
            }
            &&& c - right + (c - left) == if left < right {
                right - left
            } else {
                left - right
            }
        }),
{
}

/// The intersection and the two differences of consistent estimates add up to the union.
pub proof fn lemma_parts_make_the_union(estimates: EstimatedUnionCardinalities)
    requires
        estimates.wf(),
    ensures
        (estimates.left() + estimates.right() - estimates.union()) + (estimates.union()
            - estimates.right()) + (estimates.union() - estimates.left()) == estimates.union(),
{
}

} // verus!
