//! A counter that keeps, next to its registers, how many registers hold each value.
use crate::hyperloglog::{hash_index, hash_register, index_and_register_and_hash, is_value_hash, split_hash};
use crate::precisions::{mask_of, register_mask, Bits, Precision};
use vstd::arithmetic::power2::pow2;
use vstd::prelude::*;

verus! {

/// Whether a register holds `value`.
pub open spec fn holds_value(value: u8) -> spec_fn(u8) -> bool {
    |r: u8| r == value
}

/// How many registers hold the value `value`.
pub open spec fn count_of(registers: Seq<u8>, value: u8) -> nat {
    registers.filter(holds_value(value)).len()
}

/// The multiplicities of a sequence of registers: entry `v` counts the registers equal to `v`.
pub open spec fn are_multiplicities(multiplicities: Seq<u32>, registers: Seq<u8>, mask: nat) -> bool {
    &&& multiplicities.len() == mask + 1
    &&& forall|v: int| 0 <= v <= mask ==> #[trigger] multiplicities[v] == count_of(registers, v as u8)
}

/// A counter of precision `P` with registers of `B` bits, and the number of registers holding
/// each register value.
#[derive(Debug)]
pub struct HLLMultiplicities<P: Precision, B: Bits> {
    registers: Vec<u8>,
    multiplicities: Vec<u32>,
    _precision: core::marker::PhantomData<P>,
    _bits: core::marker::PhantomData<B>,
}

/// The registers and their multiplicities, in the older layout of packed words.
#[derive(Debug)]
pub struct HyperLogLogWithMulteplicities {
    /// The packed registers.
    pub words: Vec<u64>,
    /// How many registers hold each value.
    pub multeplicities: Vec<u32>,
}

/// The register count grows by one for the value just added, and stays for the others.
proof fn lemma_count_push(registers: Seq<u8>, r: u8, v: u8)
    ensures
        count_of(registers.push(r), v) == count_of(registers, v) + if r == v {
            1nat
        } else {
            0nat
        },
{
    registers.lemma_filter_push(r, holds_value(v));
}

/// The number of registers holding a value never exceeds the number of registers.
proof fn lemma_count_bound(registers: Seq<u8>, v: u8)
    ensures
        count_of(registers, v) <= registers.len(),
    decreases registers.len(),
{
    if registers.len() > 0 {
        lemma_count_bound(registers.drop_last(), v);
        assert(registers.drop_last().push(registers.last()) =~= registers);
        lemma_count_push(registers.drop_last(), registers.last(), v);
    }
}

/// The registers after a value with hash `hash` is added: the register the hash selects takes
/// the value the hash yields where that is larger.
pub open spec fn registers_after_insert(p: u8, b: u8, registers: Seq<u8>, hash: u64) -> Seq<u8> {
    let index = hash_index(p, hash) as int;
    let register = hash_register(p, b, hash);
    if register > registers[index] as u32 {
        registers.update(index, register as u8)
    } else {
        registers
    }
}

/// Adding a hash a second time changes nothing.
pub proof fn lemma_insert_idempotent(p: u8, b: u8, registers: Seq<u8>, hash: u64)
    requires
        4 <= p <= 18,
        4 <= b <= 6,
        (hash_index(p, hash) as int) < registers.len(),
    ensures
        registers_after_insert(p, b, registers_after_insert(p, b, registers, hash), hash)
            == registers_after_insert(p, b, registers, hash),
{
    crate::hyperloglog::lemma_hash_register_range(p, b, hash);
}

/// The order in which two hashes are added does not matter.
pub proof fn lemma_insert_commutes(p: u8, b: u8, registers: Seq<u8>, first: u64, second: u64)
    requires
        4 <= p <= 18,
        4 <= b <= 6,
        (hash_index(p, first) as int) < registers.len(),
        (hash_index(p, second) as int) < registers.len(),
    ensures
        registers_after_insert(p, b, registers_after_insert(p, b, registers, first), second)
            == registers_after_insert(p, b, registers_after_insert(p, b, registers, second), first),
{
    crate::hyperloglog::lemma_hash_register_range(p, b, first);
    crate::hyperloglog::lemma_hash_register_range(p, b, second);
    let one = registers_after_insert(p, b, registers_after_insert(p, b, registers, first), second);
    let two = registers_after_insert(p, b, registers_after_insert(p, b, registers, second), first);
    assert(one =~= two);
}

/// Changing one register moves one count from its old value to its new value.
proof fn lemma_count_update(registers: Seq<u8>, i: int, r: u8, v: u8)
    requires
        0 <= i < registers.len(),
    ensures
        count_of(registers.update(i, r), v) + (if registers[i] == v {
            1nat
        } else {
            0nat
        }) == count_of(registers, v) + (if r == v {
            1nat
        } else {
            0nat
        }),
    decreases registers.len(),
{
    let last = registers.len() - 1;
    let rest = registers.drop_last();
    assert(registers =~= rest.push(registers[last]));
    if i == last {
        assert(registers.update(i, r) =~= rest.push(r));
        lemma_count_push(rest, r, v);
        lemma_count_push(rest, registers[last], v);
    } else {
        lemma_count_update(rest, i, r, v);
        assert(registers.update(i, r) =~= rest.update(i, r).push(registers[last]));
        lemma_count_push(rest.update(i, r), registers[last], v);
        lemma_count_push(rest, registers[last], v);
    }
}

/// How many of the first `n` register pairs of `left` and `right` satisfy `f`.
pub open spec fn pair_count(left: Seq<u8>, right: Seq<u8>, n: nat, f: spec_fn(u8, u8) -> bool) -> nat
    decreases n,
{
    if n == 0 {
        0
    } else {
        pair_count(left, right, (n - 1) as nat, f) + if f(left[n - 1], right[n - 1]) {
            1nat
        } else {
            0nat
        }
    }
}

/// The left register is `v` and smaller than the right one.
pub open spec fn left_smaller_at(v: u8) -> spec_fn(u8, u8) -> bool {
    |l: u8, r: u8| l < r && l == v
}

/// The left register is `v` and larger than the right one.
pub open spec fn left_larger_at(v: u8) -> spec_fn(u8, u8) -> bool {
    |l: u8, r: u8| l > r && l == v
}

/// The right register is `v` and smaller than the left one.
pub open spec fn right_smaller_at(v: u8) -> spec_fn(u8, u8) -> bool {
    |l: u8, r: u8| l > r && r == v
}

/// The right register is `v` and larger than the left one.
pub open spec fn right_larger_at(v: u8) -> spec_fn(u8, u8) -> bool {
    |l: u8, r: u8| l < r && r == v
}

/// Both registers are `v`.
pub open spec fn joint_at(v: u8) -> spec_fn(u8, u8) -> bool {
    |l: u8, r: u8| l == r && l == v
}

/// The larger of the two registers is `v`: the register of the union is `v`.
pub open spec fn union_at(v: u8) -> spec_fn(u8, u8) -> bool {
    |l: u8, r: u8| (if l >= r { l } else { r }) == v
}

/// `tally` has an entry for each value up to `mask`, and entry `v` counts the register pairs
/// that `at(v)` picks.
pub open spec fn is_pair_tally(
    tally: Seq<u32>,
    left: Seq<u8>,
    right: Seq<u8>,
    n: nat,
    mask: nat,
    at: spec_fn(u8) -> spec_fn(u8, u8) -> bool,
) -> bool {
    &&& tally.len() == mask + 1
    &&& forall|v: int| 0 <= v <= mask ==> #[trigger] tally[v] == pair_count(left, right, n, at(v as u8))
}

/// For two counters with registers side by side, how many registers hold each value where
/// one is larger, smaller or equal to the other, and in the union of the two.
#[derive(Debug)]
pub struct JointMultiplicities {
    /// Entry `v`: the pairs whose left register is `v` and the larger.
    pub left_larger: Vec<u32>,
    /// Entry `v`: the pairs whose left register is `v` and the smaller.
    pub left_smaller: Vec<u32>,
    /// Entry `v`: the pairs whose right register is `v` and the larger.
    pub right_larger: Vec<u32>,
    /// Entry `v`: the pairs whose right register is `v` and the smaller.
    pub right_smaller: Vec<u32>,
    /// Entry `v`: the pairs whose registers are both `v`.
    pub joint: Vec<u32>,
    /// Entry `v`: the pairs whose larger register is `v`, the multiplicities of the union.
    pub union: Vec<u32>,
}

/// No more pairs are counted than there are.
proof fn lemma_pair_count_bound(left: Seq<u8>, right: Seq<u8>, n: nat, f: spec_fn(u8, u8) -> bool)
    ensures
        pair_count(left, right, n, f) <= n,
    decreases n,
{
    if n > 0 {
        lemma_pair_count_bound(left, right, (n - 1) as nat, f);
    }
}

/// The register of the union is the larger of the two, or both where they are equal.
proof fn lemma_union_count(left: Seq<u8>, right: Seq<u8>, n: nat, v: u8)
    ensures
        pair_count(left, right, n, union_at(v)) == pair_count(left, right, n, left_larger_at(v))
            + pair_count(left, right, n, right_larger_at(v)) + pair_count(left, right, n, joint_at(v)),
    decreases n,
{
    if n > 0 {
        lemma_union_count(left, right, (n - 1) as nat, v);
    }
}

/// A vector of `len` zeros.
fn zeros(len: usize) -> (z: Vec<u32>)
    ensures
        z@ == Seq::new(len as nat, |i: int| 0u32),
{
    let mut z: Vec<u32> = Vec::new();
    let mut i: usize = 0;
    while i < len
        invariant
            i <= len,
            z@ == Seq::new(i as nat, |k: int| 0u32),
        decreases len - i,
    {
        z.push(0);
        i += 1;
        proof {
            assert(z@ =~= Seq::new(i as nat, |k: int| 0u32));
        }
    }
    z
}

impl<P: Precision, B: Bits> HLLMultiplicities<P, B> {
    /// The register values.
    pub closed spec fn registers(self) -> Seq<u8> {
        self.registers@
    }

    /// How many registers hold each value.
    pub closed spec fn counts(self) -> Seq<u32> {
        self.multiplicities@
    }

    /// The counter has `2^P` registers of `B` bits, and the counts match them.
    pub closed spec fn wf(self) -> bool {
        &&& self.registers@.len() == pow2(P::spec_exponent() as nat)
        &&& forall|i: int| 0 <= i < self.registers@.len() ==> #[trigger] self.registers@[i] <= register_mask(B::spec_number_of_bits())
        &&& are_multiplicities(self.multiplicities@, self.registers@, register_mask(B::spec_number_of_bits()) as nat)
    }

    /// Builds the counter from its register values, counting how many registers hold each
    /// value.
    pub fn from_registers(registers: Vec<u8>) -> (counter: Self)
        requires
            registers@.len() == pow2(P::spec_exponent() as nat),
            forall|i: int| 0 <= i < registers@.len() ==> #[trigger] registers@[i] <= register_mask(B::spec_number_of_bits()),
        ensures
            counter.wf(),
            counter.registers() == registers@,
    {
        proof {
            P::lemma_exponent_range();
            vstd::arithmetic::power2::lemma2_to64();
            vstd::arithmetic::power2::lemma_pow2_strictly_increases(P::spec_exponent() as nat, 19);
        }
        let mask = mask_of::<B>() as usize;
        let mut multiplicities: Vec<u32> = Vec::new();
        let mut v: usize = 0;
        while v <= mask
            invariant
                v <= mask + 1,
                mask == register_mask(B::spec_number_of_bits()),
                mask <= 63,
                multiplicities@.len() == v,
                forall|k: int| 0 <= k < v ==> #[trigger] multiplicities@[k] == 0,
            decreases mask + 1 - v,
        {
            multiplicities.push(0);
            v += 1;
        }
        let ghost empty = registers@.take(0);
        proof {
            assert forall|k: int| 0 <= k <= mask implies #[trigger] multiplicities@[k] == count_of(empty, k as u8) by {
                assert(empty =~= Seq::<u8>::empty());
            }
        }
        let mut i: usize = 0;
        while i < registers.len()
            invariant
                i <= registers@.len(),
                registers@.len() < 524288,
                mask == register_mask(B::spec_number_of_bits()),
                mask <= 63,
                forall|k: int| 0 <= k < registers@.len() ==> #[trigger] registers@[k] <= mask,
                multiplicities@.len() == mask + 1,
                forall|k: int| 0 <= k <= mask ==> #[trigger] multiplicities@[k] == count_of(registers@.take(i as int), k as u8),
            decreases registers@.len() - i,
        {
            let register = registers[i] as usize;
            proof {
                assert(registers@.take(i + 1) =~= registers@.take(i as int).push(registers@[i as int]));
                assert forall|k: int| 0 <= k <= mask implies #[trigger] count_of(registers@.take(i + 1), k as u8) == count_of(registers@.take(i as int), k as u8) + if registers@[i as int] == k as u8 {
                    1nat
                } else {
                    0nat
                } by {
                    lemma_count_push(registers@.take(i as int), registers@[i as int], k as u8);
                }
                lemma_count_bound(registers@.take(i as int), register as u8);
            }
            multiplicities[register] = multiplicities[register] + 1;
            i += 1;
        }
        proof {
            assert(registers@.take(i as int) =~= registers@);
        }
        Self {
            registers,
            multiplicities,
            _precision: core::marker::PhantomData,
            _bits: core::marker::PhantomData,
        }
    }

    /// A counter with every register at zero.
    pub fn new() -> (counter: Self)
        ensures
            counter.wf(),
            counter.registers() == Seq::new(pow2(P::spec_exponent() as nat), |i: int| 0u8),
    {
        proof {
            P::lemma_exponent_range();
            vstd::arithmetic::power2::lemma2_to64();
            vstd::arithmetic::power2::lemma_pow2_strictly_increases(P::spec_exponent() as nat, 19);
            vstd::bits::lemma_u64_shl_is_mul(1, P::spec_exponent() as u64);
        }
        let number_of_registers = (1u64 << (P::exponent() as u64)) as usize;
        let mut registers: Vec<u8> = Vec::new();
        let mut i: usize = 0;
        while i < number_of_registers
            invariant
                i <= number_of_registers,
                registers@.len() == i,
                forall|k: int| 0 <= k < i ==> #[trigger] registers@[k] == 0,
            decreases number_of_registers - i,
        {
            registers.push(0);
            i += 1;
        }
        proof {
            assert(registers@ =~= Seq::new(pow2(P::spec_exponent() as nat), |i: int| 0u8));
        }
        Self::from_registers(registers)
    }

    /// Adds a value: the register its hash selects takes the value the hash yields where that
    /// is larger, and the counts follow. Returns whether the counter changed.
    pub fn insert(&mut self, value: u64) -> (changed: bool)
        requires
            old(self).wf(),
        ensures
            final(self).wf(),
            exists|hash: u64|
                #![trigger is_value_hash(value, hash)]
                is_value_hash(value, hash) && changed == (hash_register(
                    P::spec_exponent(),
                    B::spec_number_of_bits(),
                    hash,
                ) > old(self).registers()[hash_index(P::spec_exponent(), hash) as int] as u32)
                    && final(self).registers() == registers_after_insert(
                    P::spec_exponent(),
                    B::spec_number_of_bits(),
                    old(self).registers(),
                    hash,
                ),
    {
        let (_index, _register, hash) = index_and_register_and_hash::<P, B>(value);
        self.insert_hash(hash)
    }

    /// Adds a value by its hash `hash`: the register the hash selects takes the value the hash
    /// yields where that is larger, and the counts follow. Returns whether the counter changed.
    pub fn insert_hash(&mut self, hash: u64) -> (changed: bool)
        requires
            old(self).wf(),
        ensures
            final(self).wf(),
            ({
                let index = hash_index(P::spec_exponent(), hash) as int;
                let register = hash_register(P::spec_exponent(), B::spec_number_of_bits(), hash);
                &&& changed == (register > old(self).registers()[index] as u32)
                &&& final(self).registers() == if changed {
                    old(self).registers().update(index, register as u8)
                } else {
                    old(self).registers()
                }
            }),
            final(self).registers() == registers_after_insert(
                P::spec_exponent(),
                B::spec_number_of_bits(),
                old(self).registers(),
                hash,
            ),
    {
        let (index, register, _hash) = split_hash::<P, B>(hash);
        let previous = self.registers[index];
        if register <= previous {
            return false;
        }
        let ghost before = self.registers@;
        let ghost mask = register_mask(B::spec_number_of_bits()) as nat;
        proof {
            P::lemma_exponent_range();
            vstd::arithmetic::power2::lemma2_to64();
            vstd::arithmetic::power2::lemma_pow2_strictly_increases(P::spec_exponent() as nat, 19);
            lemma_count_update(before, index as int, register, previous);
            lemma_count_update(before, index as int, register, register);
            lemma_count_bound(before.update(index as int, register), register);
            assert(self.multiplicities@[previous as int] == count_of(before, previous));
            assert(self.multiplicities@[register as int] == count_of(before, register));
        }
        self.registers.set(index, register);
        self.multiplicities.set(previous as usize, self.multiplicities[previous as usize] - 1);
        self.multiplicities.set(register as usize, self.multiplicities[register as usize] + 1);
        proof {
            let after = self.registers@;
            assert(after == before.update(index as int, register));
            assert forall|i: int| 0 <= i < after.len() implies #[trigger] after[i] <= mask by {
                if i != index {
                    assert(after[i] == before[i]);
                }
            }
            assert forall|v: int| 0 <= v <= mask implies #[trigger] self.multiplicities@[v] == count_of(after, v as u8) by {
                lemma_count_update(before, index as int, register, v as u8);
            }
        }
        true
    }

    /// Counts, for each register value, the registers of this counter and of `other` side by
    /// side: where the left one is the larger or the smaller, where the right one is, where both
    /// are equal, and in the union of the two counters.
    pub fn joint_multiplicities(&self, other: &Self) -> (joint: JointMultiplicities)
        requires
            self.wf(),
            other.wf(),
        ensures
            ({
                let l = self.registers();
                let r = other.registers();
                let n = l.len();
                let mask = register_mask(B::spec_number_of_bits()) as nat;
                &&& is_pair_tally(joint.left_larger@, l, r, n, mask, |v: u8| left_larger_at(v))
                &&& is_pair_tally(joint.left_smaller@, l, r, n, mask, |v: u8| left_smaller_at(v))
                &&& is_pair_tally(joint.right_larger@, l, r, n, mask, |v: u8| right_larger_at(v))
                &&& is_pair_tally(joint.right_smaller@, l, r, n, mask, |v: u8| right_smaller_at(v))
                &&& is_pair_tally(joint.joint@, l, r, n, mask, |v: u8| joint_at(v))
                &&& is_pair_tally(joint.union@, l, r, n, mask, |v: u8| union_at(v))
            }),
    {
        proof {
            P::lemma_exponent_range();
            vstd::arithmetic::power2::lemma2_to64();
            vstd::arithmetic::power2::lemma_pow2_strictly_increases(P::spec_exponent() as nat, 19);
        }
        let ghost left = self.registers@;
        let ghost right = other.registers@;
        let ghost mask = register_mask(B::spec_number_of_bits()) as nat;
        let size = mask_of::<B>() as usize + 1;
        let mut left_larger = zeros(size);
        let mut left_smaller = zeros(size);
        let mut right_larger = zeros(size);
        let mut right_smaller = zeros(size);
        let mut joint = zeros(size);
        let n = self.registers.len();
        let mut k: usize = 0;
        while k < n
            invariant
                k <= n,
                n == left.len(),
                n == right.len(),
                n <= 262144,
                size == mask + 1,
                mask <= 63,
                left == self.registers@,
                right == other.registers@,
                forall|i: int| 0 <= i < n ==> #[trigger] left[i] <= mask,
                forall|i: int| 0 <= i < n ==> #[trigger] right[i] <= mask,
                is_pair_tally(left_larger@, left, right, k as nat, mask, |v: u8| left_larger_at(v)),
                is_pair_tally(left_smaller@, left, right, k as nat, mask, |v: u8| left_smaller_at(v)),
                is_pair_tally(right_larger@, left, right, k as nat, mask, |v: u8| right_larger_at(v)),
                is_pair_tally(right_smaller@, left, right, k as nat, mask, |v: u8| right_smaller_at(v)),
                is_pair_tally(joint@, left, right, k as nat, mask, |v: u8| joint_at(v)),
            decreases n - k,
        {
            let l = self.registers[k];
            let r = other.registers[k];
            let ghost before = (left_larger@, left_smaller@, right_larger@, right_smaller@, joint@);
            proof {
                lemma_pair_count_bound(left, right, k as nat, left_larger_at(l));
                lemma_pair_count_bound(left, right, k as nat, left_smaller_at(l));
                lemma_pair_count_bound(left, right, k as nat, right_larger_at(r));
                lemma_pair_count_bound(left, right, k as nat, right_smaller_at(r));
                lemma_pair_count_bound(left, right, k as nat, joint_at(l));
                assert(left_larger@[l as int] == pair_count(left, right, k as nat, left_larger_at(l)));
                assert(left_smaller@[l as int] == pair_count(left, right, k as nat, left_smaller_at(l)));
                assert(right_larger@[r as int] == pair_count(left, right, k as nat, right_larger_at(r)));
                assert(right_smaller@[r as int] == pair_count(left, right, k as nat, right_smaller_at(r)));
                assert(joint@[l as int] == pair_count(left, right, k as nat, joint_at(l)));
            }
            if l < r {
                left_smaller.set(l as usize, left_smaller[l as usize] + 1);
                right_larger.set(r as usize, right_larger[r as usize] + 1);
            } else if l > r {
                left_larger.set(l as usize, left_larger[l as usize] + 1);
                right_smaller.set(r as usize, right_smaller[r as usize] + 1);
            } else {
                joint.set(l as usize, joint[l as usize] + 1);
            }
            k += 1;
            proof {
                assert forall|v: int| 0 <= v <= mask implies #[trigger] left_larger@[v] == pair_count(left, right, k as nat, left_larger_at(v as u8)) by {
                    assert(before.0[v] == pair_count(left, right, (k - 1) as nat, left_larger_at(v as u8)));
                }
                assert forall|v: int| 0 <= v <= mask implies #[trigger] left_smaller@[v] == pair_count(left, right, k as nat, left_smaller_at(v as u8)) by {
                    assert(before.1[v] == pair_count(left, right, (k - 1) as nat, left_smaller_at(v as u8)));
                }
                assert forall|v: int| 0 <= v <= mask implies #[trigger] right_larger@[v] == pair_count(left, right, k as nat, right_larger_at(v as u8)) by {
                    assert(before.2[v] == pair_count(left, right, (k - 1) as nat, right_larger_at(v as u8)));
                }
                assert forall|v: int| 0 <= v <= mask implies #[trigger] right_smaller@[v] == pair_count(left, right, k as nat, right_smaller_at(v as u8)) by {
                    assert(before.3[v] == pair_count(left, right, (k - 1) as nat, right_smaller_at(v as u8)));
                }
                assert forall|v: int| 0 <= v <= mask implies #[trigger] joint@[v] == pair_count(left, right, k as nat, joint_at(v as u8)) by {
                    assert(before.4[v] == pair_count(left, right, (k - 1) as nat, joint_at(v as u8)));
                }
            }
        }
        let mut union: Vec<u32> = Vec::new();
        let mut v: usize = 0;
        while v < size
            invariant
                v <= size,
                size == mask + 1,
                n == left.len(),
                n <= 262144,
                is_pair_tally(left_larger@, left, right, n as nat, mask, |v: u8| left_larger_at(v)),
                is_pair_tally(right_larger@, left, right, n as nat, mask, |v: u8| right_larger_at(v)),
                is_pair_tally(joint@, left, right, n as nat, mask, |v: u8| joint_at(v)),
                union@.len() == v,
                forall|w: int| 0 <= w < v ==> #[trigger] union@[w] == pair_count(left, right, n as nat, union_at(w as u8)),
            decreases size - v,
        {
            proof {
                lemma_union_count(left, right, n as nat, v as u8);
                lemma_pair_count_bound(left, right, n as nat, union_at(v as u8));
                assert(left_larger@[v as int] == pair_count(left, right, n as nat, left_larger_at(v as u8)));
                assert(right_larger@[v as int] == pair_count(left, right, n as nat, right_larger_at(v as u8)));
                assert(joint@[v as int] == pair_count(left, right, n as nat, joint_at(v as u8)));
            }
            union.push(left_larger[v] + right_larger[v] + joint[v]);
            v += 1;
        }
        JointMultiplicities { left_larger, left_smaller, right_larger, right_smaller, joint, union }
    }

    /// How many registers hold each value.
    pub fn multiplicities(&self) -> (counts: &Vec<u32>)
        ensures
            counts@ == self.counts(),
    {
        &self.multiplicities
    }

    /// The value of register `index`.
    pub fn get_register(&self, index: usize) -> (register: u8)
        requires
            index < self.registers().len(),
        ensures
            register == self.registers()[index as int],
    {
        self.registers[index]
    }

    /// The number of registers at zero.
    pub fn get_number_of_zero_registers(&self) -> (zeros: u32)
        requires
            self.wf(),
        ensures
            zeros == count_of(self.registers(), 0),
    {
        self.multiplicities[0]
    }
}

} // verus!
