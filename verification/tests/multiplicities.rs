use hyperloglog_rs::hyperloglog::index_and_register_and_hash;
use hyperloglog_rs::hyperloglog_multiplicities::HLLMultiplicities;
use hyperloglog_rs::precisions::{Bits4, Bits6, Precision4, Precision8};

fn counts_of(registers: &[u8], size: usize) -> Vec<u32> {
    let mut counts = vec![0u32; size];
    for &r in registers {
        counts[r as usize] += 1;
    }
    counts
}

#[test]
fn insert_raises_one_register_and_moves_its_count() {
    let mut counter = HLLMultiplicities::<Precision4, Bits6>::new();
    let (index, register, _) = index_and_register_and_hash::<Precision4, Bits6>(42);
    assert!(counter.insert(42));
    assert_eq!(counter.get_register(index), register);
    assert_eq!(counter.get_number_of_zero_registers(), 15);
    assert_eq!(counter.multiplicities()[register as usize], 1);
    // The same value again changes nothing.
    assert!(!counter.insert(42));
    assert_eq!(counter.get_number_of_zero_registers(), 15);
}

#[test]
fn insert_keeps_the_counts_of_the_registers() {
    let mut counter = HLLMultiplicities::<Precision8, Bits4>::new();
    let mut registers = vec![0u8; 256];
    for value in 0..2000u64 {
        let (index, register, _) = index_and_register_and_hash::<Precision8, Bits4>(value);
        let changed = register > registers[index];
        if changed {
            registers[index] = register;
        }
        assert_eq!(counter.insert(value), changed);
    }
    for (index, &register) in registers.iter().enumerate() {
        assert_eq!(counter.get_register(index), register);
    }
    assert_eq!(counter.multiplicities(), &counts_of(&registers, 16));
}

#[test]
fn joint_multiplicities_split_the_register_pairs() {
    let mut left = vec![0u8; 16];
    let mut right = vec![0u8; 16];
    left[0] = 3;
    right[0] = 1;
    left[1] = 2;
    right[1] = 5;
    left[2] = 4;
    right[2] = 4;
    left[3] = 0;
    right[3] = 6;
    let a = HLLMultiplicities::<Precision4, Bits6>::from_registers(left);
    let b = HLLMultiplicities::<Precision4, Bits6>::from_registers(right);
    let joint = a.joint_multiplicities(&b);
    assert_eq!(joint.left_larger.len(), 64);
    assert_eq!(joint.left_larger[3], 1);
    assert_eq!(joint.right_smaller[1], 1);
    assert_eq!(joint.left_smaller[2], 1);
    assert_eq!(joint.left_smaller[0], 1);
    assert_eq!(joint.right_larger[5], 1);
    assert_eq!(joint.right_larger[6], 1);
    assert_eq!(joint.joint[4], 1);
    assert_eq!(joint.joint[0], 12);
    let mut union = vec![0u32; 64];
    union[0] = 12;
    union[3] = 1;
    union[4] = 1;
    union[5] = 1;
    union[6] = 1;
    assert_eq!(joint.union, union);
    assert_eq!(joint.left_larger.iter().sum::<u32>(), 1);
    assert_eq!(joint.left_smaller.iter().sum::<u32>(), 2);
    assert_eq!(joint.joint.iter().sum::<u32>(), 13);
}

#[test]
fn insertion_order_and_repetition_do_not_matter() {
    let mut forward = HLLMultiplicities::<Precision8, Bits6>::new();
    let mut backward = HLLMultiplicities::<Precision8, Bits6>::new();
    let values: Vec<u64> = (0..300u64).map(|v| v * 7919 + 13).collect();
    for &value in &values {
        forward.insert(value);
    }
    for &value in values.iter().rev() {
        backward.insert(value);
        backward.insert(value);
    }
    for index in 0..256 {
        assert_eq!(forward.get_register(index), backward.get_register(index));
    }
    assert_eq!(forward.multiplicities(), backward.multiplicities());
}

#[test]
fn insert_hash_sets_the_register_the_hash_selects() {
    let mut counter = HLLMultiplicities::<Precision4, Bits6>::new();
    assert!(counter.insert_hash(0x3));
    assert_eq!(counter.get_register(3), 60);
    assert_eq!(counter.multiplicities()[60], 1);
    assert!(!counter.insert_hash(0x8000_0000_0000_0003));
    assert!(!counter.insert_hash(0x13));
    assert_eq!(counter.get_register(3), 60);
    assert_eq!(counter.get_number_of_zero_registers(), 15);
}
