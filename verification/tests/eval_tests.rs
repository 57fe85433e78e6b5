//! Tests for candidate evaluation: induced bytes, collision detection,
//! and the maximum-byte report.
use evm_dispatch::arith::u32_to_256;
use evm_dispatch::eval::{selector_byte, check_magic_numbers, evaluate, EvaluationResult};

#[test]
fn selector_byte_identity_multiplier() {
    // q == 1: the induced byte at shift 0 is the selector's low byte,
    // at shift 8 the next byte up.
    let q = u32_to_256(1);
    assert_eq!(selector_byte(0x0105, &q, 0), 0x05);
    assert_eq!(selector_byte(0x0105, &q, 8), 0x01);
    assert_eq!(selector_byte(0xaabbccdd, &q, 24), 0xaa);
    assert_eq!(selector_byte(0xaabbccdd, &q, 32), 0x00);
}

#[test]
fn zero_multiplier_collides_for_two_selectors() {
    // Every selector maps to byte 0 under an all-zero multiplier, for
    // every shift: always a collision when there are at least two.
    let q = vec![0u8; 32];
    let sels = vec![0x11111111u32, 0x22222222u32];
    let mut shift = 0u32;
    while shift <= 248 {
        assert_eq!(selector_byte(0x11111111, &q, shift), 0);
        assert_eq!(selector_byte(0x22222222, &q, shift), 0);
        assert!(!check_magic_numbers(&q, shift, &sels));
        assert_eq!(evaluate(&q, shift, &sels), EvaluationResult::Collision);
        shift += 8;
    }
}

#[test]
fn zero_multiplier_single_selector_is_unique() {
    let q = vec![0u8; 32];
    let sels = vec![0x11111111u32];
    assert!(check_magic_numbers(&q, 0, &sels));
    assert_eq!(evaluate(&q, 0, &sels), EvaluationResult::Unique(0));
}

#[test]
fn distinct_low_bytes_are_unique() {
    let q = u32_to_256(1);
    let sels = vec![1u32, 2u32, 3u32];
    assert!(check_magic_numbers(&q, 0, &sels));
    assert_eq!(evaluate(&q, 0, &sels), EvaluationResult::Unique(3));
}

#[test]
fn max_byte_is_the_largest_induced_byte() {
    let q = u32_to_256(1);
    let sels = vec![1u32, 0x80u32, 3u32];
    assert_eq!(evaluate(&q, 0, &sels), EvaluationResult::Unique(0x80));
}

#[test]
fn duplicate_selectors_always_collide() {
    let q = u32_to_256(1);
    let sels = vec![5u32, 5u32];
    assert!(!check_magic_numbers(&q, 0, &sels));
    assert_eq!(evaluate(&q, 0, &sels), EvaluationResult::Collision);
}

#[test]
fn same_low_byte_collides_at_shift_zero_not_at_eight() {
    // 0x0101 and 0x0201 share the low byte but differ one byte up.
    let q = u32_to_256(1);
    let sels = vec![0x0101u32, 0x0201u32];
    assert!(!check_magic_numbers(&q, 0, &sels));
    assert!(check_magic_numbers(&q, 8, &sels));
    assert_eq!(evaluate(&q, 8, &sels), EvaluationResult::Unique(2));
}

#[test]
fn empty_selector_set_is_trivially_unique() {
    let q = u32_to_256(1);
    let sels: Vec<u32> = Vec::new();
    assert!(check_magic_numbers(&q, 0, &sels));
    assert_eq!(evaluate(&q, 0, &sels), EvaluationResult::Unique(0));
}
