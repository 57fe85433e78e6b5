//! Tests for the magic-number search: budget accounting, best-so-far
//! improvement, and re-evaluation of reported solutions.
use evm_dispatch::eval::{check_magic_numbers, evaluate, EvaluationResult};
use evm_dispatch::search::{find_magic_numbers, contains_u32};

#[test]
fn zero_budget_returns_no_solution_immediately() {
    let sels = vec![0x11111111u32, 0x22222222u32];
    let outcome = find_magic_numbers(&sels, 0);
    assert_eq!(outcome.attempts, 0);
    assert!(outcome.solution.is_none());
    assert!(outcome.updates.is_empty());
}

#[test]
fn budget_is_consumed_exactly() {
    let sels = vec![0x11111111u32, 0x22222222u32];
    let outcome = find_magic_numbers(&sels, 100);
    assert_eq!(outcome.attempts, 100);
    let outcome2 = find_magic_numbers(&sels, 33);
    assert_eq!(outcome2.attempts, 33);
}

#[test]
fn single_selector_finds_a_solution_quickly() {
    let sels = vec![0xdeadbeefu32];
    let outcome = find_magic_numbers(&sels, 64);
    let sol = outcome.solution.expect("one selector is always collision-free");
    assert!(sol.shift <= 248 && sol.shift % 8 == 0);
    // max_byte is a u8, so it lies in 0..=255 by construction; it must
    // match a fresh evaluation of the candidate.
    assert_eq!(
        evaluate(&sol.q, sol.shift, &sels),
        EvaluationResult::Unique(sol.max_byte)
    );
}

#[test]
fn reported_solution_passes_its_own_check() {
    let sels = vec![0x11111111u32, 0x22222222u32, 0x33333333u32];
    let outcome = find_magic_numbers(&sels, 2000);
    let sol = outcome.solution.expect("a small set should be solved within this budget");
    assert!(check_magic_numbers(&sol.q, sol.shift, &sels));
    assert_eq!(
        evaluate(&sol.q, sol.shift, &sels),
        EvaluationResult::Unique(sol.max_byte)
    );
}

#[test]
fn improvements_strictly_decrease_and_end_at_the_solution() {
    let sels = vec![0x11111111u32, 0x22222222u32];
    let outcome = find_magic_numbers(&sels, 2000);
    let updates = &outcome.updates;
    for w in updates.windows(2) {
        assert!(w[1].max_byte < w[0].max_byte);
        assert!(w[0].attempt < w[1].attempt);
    }
    for u in updates.iter() {
        assert!(u.max_byte < 255);
        assert!(u.attempt < 2000);
    }
    match &outcome.solution {
        Some(sol) => {
            assert!(!updates.is_empty());
            assert_eq!(sol.max_byte, updates.last().unwrap().max_byte);
        }
        None => assert!(updates.is_empty()),
    }
}

#[test]
fn contains_u32_finds_members_only() {
    let v = vec![1u32, 7u32, 9u32];
    assert!(contains_u32(&v, 7));
    assert!(!contains_u32(&v, 8));
    let empty: Vec<u32> = Vec::new();
    assert!(!contains_u32(&empty, 0));
}
