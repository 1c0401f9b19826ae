//! Combo detection over a bounded input buffer.

use std::collections::VecDeque;
use tiny_games::combo::{matches_sequence, trim_to_max};

#[test]
fn exact_match_returns_true() {
    let buf = vec![1u8, 2, 3];
    assert!(matches_sequence(&buf, &[1, 2, 3]));
}

#[test]
fn tail_match_returns_true() {
    let buf = vec![9u8, 9, 1, 2, 3];
    assert!(matches_sequence(&buf, &[1, 2, 3]));
}

#[test]
fn wrong_order_returns_false() {
    let buf = vec![1u8, 3, 2];
    assert!(!matches_sequence(&buf, &[1, 2, 3]));
}

#[test]
fn buffer_shorter_than_pattern_returns_false() {
    let buf = vec![2u8, 3];
    assert!(!matches_sequence(&buf, &[1, 2, 3]));
}

#[test]
fn empty_pattern_always_matches() {
    let buf = vec![1u8, 2, 3];
    assert!(matches_sequence(&buf, &[]));
    assert!(matches_sequence::<u8>(&[], &[]));
}

#[test]
fn trim_to_max_removes_from_front() {
    let mut v: VecDeque<u8> = VecDeque::from([1, 2, 3, 4, 5]);
    trim_to_max(&mut v, 3);
    assert_eq!(v, VecDeque::from([3, 4, 5]));
}

// ── Further cases ────────────────────────────────────────────────────────────

#[test]
fn a_short_buffer_is_left_alone() {
    let mut v: VecDeque<u8> = VecDeque::from([1, 2]);
    trim_to_max(&mut v, 3);
    assert_eq!(v, VecDeque::from([1, 2]));
    trim_to_max(&mut v, 0);
    assert!(v.is_empty());
}

#[test]
fn a_match_in_the_middle_is_not_a_match() {
    let buf = vec!['u', 'r', 'd', 'l', 'u'];
    assert!(!matches_sequence(&buf, &['u', 'r', 'd', 'l']));
    assert!(matches_sequence(&buf, &['l', 'u']));
}
