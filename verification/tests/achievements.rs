//! Achievements: unlocking and the HUD line.

use tiny_games::achievements::{is_unlocked, progress_text, Achievement};

#[test]
fn is_unlocked_at_exact_goal() {
    assert!(is_unlocked(10, 10));
}

#[test]
fn is_unlocked_above_goal() {
    assert!(is_unlocked(15, 10));
}

#[test]
fn is_not_unlocked_below_goal() {
    assert!(!is_unlocked(9, 10));
}

#[test]
fn progress_text_formats_correctly() {
    assert_eq!(progress_text("Scorer", 3, 10), "Scorer \u{2014} 3 / 10");
}

#[test]
fn progress_text_clamps_display_at_goal() {
    assert_eq!(progress_text("Test", 25, 10), "Test \u{2014} 10 / 10");
}

#[test]
fn all_achievements_start_locked() {
    let ach = Achievement::new("Test", 5);
    assert!(!ach.unlocked);
    assert_eq!(ach.progress, 0);
}

// ── Further cases ────────────────────────────────────────────────────────────

#[test]
fn an_achievement_unlocks_once_and_stays_unlocked() {
    let mut ach = Achievement::new("Walker", 3);
    assert!(!ach.observe(2));
    assert_eq!(ach.progress, 2);
    assert!(ach.observe(3), "reaching the goal unlocks it");
    assert!(ach.unlocked);
    assert!(!ach.observe(9), "an unlock is announced once");
    assert!(!ach.observe(0));
    assert!(ach.unlocked);
    assert_eq!(ach.progress, 9, "progress keeps the best value seen");
}

#[test]
fn a_zero_goal_unlocks_at_once() {
    let mut ach = Achievement::new("Free", 0);
    assert!(ach.observe(0));
}
