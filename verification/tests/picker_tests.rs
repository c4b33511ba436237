//! Scenario tests for the key mapping, the cursor state machine and the
//! selection it hands on.

use pwpick::errors::PickerError;
use pwpick::picker::{classify_key, marker_for_row, move_down, move_up, selection_of, KeyAction, Picker, PickerStatus};

#[test]
fn key_mapping_matches_the_table() {
    assert_eq!(classify_key(113), KeyAction::Quit);
    assert_eq!(classify_key(259), KeyAction::MoveUp);
    assert_eq!(classify_key(107), KeyAction::MoveUp);
    assert_eq!(classify_key(258), KeyAction::MoveDown);
    assert_eq!(classify_key(106), KeyAction::MoveDown);
    assert_eq!(classify_key(343), KeyAction::Commit);
    assert_eq!(classify_key(10), KeyAction::Commit);
    assert_eq!(classify_key(13), KeyAction::Commit);
    assert_eq!(classify_key(120), KeyAction::Ignore);
    assert_eq!(classify_key(0), KeyAction::Ignore);
    assert_eq!(classify_key(-1), KeyAction::Ignore);
}

#[test]
fn cursor_wraps_both_ways() {
    assert_eq!(move_down(0, 5), 1);
    assert_eq!(move_down(4, 5), 0);
    assert_eq!(move_up(0, 5), 4);
    assert_eq!(move_up(4, 5), 3);
    assert_eq!(move_up(0, 1), 0);
    assert_eq!(move_down(0, 1), 0);
}

#[test]
fn cursor_follows_net_displacement() {
    // net displacement +3 - 1 = +2 over three rows: (0 + 2) mod 3 == 2
    let mut p = Picker::new(3).unwrap();
    p.handle_key(258);
    p.handle_key(258);
    p.handle_key(258);
    p.handle_key(107);
    assert_eq!(p.cursor, 2);
    assert_eq!(p.status, PickerStatus::Running);
}

#[test]
fn two_candidates_down_down_enter_commits_the_first() {
    // cursor visits 0 -> 1 -> 0 (wrap), then Enter commits candidates[0]
    let candidates = vec!["aB3xQ9".to_string(), "Zz1Ty8".to_string()];
    let mut p = Picker::new(candidates.len()).unwrap();
    assert_eq!(p.cursor, 0);
    p.handle_key(258);
    assert_eq!(p.cursor, 1);
    p.handle_key(258);
    assert_eq!(p.cursor, 0);
    p.handle_key(10);
    assert_eq!(p.status, PickerStatus::Committed);
    assert_eq!(p.cursor, 0);
    let chosen = selection_of(&candidates, &p);
    assert_eq!(chosen, Some("aB3xQ9".to_string()));
}

#[test]
fn quitting_selects_nothing() {
    let candidates = vec!["one".to_string(), "two".to_string(), "three".to_string()];
    let mut p = Picker::new(candidates.len()).unwrap();
    p.handle_key(258);
    p.handle_key(113);
    assert_eq!(p.status, PickerStatus::Cancelled);
    assert_eq!(selection_of(&candidates, &p), None);
}

#[test]
fn ignored_keys_change_nothing() {
    let mut p = Picker::new(2).unwrap();
    p.handle_key(120);
    p.handle_key(97);
    assert_eq!(p.cursor, 0);
    assert_eq!(p.status, PickerStatus::Running);
}

#[test]
fn empty_candidate_set_is_rejected() {
    assert!(matches!(Picker::new(0), Err(PickerError::EmptyCandidateSet)));
    assert!(Picker::new(1).is_ok());
}

#[test]
fn marker_is_arrow_only_under_the_cursor() {
    assert_eq!(marker_for_row(2, 2), "==>");
    assert_eq!(marker_for_row(0, 2), "   ");
    assert_eq!(marker_for_row(3, 2), "   ");
}
