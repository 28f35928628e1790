use beankey::{PageDirection, page_selection, valid_event_text};
use beankey::{KeyAction, KeySituation, key_action};

const BACKSPACE: u32 = 0xff08;
const RETURN: u32 = 0xff0d;
const ESCAPE: u32 = 0xff1b;
const UP: u32 = 0xff52;
const DOWN: u32 = 0xff54;
const SPACE: u32 = 0x20;

fn composing(candidates: usize, selected: usize) -> KeySituation {
    KeySituation {
        composing_empty: false,
        candidate_count: candidates,
        post_candidate_count: 0,
        selected_candidate: selected,
        text_valid: true,
    }
}

#[test]
fn editing_keys_act_only_on_composing_text() {
    assert_eq!(key_action(BACKSPACE, false, &composing(0, 0)), KeyAction::DeleteBackward);
    let idle = KeySituation { composing_empty: true, text_valid: false, ..composing(0, 0) };
    assert_eq!(key_action(BACKSPACE, false, &idle), KeyAction::Ignore);
    assert_eq!(key_action(BACKSPACE, true, &composing(0, 0)), KeyAction::Released);
}

#[test]
fn return_commits_the_selected_candidate_or_the_surface() {
    assert_eq!(key_action(RETURN, false, &composing(3, 1)), KeyAction::CommitCandidate(1));
    assert_eq!(key_action(RETURN, false, &composing(0, 0)), KeyAction::CommitSurface);
    assert_eq!(key_action(ESCAPE, false, &composing(3, 1)), KeyAction::Reset);
}

#[test]
fn space_and_arrows_cycle_through_candidates() {
    assert_eq!(key_action(SPACE, false, &composing(3, 2)), KeyAction::Highlight(0));
    assert_eq!(key_action(SPACE, false, &composing(0, 0)), KeyAction::Refresh);
    assert_eq!(key_action(UP, false, &composing(3, 0)), KeyAction::Highlight(2));
    assert_eq!(key_action(DOWN, false, &composing(3, 2)), KeyAction::Highlight(0));
    let predictions = KeySituation {
        composing_empty: true,
        candidate_count: 0,
        post_candidate_count: 2,
        selected_candidate: 1,
        text_valid: false,
    };
    assert_eq!(key_action(SPACE, false, &predictions), KeyAction::Highlight(0));
    assert_eq!(key_action(0x41, false, &predictions), KeyAction::DismissPredictions);
    assert_eq!(key_action(0x41, false, &composing(0, 0)), KeyAction::Insert);
}

#[test]
fn pages_candidates_within_range() {
    assert_eq!(page_selection(10, 3, 4, Some(PageDirection::Next)), Some(7));
    assert_eq!(page_selection(10, 8, 4, Some(PageDirection::Next)), Some(9));
    assert_eq!(page_selection(10, 3, 4, Some(PageDirection::Previous)), Some(0));
    assert_eq!(page_selection(0, 3, 4, Some(PageDirection::Next)), Some(3));
    assert_eq!(page_selection(10, 3, 0, Some(PageDirection::Next)), None);
    assert_eq!(page_selection(10, 3, 4, None), None);
    assert!(valid_event_text("a", "a", ""));
    assert!(!valid_event_text("", "a", ""));
    assert!(!valid_event_text("\u{8}", "", ""));
    assert!(!valid_event_text("a", "\u{7f}", ""));
    assert!(!valid_event_text("a", "", "\u{85}"));
}
