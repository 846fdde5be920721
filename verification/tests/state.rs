//! Session state.
use steplock::state::{init_state, SessionState};

#[test]
fn state_init_state_sets_fields() {
    let s = init_state("my-checklist", "first_step");
    assert_eq!(s.checklist, "my-checklist");
    assert_eq!(s.current_state, "first_step");
    assert!(s.next_state.is_none());
    assert!(s.transitions.is_empty());
    assert!(s.visited.is_empty());
}

#[test]
fn state_is_complete_false_when_active() {
    let s = init_state("cl", "step_one");
    assert!(!s.is_complete());
}

#[test]
fn state_is_complete_true_at_end() {
    let s = SessionState {
        checklist: "cl".to_owned(),
        current_state: "[*]".to_owned(),
        next_state: None,
        transitions: vec![],
        visited: vec!["step_one".to_owned()],
    };
    assert!(s.is_complete());
}

#[test]
fn state_tests_init_state_sets_fields() {
    let s = init_state("my-checklist", "first_step");
    assert_eq!(s.checklist, "my-checklist");
    assert_eq!(s.current_state, "first_step");
    assert!(s.next_state.is_none());
    assert!(s.transitions.is_empty());
    assert!(s.visited.is_empty());
}

#[test]
fn state_tests_is_complete_false_when_active() {
    let s = init_state("cl", "step_one");
    assert!(!s.is_complete());
}

#[test]
fn state_tests_is_complete_true_at_end() {
    let s = SessionState {
        checklist: "cl".to_owned(),
        current_state: "[*]".to_owned(),
        next_state: None,
        transitions: vec![],
        visited: vec!["step_one".to_owned()],
    };
    assert!(s.is_complete());
}
