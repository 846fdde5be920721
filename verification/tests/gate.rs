//! The checklist gate: block messages and session steps.
use steplock::flow::{parse_mmd, FlowGraph};
use steplock::gate::{
    acknowledge, always_block, build_block_message, initial_state_of, session_step, SessionScripts,
    SessionStep,
};
use steplock::state::{init_state, SessionState};

const QUALITY_MMD: &str = r"stateDiagram-v2
    [*] --> clean_code
    clean_code --> [*]
    clean_code: Did you write clean code?
";

const PROGRESS_MMD: &str = "stateDiagram-v2\n    [*] --> a\n    a --> b\n    b --> c\n    c --> [*]\n    a: Step A\n    b: Step B\n    c: Step C\n";

const BRANCH_MMD: &str = r"stateDiagram-v2
    [*] --> check
    check --> pass
    check --> skip
    pass --> [*]
    skip --> [*]
    check: Did you check?
    pass: Yes, it passed
    skip: No, skipped because
";

const TWO_STEP_MMD: &str = "stateDiagram-v2\n    [*] --> step_one\n    step_one --> step_two\n    step_two --> [*]\n    step_one : Did you do step one?\n    step_two : Did you do step two?\n";

fn flow(mmd: &str) -> FlowGraph {
    parse_mmd("flow.mmd", mmd).unwrap()
}

fn scripts(preview: bool) -> SessionScripts {
    SessionScripts {
        ack_path: "/repo/.steplock/sessions/sess-1/quality-gate/ack.sh".to_owned(),
        preview_path: "/repo/.steplock/sessions/sess-1/quality-gate/preview.sh".to_owned(),
        preview_exists: preview,
    }
}

/// The state stored when a fresh session of `name` blocks on `flow`.
fn first_block(name: &str, flow: &FlowGraph) -> SessionState {
    let start = initial_state_of(flow, "flow.mmd").unwrap();
    match session_step(init_state(name, &start), name, &start, flow) {
        SessionStep::Block { state } => state,
        other => panic!("expected block, got {other:?}"),
    }
}

fn acked(state: SessionState, to: &str) -> SessionState {
    let r = acknowledge(state, Some(to));
    assert_eq!(r.current_state, to);
    r
}

#[test]
fn block_message_contains_label() {
    let f = flow(QUALITY_MMD);
    let s = first_block("quality-gate", &f);
    let message = build_block_message(&s, &f, Some(&scripts(false)));
    assert!(message.contains("Did you write clean code?"));
}

#[test]
fn block_message_contains_checklist_name() {
    let f = flow(QUALITY_MMD);
    let s = first_block("quality-gate", &f);
    let message = build_block_message(&s, &f, Some(&scripts(false)));
    assert!(message.starts_with("[quality-gate:"), "got: {message}");
}

#[test]
fn block_message_contains_ack_sh_path() {
    let f = flow(QUALITY_MMD);
    let s = first_block("quality-gate", &f);
    let message = build_block_message(&s, &f, Some(&scripts(false)));
    assert!(message.contains("ack.sh"));
}

#[test]
fn block_message_shows_step_progress() {
    let f = flow(PROGRESS_MMD);
    let s = first_block("progress-gate", &f);
    let message = build_block_message(&s, &f, Some(&scripts(false)));
    assert!(message.contains("1/3"), "got: {message}");

    let mut s2 = acked(s, "b");
    s2.next_state = Some("c".to_owned());
    s2.transitions = vec!["c".to_owned()];
    let s2 = match session_step(s2, "progress-gate", "a", &f) {
        SessionStep::Block { state } => state,
        other => panic!("expected block, got {other:?}"),
    };
    let message2 = build_block_message(&s2, &f, Some(&scripts(false)));
    assert!(message2.contains("2/3"), "got: {message2}");
}

#[test]
fn block_message_single_way_full_text() {
    let f = flow(QUALITY_MMD);
    let s = first_block("quality-gate", &f);
    let message = build_block_message(&s, &f, Some(&scripts(false)));
    assert_eq!(
        message,
        "[quality-gate: 1/1] Did you write clean code?\n\nWhen finished, run: sh /repo/.steplock/sessions/sess-1/quality-gate/ack.sh\nThen retry your original command."
    );
}

#[test]
fn allow_preview_request_adds_tip() {
    let f = flow(QUALITY_MMD);
    let s = first_block("quality-gate", &f);
    let message = build_block_message(&s, &f, Some(&scripts(true)));
    assert!(message.contains("preview.sh"));
    assert!(message.ends_with(
        "\n(Tip: run sh /repo/.steplock/sessions/sess-1/quality-gate/preview.sh to see all items first.)"
    ));
}

#[test]
fn preview_tip_only_before_the_first_acknowledgment() {
    let f = flow(PROGRESS_MMD);
    let s = acked(first_block("progress-gate", &f), "b");
    let s = match session_step(s, "progress-gate", "a", &f) {
        SessionStep::Block { state } => state,
        other => panic!("expected block, got {other:?}"),
    };
    let message = build_block_message(&s, &f, Some(&scripts(true)));
    assert!(!message.contains("Tip"));
}

#[test]
fn branching_flow_block_message_lists_options() {
    let f = flow(BRANCH_MMD);
    let s = first_block("branch-gate", &f);
    let message = build_block_message(&s, &f, Some(&scripts(false)));
    assert!(message.contains("pass"));
    assert!(message.contains("skip"));
    assert!(message.contains("run one of:"));
    assert_eq!(
        message,
        "[branch-gate: 1/3] Did you check?\n\nWhen finished, run one of:\n  sh /repo/.steplock/sessions/sess-1/quality-gate/ack.sh pass   — Yes, it passed\n  sh /repo/.steplock/sessions/sess-1/quality-gate/ack.sh skip   — No, skipped because\nThen retry your original command."
    );
}

#[test]
fn branching_session_has_no_next_state() {
    let f = flow(BRANCH_MMD);
    let s = first_block("branch-gate", &f);
    assert_eq!(s.next_state, None);
    assert_eq!(s.transitions, vec!["pass", "skip"]);
}

#[test]
fn reset_always_with_allow_preview_does_not_show_preview_tip() {
    let f = flow("stateDiagram-v2\n    [*] --> check\n    check --> [*]\n    check: Did you check?\n");
    let (_, message) = always_block("always-preview", "check", &f);
    assert!(!message.contains("preview.sh"), "got: {message}");
}

#[test]
fn reset_always_with_branching_flow_shows_no_next_state() {
    let f = flow(BRANCH_MMD);
    let (state, message) = always_block("always-branch", "check", &f);
    assert!(message.contains("Did you check?"));
    assert!(message.contains("retry your original command"));
    assert_eq!(
        message,
        "[always-branch: 1/3] Did you check?\n\nWhen done, retry your original command."
    );
    assert_eq!(state.next_state, None);
    assert!(state.visited.is_empty());
}

#[test]
fn reset_always_blocks_every_time() {
    let f = flow(QUALITY_MMD);
    let first = always_block("quality-gate", "clean_code", &f);
    let second = always_block("quality-gate", "clean_code", &f);
    assert_eq!(first.1, second.1);
    assert_eq!(first.0.current_state, "clean_code");
    assert_eq!(second.0.current_state, "clean_code");
}

#[test]
fn two_step_lifecycle_block_ack_block_ack_approve() {
    let f = flow(TWO_STEP_MMD);
    let s1 = first_block("ddd-gate", &f);
    assert_eq!(s1.current_state, "step_one");
    assert_eq!(s1.transitions, vec!["step_two"]);
    assert_eq!(s1.next_state.as_deref(), Some("step_two"));

    let s2 = match session_step(acked(s1, "step_two"), "ddd-gate", "step_one", &f) {
        SessionStep::Block { state } => state,
        other => panic!("expected block, got {other:?}"),
    };
    assert_eq!(s2.current_state, "step_two");
    assert_eq!(s2.transitions, vec!["[*]"]);
    assert!(s2.visited.contains(&"step_one".to_owned()));

    let s3 = acknowledge(s2, None);
    assert_eq!(s3.current_state, "[*]");
    assert_eq!(s3.visited, vec!["step_one", "step_two"]);
    match session_step(s3, "ddd-gate", "step_one", &f) {
        SessionStep::Complete { reset } => {
            assert_eq!(reset.current_state, "step_one");
            assert!(reset.visited.is_empty());
            assert!(reset.transitions.is_empty());
            assert_eq!(reset.checklist, "ddd-gate");
        }
        other => panic!("expected completion, got {other:?}"),
    }
}

#[test]
fn state_persists_transitions_on_repeated_blocks() {
    let f = flow(QUALITY_MMD);
    let s1 = first_block("quality-gate", &f);
    let s2 = match session_step(s1.clone(), "quality-gate", "clean_code", &f) {
        SessionStep::Block { state } => state,
        other => panic!("expected block, got {other:?}"),
    };
    assert_eq!(s1.transitions, s2.transitions);
    assert_eq!(s1.current_state, s2.current_state);
    assert_eq!(s1.next_state, s2.next_state);
}

#[test]
fn unknown_current_state_in_flow_skips_checklist() {
    let f = flow(QUALITY_MMD);
    let state = SessionState {
        checklist: "quality-gate".to_owned(),
        current_state: "nonexistent_state".to_owned(),
        next_state: None,
        transitions: vec![],
        visited: vec![],
    };
    assert!(matches!(
        session_step(state, "quality-gate", "clean_code", &f),
        SessionStep::Stale
    ));
}

#[test]
fn initial_state_of_first_initial() {
    let f = flow(BRANCH_MMD);
    assert_eq!(initial_state_of(&f, "flow.mmd").unwrap(), "check");
}

#[test]
fn unlabeled_state_shown_by_name() {
    let f = flow("stateDiagram-v2\n    [*] --> bare\n    bare --> [*]\n");
    let (_, message) = always_block("g", "bare", &f);
    assert_eq!(message, "[g: 1/1] bare\n\nWhen done, retry your original command.");
}

#[test]
fn ack_refuses_what_is_not_a_way_on() {
    let f = flow(BRANCH_MMD);
    let s = first_block("branch-gate", &f);
    // several ways on and no choice: nothing changes
    let same = acknowledge(s.clone(), None);
    assert_eq!(same.current_state, "check");
    assert!(same.visited.is_empty());
    // an empty argument counts as none
    assert_eq!(acknowledge(s.clone(), Some("")).current_state, "check");
    // not a way on from the current item
    assert_eq!(acknowledge(s.clone(), Some("elsewhere")).current_state, "check");
    // the current item itself
    assert_eq!(acknowledge(s.clone(), Some("check")).current_state, "check");
    // a chosen way on
    let moved = acknowledge(s, Some("skip"));
    assert_eq!(moved.current_state, "skip");
    assert_eq!(moved.visited, vec!["check"]);
    assert_eq!(moved.next_state, None);
}

#[test]
fn ack_of_a_complete_session_changes_nothing() {
    let s = SessionState {
        checklist: "g".to_owned(),
        current_state: "[*]".to_owned(),
        next_state: None,
        transitions: vec!["[*]".to_owned()],
        visited: vec!["a".to_owned()],
    };
    let r = acknowledge(s, Some("[*]"));
    assert_eq!(r.current_state, "[*]");
    assert_eq!(r.visited, vec!["a"]);
}

#[test]
fn two_step_checklist_blocks_in_order_then_approves() {
    let f = flow("stateDiagram-v2\n    [*] --> step_a\n    step_a --> step_b\n    step_b --> [*]\n    step_a : Step A\n    step_b : Step B\n");
    let s = first_block("quality", &f);
    assert!(build_block_message(&s, &f, Some(&scripts(false))).contains("Step A"));
    let s = match session_step(acknowledge(s, None), "quality", "step_a", &f) {
        SessionStep::Block { state } => state,
        other => panic!("expected block, got {other:?}"),
    };
    assert!(build_block_message(&s, &f, Some(&scripts(false))).contains("Step B"));
    let reset = match session_step(acknowledge(s, None), "quality", "step_a", &f) {
        SessionStep::Complete { reset } => reset,
        other => panic!("expected approval, got {other:?}"),
    };
    let again = match session_step(reset, "quality", "step_a", &f) {
        SessionStep::Block { state } => state,
        other => panic!("expected block, got {other:?}"),
    };
    assert!(build_block_message(&again, &f, Some(&scripts(false))).contains("Step A"));
}
