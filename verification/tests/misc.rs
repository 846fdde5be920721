//! Scope keys, run modes, checklist order, configuration and errors.
use steplock::catalog::{
    checklist_order, run_mode, run_step, sort_names, unshadowed, RunAction, RunMode,
};
use steplock::config::{ChecklistConfig, Reset};
use steplock::error::SteplockError;
use steplock::scope::{resolve_scope_key, stop_scope_key, ScopeKey};
use steplock::state::HookResponse;

#[test]
fn scope_key_prefers_session_id() {
    let k = resolve_scope_key("sess-1", Some("stored"));
    assert!(matches!(&k, ScopeKey::Session(s) if s == "sess-1"));
    assert_eq!(k.key(), "sess-1");
}

#[test]
fn scope_key_uses_trimmed_fallback() {
    let k = resolve_scope_key("", Some("  abc-123\n"));
    assert!(matches!(&k, ScopeKey::Fallback(s) if s == "abc-123"));
}

#[test]
fn fallback_session_id_generated_when_empty() {
    let k = resolve_scope_key("", None);
    match &k {
        ScopeKey::Generated(id) => {
            assert_eq!(id.len(), 36);
            for (i, c) in id.chars().enumerate() {
                if i == 8 || i == 13 || i == 18 || i == 23 {
                    assert_eq!(c, '-');
                } else {
                    assert!(c.is_ascii_hexdigit() && !c.is_ascii_uppercase());
                }
            }
            assert_eq!(id.as_bytes()[14], b'4');
            assert!(matches!(id.as_bytes()[19], b'8' | b'9' | b'a' | b'b'));
        }
        other => panic!("expected a generated key, got {other:?}"),
    }
    let k2 = resolve_scope_key("", None);
    assert_ne!(k.key(), k2.key());
}

#[test]
fn stop_scope_key_cases() {
    assert_eq!(stop_scope_key("s", Some("f")), Some("s".to_owned()));
    assert_eq!(stop_scope_key("", Some(" f \n")), Some("f".to_owned()));
    assert_eq!(stop_scope_key("", None), None);
}

#[test]
fn run_mode_of_events() {
    assert_eq!(run_mode("session:stop"), RunMode::EndSession);
    assert_eq!(run_mode("tool:before"), RunMode::Evaluate);
    assert_eq!(run_mode("session:stop "), RunMode::Evaluate);
}

#[test]
fn project_checklist_shadows_global_with_same_name() {
    let global = vec!["a-gate".to_owned(), "shared".to_owned(), "z-gate".to_owned()];
    let project = vec!["shared".to_owned()];
    assert_eq!(unshadowed(&global, &project), vec!["a-gate", "z-gate"]);
}

#[test]
fn global_checklists_run_when_project_has_none() {
    let global = vec!["g1".to_owned(), "g2".to_owned()];
    assert_eq!(unshadowed(&global, &vec![]), vec!["g1", "g2"]);
}

#[test]
fn config_applies_to_event_and_tool() {
    let c = ChecklistConfig::new(
        "tool:before".to_owned(),
        "bash".to_owned(),
        None,
        Reset::Session,
        false,
    );
    assert!(c.applies_to("tool:before", "bash"));
    assert!(!c.applies_to("tool:after", "bash"));
    assert!(!c.applies_to("tool:before", "edit"));
}

#[test]
fn empty_on_tool_matches_any_tool() {
    let c = ChecklistConfig::new("tool:before".to_owned(), String::new(), None, Reset::Always, true);
    assert!(c.applies_to("tool:before", "edit"));
    assert!(c.applies_to("tool:before", ""));
    assert!(!c.applies_to("tool:after", "edit"));
}

#[test]
fn reset_defaults_to_session() {
    assert_eq!(Reset::default(), Reset::Session);
}

#[test]
fn error_texts() {
    assert_eq!(SteplockError::Io("denied".to_owned()).to_string(), "IO error: denied");
    assert_eq!(
        SteplockError::Toml { path: "c.toml".to_owned(), message: "bad".to_owned() }.to_string(),
        "TOML parse error in c.toml: bad"
    );
    assert_eq!(SteplockError::Json("eof".to_owned()).to_string(), "JSON error: eof");
    assert_eq!(
        SteplockError::Mermaid { path: "f.mmd".to_owned(), message: "m".to_owned() }.to_string(),
        "Mermaid parse error in f.mmd: m"
    );
    assert_eq!(
        SteplockError::Cel { expr: "e".to_owned(), message: "m".to_owned() }.to_string(),
        "CEL error in expression `e`: m"
    );
    assert_eq!(SteplockError::State("x".to_owned()).to_string(), "State error: x");
}

#[test]
fn checklists_sorted_by_name() {
    let names = vec!["z-gate".to_owned(), "b-gate".to_owned(), "a-gate".to_owned()];
    assert_eq!(sort_names(&names), vec!["a-gate", "b-gate", "z-gate"]);
}

#[test]
fn sort_names_agrees_with_str_order() {
    let names: Vec<String> = ["abc", "ab", "B", "a", "é", "z", "", "ab", "Zeta", "a-b", "a_b"]
        .iter()
        .map(|s| (*s).to_owned())
        .collect();
    let mut expected = names.clone();
    expected.sort();
    assert_eq!(sort_names(&names), expected);
}

#[test]
fn sort_names_of_nothing() {
    assert!(sort_names(&vec![]).is_empty());
}

#[test]
fn sort_names_ignores_listing_order() {
    let a = vec!["gamma".to_owned(), "alpha".to_owned(), "beta".to_owned()];
    let b = vec!["beta".to_owned(), "gamma".to_owned(), "alpha".to_owned()];
    assert_eq!(sort_names(&a), sort_names(&b));
}

#[test]
fn run_step_first_block_wins_else_approve() {
    assert!(matches!(run_step(3, 0, None), RunAction::Evaluate(0)));
    assert!(matches!(run_step(3, 2, None), RunAction::Evaluate(2)));
    assert!(matches!(run_step(3, 3, None), RunAction::Respond(HookResponse::Approve)));
    assert!(matches!(run_step(0, 0, None), RunAction::Respond(HookResponse::Approve)));
    let block = HookResponse::Block { message: "m".to_owned() };
    match run_step(3, 1, Some(block)) {
        RunAction::Respond(HookResponse::Block { message }) => assert_eq!(message, "m"),
        other => panic!("expected the block, got {other:?}"),
    }
}

#[test]
fn project_checklists_run_before_global() {
    let project = vec!["p1".to_owned(), "shared".to_owned()];
    let global = vec!["g1".to_owned(), "shared".to_owned(), "z".to_owned()];
    assert_eq!(checklist_order(&project, &global), vec!["p1", "shared", "g1", "z"]);
}
