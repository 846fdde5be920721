//! The verified part of `match_input` evaluation.
use steplock::cel::{command_words, expression_to_check, filter_verdict, match_verdict, CelOutcome};

#[test]
fn no_expression_matches_everything() {
    assert!(expression_to_check(&None).is_none());
}

#[test]
fn blank_expression_matches_everything() {
    assert!(expression_to_check(&Some(String::new())).is_none());
    assert!(expression_to_check(&Some("  \t\n ".to_owned())).is_none());
}

#[test]
fn expression_is_evaluated_as_written() {
    let e = Some(" input.command.contains('git push') ".to_owned());
    assert_eq!(
        expression_to_check(&e).map(|s| s.as_str()),
        Some(" input.command.contains('git push') ")
    );
}

#[test]
fn command_words_split_on_whitespace() {
    assert_eq!(
        command_words("  git  push\torigin\nmain "),
        vec!["git", "push", "origin", "main"]
    );
    assert!(command_words("").is_empty());
    assert!(command_words("   ").is_empty());
}

#[test]
fn command_words_keep_paths_whole() {
    assert_eq!(command_words("cat ./push/notes.txt"), vec!["cat", "./push/notes.txt"]);
}

#[test]
fn verdict_of_a_boolean() {
    assert!(match_verdict("x", CelOutcome::Bool(true)).unwrap());
    assert!(!match_verdict("x", CelOutcome::Bool(false)).unwrap());
}

#[test]
fn verdict_of_null_and_other_values() {
    assert!(!match_verdict("x", CelOutcome::Null).unwrap());
    assert!(match_verdict("x", CelOutcome::OtherValue).unwrap());
}

#[test]
fn verdict_of_a_compile_failure() {
    let e = match_verdict("bad((", CelOutcome::CompileFailed("unexpected token".to_owned()))
        .unwrap_err();
    assert_eq!(e.to_string(), "CEL error in expression `bad((`: unexpected token");
}

#[test]
fn verdict_of_a_compiler_crash() {
    let e = match_verdict("x", CelOutcome::CompilerCrashed).unwrap_err();
    assert_eq!(
        e.to_string(),
        "CEL error in expression `x`: CEL expression caused an internal parse error"
    );
}

#[test]
fn verdict_of_an_execution_failure() {
    let e = match_verdict("input.nope", CelOutcome::ExecutionFailed("no such key".to_owned()))
        .unwrap_err();
    assert_eq!(e.to_string(), "CEL error in expression `input.nope`: no such key");
}

#[test]
fn missing_key_reads_as_null() {
    assert!(!match_verdict("input.path.startsWith('/etc')", CelOutcome::MissingKey).unwrap());
}

#[test]
fn none_always_approves() {
    assert!(filter_verdict(&None, CelOutcome::Bool(false)).unwrap());
    for ws in ["", " ", "\t\n", "   \r\n "] {
        assert!(filter_verdict(&Some(ws.to_owned()), CelOutcome::Bool(false)).unwrap());
    }
    assert!(filter_verdict(&Some("true".to_owned()), CelOutcome::Bool(true)).unwrap());
    assert!(!filter_verdict(&Some("false".to_owned()), CelOutcome::Bool(false)).unwrap());
}

#[test]
fn filter_verdict_reports_errors_of_evaluated_expressions() {
    let e = filter_verdict(&Some("bad((".to_owned()), CelOutcome::CompileFailed("oops".to_owned()))
        .unwrap_err();
    assert_eq!(e.to_string(), "CEL error in expression `bad((`: oops");
    assert!(!filter_verdict(&Some("input.x".to_owned()), CelOutcome::MissingKey).unwrap());
}
