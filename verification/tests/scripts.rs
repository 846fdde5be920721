//! The helper scripts of a session directory.
use steplock::flow::parse_mmd;
use steplock::scripts::{build_preview_sh, shell_escape_exec, ACK_SH};

const SIMPLE_MMD: &str = r"stateDiagram-v2
    [*] --> step_one
    step_one --> [*]
    step_one : Do the first thing
";

const TWO_STEP_MMD: &str = r"stateDiagram-v2
    [*] --> step_one
    step_one --> step_two
    step_two --> [*]
    step_one : First step
    step_two : Second step
";

#[test]
fn ack_sh_handles_complete_session() {
    assert!(ACK_SH.contains("session already complete"));
    assert!(ACK_SH.contains("[*]"));
}

#[test]
fn ack_sh_appends_audit_event() {
    assert!(ACK_SH.contains("audit.log"));
    assert!(ACK_SH.contains("\"ack\""));
}

#[test]
fn preview_sh_singular_item() {
    let flow = parse_mmd("test.mmd", SIMPLE_MMD).unwrap();
    let script = build_preview_sh("my-gate", &flow);
    assert!(script.contains("1 item)"));
    assert!(!script.contains("1 items)"));
}

#[test]
fn preview_sh_plural_items() {
    let flow = parse_mmd("test.mmd", TWO_STEP_MMD).unwrap();
    let script = build_preview_sh("my-gate", &flow);
    assert!(script.contains("2 items)"));
}

#[test]
fn preview_sh_escapes_single_quotes() {
    let mmd = "stateDiagram-v2\n    [*] --> s\n    s --> [*]\n    s : It's fine\n";
    let flow = parse_mmd("test.mmd", mmd).unwrap();
    let script = build_preview_sh("checklist", &flow);
    assert!(script.contains("It'\\''s fine"));
}

#[test]
fn preview_sh_uses_state_name_as_fallback_label() {
    let mmd = "stateDiagram-v2\n    [*] --> unlabeled\n    unlabeled --> [*]\n";
    let flow = parse_mmd("test.mmd", mmd).unwrap();
    let script = build_preview_sh("checklist", &flow);
    assert!(script.contains("'unlabeled' 'unlabeled'"));
}

// ── further cases ──────────────────────────────────────────────────────────

#[test]
fn preview_sh_full_text() {
    let flow = parse_mmd("test.mmd", TWO_STEP_MMD).unwrap();
    let script = build_preview_sh("gate", &flow);
    let expected = r#"#!/bin/sh
DIR="$(cd "$(dirname "$0")" && pwd)"
STATE="$DIR/state.json"
VISITED=$(jq -r '.visited[]?' "$STATE" 2>/dev/null)

echo "Checklist: gate (2 items)"

check() {
  label="$1"; state="$2"
  if printf '%s\n' $VISITED | grep -qxF "$state"; then
    printf "  [x] %s\n" "$label"
  else
    printf "  [ ] %s\n" "$label"
  fi
}

check 'First step' 'step_one'
check 'Second step' 'step_two'
"#;
    assert_eq!(script, expected);
}

#[test]
fn shell_escape_quotes_each_apostrophe() {
    assert_eq!(shell_escape_exec("a'b''c"), "a'\\''b'\\'''\\''c");
    assert_eq!(shell_escape_exec("plain"), "plain");
}

#[test]
fn preview_sh_counts_twelve_items() {
    let mut mmd = String::from("stateDiagram-v2\n    [*] --> s0\n");
    for i in 0..11 {
        mmd.push_str(&format!("    s{} --> s{}\n", i, i + 1));
    }
    mmd.push_str("    s11 --> [*]\n");
    let flow = parse_mmd("t.mmd", &mmd).unwrap();
    assert!(build_preview_sh("big", &flow).contains("echo \"Checklist: big (12 items)\""));
}
