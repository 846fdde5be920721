//! Resolving the global steplock directory.
use std::path::PathBuf;

use steplock::global_config::{choose_global_dir, resolve_global_dir, GlobalDir};

fn s(x: &str) -> Option<String> {
    Some(x.to_owned())
}

/// An absolute path on this platform.
fn abs(name: &str) -> PathBuf {
    PathBuf::from("/").join(name)
}

fn abs_s(name: &str) -> Option<String> {
    Some(abs(name).to_string_lossy().into_owned())
}

fn home_config(home: &str) -> PathBuf {
    abs(home).join(".config").join("steplock")
}

/// The path a resolved directory names.
fn path(dir: Option<GlobalDir>) -> Option<PathBuf> {
    dir.map(|d| {
        let mut p = PathBuf::from(d.base);
        p.extend(d.parts);
        p
    })
}

#[test]
fn env_override_wins() {
    let dir = resolve_global_dir(abs_s("custom"), abs_s("xdg"), None, abs_s("home"));
    assert_eq!(path(dir), Some(abs("custom")), "STEPLOCK_GLOBAL_DIR must take precedence");
}

#[test]
fn empty_env_override_disables_global() {
    let dir = resolve_global_dir(s(""), None, None, abs_s("home"));
    assert_eq!(path(dir), None, "empty STEPLOCK_GLOBAL_DIR must disable global");
}

#[test]
fn uses_xdg_config_home() {
    let dir = resolve_global_dir(None, abs_s("xdg"), None, abs_s("home"));
    assert_eq!(path(dir), Some(abs("xdg").join("steplock")), "XDG path expected");
}

#[test]
fn ignores_relative_xdg_config_home() {
    let dir = resolve_global_dir(None, s("relative"), None, abs_s("home"));
    assert_eq!(
        path(dir),
        Some(home_config("home")),
        "relative XDG_CONFIG_HOME must fall back to the home directory"
    );
}

#[test]
fn falls_back_to_home_dir() {
    let dir = resolve_global_dir(None, None, None, abs_s("home"));
    assert_eq!(path(dir), Some(home_config("home")), "home fallback expected");
}

#[test]
fn none_without_home() {
    assert_eq!(
        path(resolve_global_dir(None, None, None, None)),
        None,
        "no env and no home means no global dir"
    );
}

#[test]
fn prefers_agent_real_home_over_sandboxed_home() {
    let dir = resolve_global_dir(None, None, abs_s("real"), abs_s("profile-home"));
    assert_eq!(
        path(dir),
        Some(home_config("real")),
        "HERMES_REAL_HOME must win over a sandboxed HOME"
    );
}

#[test]
fn ignores_relative_agent_real_home() {
    let dir = resolve_global_dir(None, None, s("relative"), abs_s("home"));
    assert_eq!(
        path(dir),
        Some(home_config("home")),
        "relative HERMES_REAL_HOME must fall back to the home directory"
    );
}

#[test]
fn xdg_config_home_wins_over_agent_real_home() {
    let dir = resolve_global_dir(None, abs_s("xdg"), abs_s("real"), abs_s("home"));
    assert_eq!(path(dir), Some(abs("xdg").join("steplock")), "XDG path expected");
}

#[test]
fn empty_xdg_config_home_is_not_absolute() {
    let dir = resolve_global_dir(None, s(""), None, abs_s("home"));
    assert_eq!(path(dir), Some(home_config("home")));
}

#[test]
fn platform_absolute_xdg_is_used_as_given() {
    let dir = choose_global_dir(None, s("C:\\xdg"), true, None, false, s("C:\\home")).unwrap();
    assert_eq!(dir.base, "C:\\xdg");
    assert_eq!(dir.parts, vec!["steplock"]);
}

#[test]
fn home_config_components() {
    let dir = choose_global_dir(None, s("rel"), false, s("rel2"), false, s("/h")).unwrap();
    assert_eq!(dir.base, "/h");
    assert_eq!(dir.parts, vec![".config", "steplock"]);
}
