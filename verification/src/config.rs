//! Checklist configuration, as read from `config.toml`.
use vstd::prelude::*;

verus! {

/// Controls when the checklist state is reset between invocations.
#[derive(Debug, Clone, Copy, PartialEq, Eq, Structural)]
#[non_exhaustive]
pub enum Reset {
    /// Reset per session: state persists within a session and resets on the next
    /// invocation after the checklist completes. This is the default.
    Session,
    /// Reset on every invocation: block on the first checklist item every time,
    /// with no state persistence.
    Always,
}

impl Default for Reset {
    fn default() -> (r: Reset)
        ensures
            r == Reset::Session,
    {
        Reset::Session
    }
}

/// Parsed representation of a checklist's `config.toml`.
#[derive(Debug, Clone)]
#[non_exhaustive]
pub struct ChecklistConfig {
    /// Hook event name to match, e.g. `"tool:before"`.
    pub on_event: String,
    /// Tool name to match (e.g. `"bash"`). Empty to match any tool.
    pub on_tool: String,
    /// Optional CEL expression evaluated against the hook event. `None` matches all.
    pub match_input: Option<String>,
    /// Whether session state persists across invocations or resets every time.
    pub reset: Reset,
    /// When `true`, steplock generates `preview.sh` in the session directory.
    pub allow_preview_request: bool,
}

impl ChecklistConfig {
    /// A configuration with the given fields.
    pub fn new(
        on_event: String,
        on_tool: String,
        match_input: Option<String>,
        reset: Reset,
        allow_preview_request: bool,
    ) -> (c: ChecklistConfig)
        ensures
            c.on_event == on_event,
            c.on_tool == on_tool,
            c.match_input == match_input,
            c.reset == reset,
            c.allow_preview_request == allow_preview_request,
    {
        ChecklistConfig { on_event, on_tool, match_input, reset, allow_preview_request }
    }

    /// The checklist is triggered by `event` on `tool`.
    pub open spec fn spec_applies_to(&self, event: Seq<char>, tool: Seq<char>) -> bool {
        self.on_event@ == event && (self.on_tool@.len() == 0 || self.on_tool@ == tool)
    }

    /// The checklist is triggered by the hook event `event` on the tool `tool`: the event
    /// names agree, and `on_tool` is empty or names `tool`.
    pub fn applies_to(&self, event: &str, tool: &str) -> (b: bool)
        ensures
            b == self.spec_applies_to(event@, tool@),
    {
        if self.on_event != event.to_owned() {
            return false;
        }
        self.on_tool.as_str().is_empty() || self.on_tool == tool.to_owned()
    }
}

} // verus!
