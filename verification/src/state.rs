//! Session state of one checklist, and the answer given to a hook event.
use vstd::prelude::*;
use crate::flow::end_marker;
use crate::text::views;

verus! {

/// Where one session stands in one checklist: the content of `state.json`.
#[derive(Debug, Clone)]
pub struct SessionState {
    /// Checklist identifier.
    pub checklist: String,
    /// Node the agent is currently gated on; `[*]` once the checklist is complete.
    pub current_state: String,
    /// Auto-advance target, when the current node has exactly one way on.
    pub next_state: Option<String>,
    /// Valid next states for the acknowledgment script.
    pub transitions: Vec<String>,
    /// Nodes already acknowledged.
    pub visited: Vec<String>,
}

/// The abstract content of a [`SessionState`].
pub struct SessionView {
    pub checklist: Seq<char>,
    pub current: Seq<char>,
    pub next: Option<Seq<char>>,
    pub transitions: Seq<Seq<char>>,
    pub visited: Seq<Seq<char>>,
}

/// The view of an optional string.
pub open spec fn opt_view(o: Option<String>) -> Option<Seq<char>> {
    match o {
        Some(s) => Some(s@),
        None => None,
    }
}

impl View for SessionState {
    type V = SessionView;

    open spec fn view(&self) -> SessionView {
        SessionView {
            checklist: self.checklist@,
            current: self.current_state@,
            next: opt_view(self.next_state),
            transitions: views(self.transitions@),
            visited: views(self.visited@),
        }
    }
}

/// A session that starts `checklist` at `initial_state`, with nothing acknowledged.
pub open spec fn fresh_session(checklist: Seq<char>, initial_state: Seq<char>) -> SessionView {
    SessionView {
        checklist,
        current: initial_state,
        next: None,
        transitions: seq![],
        visited: seq![],
    }
}

impl SessionState {
    /// The checklist is complete: the session has reached `[*]`.
    pub fn is_complete(&self) -> (b: bool)
        ensures
            b == (self.current_state@ == end_marker()),
    {
        self.current_state == String::from_str("[*]")
    }
}

/// Initialize fresh state for the first (initial) state of a flow.
pub fn init_state(checklist: &str, initial_state: &str) -> (s: SessionState)
    ensures
        s@ == fresh_session(checklist@, initial_state@),
{
    let s = SessionState {
        checklist: checklist.to_owned(),
        current_state: initial_state.to_owned(),
        next_state: None,
        transitions: Vec::new(),
        visited: Vec::new(),
    };
    assert(views(s.transitions@) =~= seq![]);
    assert(views(s.visited@) =~= seq![]);
    s
}

/// Response returned to the hook layer.
#[derive(Debug)]
#[non_exhaustive]
pub enum HookResponse {
    /// The action waits: `message` tells the agent what to acknowledge.
    Block { message: String },
    /// The action may go ahead.
    Approve,
}

} // verus!
