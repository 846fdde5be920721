//! Checklist gate: decides whether one checklist blocks a hook event, how its session
//! state moves, and what the agent is told.
use vstd::prelude::*;
use crate::error::SteplockError;
use crate::flow::{
    contains_string, end_marker, label_of, pair_views, targets, FlowGraph, FlowView, Labels,
};
use crate::state::{fresh_session, init_state, SessionState, SessionView};
use crate::text::{decimal, decimal_string, views};

verus! {

broadcast use vstd::seq_lib::group_seq_properties;

/// The helper scripts of a session directory, as the hook shows them to the agent.
pub struct SessionScripts {
    /// Path of `ack.sh`.
    pub ack_path: String,
    /// Path of `preview.sh`.
    pub preview_path: String,
    /// `preview.sh` exists.
    pub preview_exists: bool,
}

/// The label of `s`, or its name when it has none.
pub open spec fn label_or_name(labels: Seq<(Seq<char>, Seq<char>)>, s: Seq<char>) -> Seq<char> {
    match label_of(labels, s) {
        Some(l) => l,
        None => s,
    }
}

/// `ts` without `[*]`.
pub open spec fn without_end(ts: Seq<Seq<char>>) -> Seq<Seq<char>>
    decreases ts.len(),
{
    if ts.len() == 0 {
        seq![]
    } else if ts.last() == end_marker() {
        without_end(ts.drop_last())
    } else {
        without_end(ts.drop_last()).push(ts.last())
    }
}

/// One line per next state: how to acknowledge towards it.
pub open spec fn option_lines(
    ack: Seq<char>,
    nexts: Seq<Seq<char>>,
    labels: Seq<(Seq<char>, Seq<char>)>,
) -> Seq<char>
    decreases nexts.len(),
{
    if nexts.len() == 0 {
        seq![]
    } else {
        option_lines(ack, nexts.drop_last(), labels) + "  sh "@ + ack + " "@ + nexts.last()
            + "   — "@ + label_or_name(labels, nexts.last()) + "\n"@
    }
}

/// The first line of a block message: checklist, progress and the current item.
pub open spec fn message_head(s: SessionView, g: FlowView) -> Seq<char> {
    "["@ + s.checklist + ": "@ + decimal(s.visited.len() + 1) + "/"@ + decimal(g.order.len())
        + "] "@ + label_or_name(g.labels, s.current) + "\n\n"@
}

/// The message shown when `s` blocks; `scripts` is absent when nothing is kept on disk.
pub open spec fn block_message(s: SessionView, g: FlowView, scripts: Option<SessionScripts>) -> Seq<
    char,
> {
    match scripts {
        Some(sc) => {
            let visible = without_end(s.transitions);
            let body = if visible.len() <= 1 {
                "When finished, run: sh "@ + sc.ack_path@ + "\nThen retry your original command."@
            } else {
                "When finished, run one of:\n"@ + option_lines(sc.ack_path@, visible, g.labels)
                    + "Then retry your original command."@
            };
            let tip = if s.visited.len() == 0 && sc.preview_exists {
                "\n(Tip: run sh "@ + sc.preview_path@ + " to see all items first.)"@
            } else {
                seq![]
            };
            message_head(s, g) + body + tip
        },
        None => message_head(s, g) + "When done, retry your original command."@,
    }
}

/// `s` about to block: its ways on are the targets of its current node, and it
/// advances by itself when there is exactly one.
pub open spec fn blocked(s: SessionView, g: FlowView) -> SessionView {
    let ts = targets(g.edges, s.current);
    SessionView {
        next: if ts.len() == 1 {
            Some(ts[0])
        } else {
            None
        },
        transitions: ts,
        ..s
    }
}

/// What a session does on a matching hook event.
#[derive(Debug)]
pub enum SessionStep {
    /// The checklist was complete: approve, and store `reset` so the next attempt
    /// starts over.
    Complete { reset: SessionState },
    /// The current node is unknown to the flow (it changed mid-session): skip the
    /// checklist.
    Stale,
    /// Block, after storing `state`.
    Block { state: SessionState },
}

/// The label of `s`, or its name.
fn label_or_name_exec(labels: &Labels, s: &String) -> (r: String)
    ensures
        r@ == label_or_name(pair_views(labels.entries@), s@),
{
    match labels.get(s.as_str()) {
        Some(l) => l.clone(),
        None => s.clone(),
    }
}

/// `ts` without `[*]`.
fn without_end_exec(ts: &Vec<String>) -> (r: Vec<String>)
    ensures
        views(r@) == without_end(views(ts@)),
{
    let end = String::from_str("[*]");
    let mut r: Vec<String> = Vec::new();
    let mut i: usize = 0;
    while i < ts.len()
        invariant
            i <= ts.len(),
            end@ == end_marker(),
            views(r@) == without_end(views(ts@).take(i as int)),
        decreases ts.len() - i,
    {
        assert(views(ts@).take(i + 1).drop_last() =~= views(ts@).take(i as int));
        if ts[i] != end {
            r.push(ts[i].clone());
            assert(views(r@) =~= views(r@.drop_last()).push(r@.last()@));
        }
        i = i + 1;
    }
    assert(views(ts@).take(i as int) =~= views(ts@));
    r
}

/// The message shown when `state` blocks. `scripts` names the session's `ack.sh` and
/// `preview.sh`; it is `None` for `reset = "always"` checklists, which keep nothing on disk.
pub fn build_block_message(
    state: &SessionState,
    flow: &FlowGraph,
    scripts: Option<&SessionScripts>,
) -> (msg: String)
    ensures
        msg@ == block_message(
            state@,
            flow@,
            match scripts {
                Some(sc) => Some(*sc),
                None => None,
            },
        ),
{
    let label = label_or_name_exec(&flow.labels, &state.current_state);
    let step = decimal_string(state.visited.len() as u128 + 1);
    let total = decimal_string(flow.order.len() as u128);
    let mut msg = String::from_str("[");
    msg.append(state.checklist.as_str());
    msg.append(": ");
    msg.append(step.as_str());
    msg.append("/");
    msg.append(total.as_str());
    msg.append("] ");
    msg.append(label.as_str());
    msg.append("\n\n");
    assert(msg@ == message_head(state@, flow@));
    let ghost head = msg@;
    match scripts {
        Some(sc) => {
            let visible = without_end_exec(&state.transitions);
            if visible.len() <= 1 {
                msg.append("When finished, run: sh ");
                msg.append(sc.ack_path.as_str());
                msg.append("\nThen retry your original command.");
                assert(msg@ =~= head + ("When finished, run: sh "@ + sc.ack_path@
                    + "\nThen retry your original command."@));
            } else {
                msg.append("When finished, run one of:\n");
                let ghost base = msg@;
                let ghost vis = views(visible@);
                let mut j: usize = 0;
                assert(vis.take(0) =~= Seq::<Seq<char>>::empty());
                assert(msg@ =~= base + option_lines(sc.ack_path@, vis.take(0), flow@.labels));
                while j < visible.len()
                    invariant
                        j <= visible.len(),
                        vis == views(visible@),
                        msg@ == base + option_lines(sc.ack_path@, vis.take(j as int), flow@.labels),
                    decreases visible.len() - j,
                {
                    let next_label = label_or_name_exec(&flow.labels, &visible[j]);
                    let ghost before = msg@;
                    msg.append("  sh ");
                    msg.append(sc.ack_path.as_str());
                    msg.append(" ");
                    msg.append(visible[j].as_str());
                    msg.append("   — ");
                    msg.append(next_label.as_str());
                    msg.append("\n");
                    assert(vis.take(j + 1).drop_last() =~= vis.take(j as int));
                    assert(vis.take(j + 1).last() == visible@[j as int]@);
                    let ghost line = "  sh "@ + sc.ack_path@ + " "@ + visible@[j as int]@ + "   — "@
                        + label_or_name(flow@.labels, visible@[j as int]@) + "\n"@;
                    assert(option_lines(sc.ack_path@, vis.take(j + 1), flow@.labels)
                        == option_lines(sc.ack_path@, vis.take(j as int), flow@.labels) + "  sh "@
                        + sc.ack_path@ + " "@ + visible@[j as int]@ + "   — "@ + label_or_name(
                        flow@.labels,
                        visible@[j as int]@,
                    ) + "\n"@);
                    assert(msg@ =~= base + option_lines(
                        sc.ack_path@,
                        vis.take(j + 1),
                        flow@.labels,
                    ));
                    j = j + 1;
                }
                assert(vis.take(j as int) =~= vis);
                msg.append("Then retry your original command.");
                assert(msg@ =~= head + ("When finished, run one of:\n"@ + option_lines(
                    sc.ack_path@,
                    vis,
                    flow@.labels,
                ) + "Then retry your original command."@));
            }
            let ghost with_body = msg@;
            if state.visited.len() == 0 && sc.preview_exists {
                msg.append("\n(Tip: run sh ");
                msg.append(sc.preview_path.as_str());
                msg.append(" to see all items first.)");
                assert(msg@ =~= with_body + ("\n(Tip: run sh "@ + sc.preview_path@
                    + " to see all items first.)"@));
            } else {
                assert(msg@ =~= with_body + Seq::<char>::empty());
            }
        },
        None => {
            msg.append("When done, retry your original command.");
        },
    }
    msg
}

/// The state a session stores when it blocks on its current node.
fn block_state(state: SessionState, flow: &FlowGraph) -> (r: SessionState)
    ensures
        r@ == blocked(state@, flow@),
{
    let ts = flow.transitions.targets(state.current_state.as_str());
    let next = if ts.len() == 1 {
        Some(ts[0].clone())
    } else {
        None
    };
    SessionState { next_state: next, transitions: ts, ..state }
}

/// One hook event for a `reset = "session"` checklist whose session is in `state`:
/// a complete session approves and starts over at `initial_state`; a session on a node
/// the flow does not know is skipped; any other session blocks.
pub fn session_step(
    state: SessionState,
    checklist_name: &str,
    initial_state: &str,
    flow: &FlowGraph,
) -> (r: SessionStep)
    ensures
        match r {
            SessionStep::Complete { reset } => state@.current == end_marker() && reset@
                == fresh_session(checklist_name@, initial_state@),
            SessionStep::Stale => state@.current != end_marker() && targets(
                flow@.edges,
                state@.current,
            ).len() == 0,
            SessionStep::Block { state: b } => state@.current != end_marker() && targets(
                flow@.edges,
                state@.current,
            ).len() > 0 && b@ == blocked(state@, flow@),
        },
{
    if state.is_complete() {
        return SessionStep::Complete { reset: init_state(checklist_name, initial_state) };
    }
    let ts = flow.transitions.targets(state.current_state.as_str());
    if ts.len() == 0 {
        return SessionStep::Stale;
    }
    SessionStep::Block { state: block_state(state, flow) }
}

/// The block of a `reset = "always"` checklist: a fresh session on `initial_state`, and
/// the message for it, which points to no script.
pub fn always_block(checklist_name: &str, initial_state: &str, flow: &FlowGraph) -> (r: (
    SessionState,
    String,
))
    ensures
        r.0@ == blocked(fresh_session(checklist_name@, initial_state@), flow@),
        r.1@ == block_message(r.0@, flow@, None),
{
    let state = block_state(init_state(checklist_name, initial_state), flow);
    let message = build_block_message(&state, flow, None);
    (state, message)
}

/// The node a fresh session of `flow` starts on.
///
/// # Errors
///
/// Returns [`SteplockError::Mermaid`] about `flow_path` when the flow has no initial state.
pub fn initial_state_of(flow: &FlowGraph, flow_path: &str) -> (r: Result<String, SteplockError>)
    ensures
        match r {
            Ok(s) => flow@.initial.len() > 0 && s@ == flow@.initial[0],
            Err(e) => flow@.initial.len() == 0 && e.is_mermaid(
                flow_path@,
                "no initial state found"@,
            ),
        },
{
    if flow.initial.len() == 0 {
        return Err(
            SteplockError::Mermaid {
                path: flow_path.to_owned(),
                message: String::from_str("no initial state found"),
            },
        );
    }
    Ok(flow.initial[0].clone())
}

/// The state `ack.sh` moves to: the argument when one is given and not empty, else the
/// stored auto-advance target when there is one and it is not empty.
pub open spec fn ack_target(s: SessionView, arg: Option<Seq<char>>) -> Option<Seq<char>> {
    if arg is Some && arg->0.len() > 0 {
        arg
    } else if s.next is Some && s.next->0.len() > 0 {
        s.next
    } else {
        None
    }
}

/// What `ack.sh` does to a session: with a current item other than `[*]`, and a target
/// that differs from it and is among the stored transitions, the item is marked visited,
/// the target becomes current and the auto-advance target is cleared. Otherwise the state
/// stays as it is (the script reports why).
pub open spec fn acknowledged(s: SessionView, arg: Option<Seq<char>>) -> SessionView {
    if s.current.len() == 0 || s.current == end_marker() {
        s
    } else {
        match ack_target(s, arg) {
            Some(n) => if n != s.current && s.transitions.contains(n) {
                SessionView { visited: s.visited.push(s.current), current: n, next: None, ..s }
            } else {
                s
            },
            None => s,
        }
    }
}

/// The change `ack.sh` makes to `state.json`, given its argument (`None` when run without
/// one).
pub fn acknowledge(state: SessionState, arg: Option<&str>) -> (r: SessionState)
    ensures
        r@ == acknowledged(
            state@,
            match arg {
                Some(a) => Some(a@),
                None => None,
            },
        ),
{
    if state.current_state.as_str().is_empty() || state.is_complete() {
        return state;
    }
    let target: Option<String> = match arg {
        Some(a) if !a.is_empty() => Some(a.to_owned()),
        _ => match &state.next_state {
            Some(n) if !n.as_str().is_empty() => Some(n.clone()),
            _ => None,
        },
    };
    match target {
        Some(n) => {
            if n != state.current_state && contains_string(&state.transitions, &n) {
                let mut visited = state.visited;
                let ghost old_visited = visited@;
                visited.push(state.current_state);
                assert(views(visited@) =~= views(old_visited).push(state@.current));
                SessionState {
                    checklist: state.checklist,
                    current_state: n,
                    next_state: None,
                    transitions: state.transitions,
                    visited,
                }
            } else {
                state
            }
        },
        None => state,
    }
}

} // verus!
