//! Properties of the checklist gate that span several of its calls.
use vstd::prelude::*;
use crate::flow::{
    end_marker, is_walk, label_of, model_of_lines, reaches_end, step_ok, targets, FlowView,
};
use crate::flow_laws::{
    law_every_state_finishes, law_initial_first_in_order, law_terminal_iff_exit,
    lemma_targets_edges, parsed,
};
use crate::gate::{acknowledged, blocked, option_lines, without_end};
use crate::state::{fresh_session, SessionView};

verus! {

broadcast use vstd::seq_lib::group_seq_properties;

/// Blocking again on the same node stores the same state: repeated blocks are idempotent.
pub proof fn law_block_idempotent(s: SessionView, g: FlowView)
    ensures
        blocked(blocked(s, g), g) == blocked(s, g),
{
}

/// No transition leaves `[*]`: the pseudo state is never a source.
pub proof fn lemma_model_sources(lines: Seq<Seq<char>>, s: Seq<char>, x: Seq<char>)
    requires
        model_of_lines(lines).edges.contains((s, x)),
    ensures
        s != end_marker(),
    decreases lines.len(),
{
    if lines.len() > 0 {
        let m = model_of_lines(lines.drop_last());
        let n = model_of_lines(lines);
        let j = choose|j: int| 0 <= j < n.edges.len() && n.edges[j] == (s, x);
        if j < m.edges.len() {
            assert(m.edges[j] == n.edges[j]);
            lemma_model_sources(lines.drop_last(), s, x);
        }
    }
}

/// A state that reaches the end has somewhere to go: it is never stale.
proof fn lemma_reaching_state_has_targets(content: Seq<char>, g: FlowView, s: Seq<char>)
    requires
        parsed(content, g),
        reaches_end(g.edges, g.terminal, s),
    ensures
        targets(g.edges, s).len() > 0,
        s != end_marker(),
{
    let p = choose|p: Seq<Seq<char>>|
        #[trigger] is_walk(g.edges, p) && p.len() >= 1 && p[0] == s && g.terminal.contains(
            p.last(),
        );
    let x = if p.len() == 1 {
        law_terminal_iff_exit(content, g, s);
        end_marker()
    } else {
        assert(step_ok(g.edges, p, 0));
        p[1]
    };
    lemma_targets_edges(g.edges, s, x);
    lemma_model_sources(crate::text::split_char(content, '\n'), s, x);
}

/// A fresh session of a parsed flow blocks on its first item: the initial state is a
/// real state with somewhere to go, for `reset = "session"` and `reset = "always"` alike.
pub proof fn law_fresh_session_blocks(content: Seq<char>, g: FlowView, checklist: Seq<char>)
    requires
        parsed(content, g),
    ensures
        g.initial[0] != end_marker(),
        targets(g.edges, g.initial[0]).len() > 0,
        blocked(fresh_session(checklist, g.initial[0]), g).visited.len() == 0,
        blocked(fresh_session(checklist, g.initial[0]), g).current == g.initial[0],
        blocked(fresh_session(checklist, g.initial[0]), g).transitions == targets(
            g.edges,
            g.initial[0],
        ),
{
    law_initial_first_in_order(content, g);
    assert(g.initial.contains(g.initial[0]));
    law_every_state_finishes(content, g, g.initial[0]);
    lemma_reaching_state_has_targets(content, g, g.initial[0]);
}

/// A state of a parsed flow never goes stale while the flow stays the same: every state
/// listed in `order` has a transition.
pub proof fn law_listed_states_not_stale(content: Seq<char>, g: FlowView, s: Seq<char>)
    requires
        parsed(content, g),
        g.order.contains(s),
    ensures
        targets(g.edges, s).len() > 0,
        s != end_marker(),
{
    law_every_state_finishes(content, g, s);
    lemma_reaching_state_has_targets(content, g, s);
}

/// `[*]` is never a real state: it is not among the states of a parsed flow.
pub proof fn law_order_excludes_end(content: Seq<char>, g: FlowView)
    requires
        parsed(content, g),
    ensures
        !g.order.contains(end_marker()),
{
    if g.order.contains(end_marker()) {
        law_listed_states_not_stale(content, g, end_marker());
    }
}

/// What the session has been through: its acknowledged items, then its current one.
pub open spec fn history(s: SessionView) -> Seq<Seq<char>> {
    s.visited.push(s.current)
}

/// The session has followed the flow: its history starts at the flow's first initial state
/// and each item leads to the next by a transition.
pub open spec fn followed_flow(g: FlowView, s: SessionView) -> bool {
    &&& history(s)[0] == g.initial[0]
    &&& forall|k: int|
        0 <= k < s.visited.len() ==> g.edges.contains((#[trigger] history(s)[k], history(s)[k + 1]))
}

/// A fresh session has followed the flow: it stands on the first initial state.
pub proof fn law_fresh_session_followed(g: FlowView, checklist: Seq<char>)
    ensures
        followed_flow(g, fresh_session(checklist, g.initial[0])),
{
    assert(history(fresh_session(checklist, g.initial[0])) =~= seq![g.initial[0]]);
}

/// Blocking and then acknowledging (as `ack.sh` does, with any argument) keeps a session on
/// the flow: an acknowledgment only moves along a transition of the current item.
pub proof fn law_ack_follows_flow(g: FlowView, s: SessionView, arg: Option<Seq<char>>)
    requires
        followed_flow(g, s),
    ensures
        followed_flow(g, blocked(s, g)),
        followed_flow(g, acknowledged(blocked(s, g), arg)),
{
    let b = blocked(s, g);
    assert(history(b) == history(s));
    let a = acknowledged(b, arg);
    if a != b {
        let n = a.current;
        assert(b.transitions.contains(n));
        lemma_targets_edges(g.edges, s.current, n);
        assert(history(a) =~= history(s).push(n));
        assert forall|k: int| 0 <= k < a.visited.len() implies g.edges.contains(
            (#[trigger] history(a)[k], history(a)[k + 1]),
        ) by {
            if k < s.visited.len() {
                assert(history(a)[k] == history(s)[k]);
                assert(history(a)[k + 1] == history(s)[k + 1]);
            } else {
                assert(history(a)[k] == s.current);
            }
        }
    }
}

/// A session of a parsed flow is approved only at `[*]`, and a session that followed the
/// flow reaches `[*]` only after acknowledging a walk of items from the first initial
/// state to one that exits to `[*]`.
pub proof fn law_approval_after_every_item(content: Seq<char>, g: FlowView, s: SessionView)
    requires
        parsed(content, g),
        followed_flow(g, s),
        s.current == end_marker(),
    ensures
        s.visited.len() >= 1,
        s.visited[0] == g.initial[0],
        forall|k: int|
            0 <= k < s.visited.len() - 1 ==> g.edges.contains(
                (#[trigger] s.visited[k], s.visited[k + 1]),
            ),
        g.edges.contains((s.visited.last(), end_marker())),
{
    law_fresh_session_blocks(content, g, seq![]);
    if s.visited.len() == 0 {
        assert(history(s)[0] == s.current);
    }
    assert forall|k: int| 0 <= k < s.visited.len() - 1 implies g.edges.contains(
        (#[trigger] s.visited[k], s.visited[k + 1]),
    ) by {
        assert(g.edges.contains((history(s)[k], history(s)[k + 1])));
    }
    let l = s.visited.len() - 1;
    assert(g.edges.contains((history(s)[l], history(s)[l + 1])));
    assert(history(s)[0] == s.visited[0]);
}

/// A blocked session stores the ways on from its current item, and an auto-advance target
/// exactly when there is a single way on, that one.
pub proof fn law_blocked_advances_only_on_single_way(s: SessionView, g: FlowView)
    ensures
        blocked(s, g).transitions == targets(g.edges, s.current),
        blocked(s, g).next is Some <==> targets(g.edges, s.current).len() == 1,
        blocked(s, g).next is Some ==> blocked(s, g).next->0 == targets(g.edges, s.current)[0],
        blocked(s, g).current == s.current,
        blocked(s, g).visited == s.visited,
{
}

/// The option line for a single way on `n`: the command that acknowledges towards it,
/// and its label, or its own name when it has none.
pub proof fn law_option_line(ack: Seq<char>, n: Seq<char>, labels: Seq<(Seq<char>, Seq<char>)>)
    ensures
        option_lines(ack, seq![n], labels) == "  sh "@ + ack + " "@ + n + "   — "@ + (match label_of(
            labels,
            n,
        ) {
            Some(l) => l,
            None => n,
        }) + "\n"@,
{
    assert(seq![n].drop_last() =~= Seq::<Seq<char>>::empty());
    assert(option_lines(ack, Seq::<Seq<char>>::empty(), labels) == Seq::<char>::empty());
    let line = "  sh "@ + ack + " "@ + n + "   — "@ + crate::gate::label_or_name(labels, n) + "\n"@;
    assert(Seq::<char>::empty() + line =~= line);
}

/// The options for several ways on are the options for each, in order.
pub proof fn law_option_lines_concat(
    ack: Seq<char>,
    a: Seq<Seq<char>>,
    b: Seq<Seq<char>>,
    labels: Seq<(Seq<char>, Seq<char>)>,
)
    ensures
        option_lines(ack, a + b, labels) == option_lines(ack, a, labels) + option_lines(
            ack,
            b,
            labels,
        ),
    decreases b.len(),
{
    if b.len() == 0 {
        assert(a + b =~= a);
        assert(option_lines(ack, a, labels) + Seq::<char>::empty() =~= option_lines(
            ack,
            a,
            labels,
        ));
    } else {
        law_option_lines_concat(ack, a, b.drop_last(), labels);
        assert((a + b).drop_last() =~= a + b.drop_last());
        assert((a + b).last() == b.last());
        let line = "  sh "@ + ack + " "@ + b.last() + "   — "@ + crate::gate::label_or_name(
            labels,
            b.last(),
        ) + "\n"@;
        assert(option_lines(ack, a + b, labels) == option_lines(ack, a + b.drop_last(), labels)
            + line);
        assert(option_lines(ack, b, labels) == option_lines(ack, b.drop_last(), labels) + line);
        assert(option_lines(ack, a, labels) + option_lines(ack, b.drop_last(), labels) + line
            =~= option_lines(ack, a, labels) + (option_lines(ack, b.drop_last(), labels) + line));
    }
}

/// The ways on shown as options are the stored ones without `[*]`, in order: `[*]` is left
/// out and every other state is kept.
pub proof fn law_without_end(a: Seq<Seq<char>>, b: Seq<Seq<char>>, x: Seq<char>)
    ensures
        without_end(a + b) == without_end(a) + without_end(b),
        without_end(seq![x]) == (if x == end_marker() {
            Seq::<Seq<char>>::empty()
        } else {
            seq![x]
        }),
    decreases b.len(),
{
    let none = Seq::<Seq<char>>::empty();
    assert(seq![x].drop_last() =~= none);
    assert(seq![x].last() == x);
    assert(without_end(none) == none);
    assert(none.push(x) =~= seq![x]);
    if b.len() == 0 {
        assert(a + b =~= a);
        assert(without_end(a) + without_end(b) =~= without_end(a));
    } else {
        law_without_end(a, b.drop_last(), x);
        assert((a + b).drop_last() =~= a + b.drop_last());
        assert((a + b).last() == b.last());
        assert((without_end(a) + without_end(b.drop_last())).push(b.last()) =~= without_end(a)
            + without_end(b.drop_last()).push(b.last()));
    }
}

} // verus!
