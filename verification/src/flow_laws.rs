//! What holds of every flow that `parse_mmd` accepts.
use vstd::prelude::*;
use crate::flow::{
    append_new, apply_line, bfs_order, bfs_run, edge_targets, end_marker, is_walk,
    model_of_lines, mmd_model, parse_spec, reaches_end, step_ok, succ, targets, unvisited,
    first_stuck_from, label_of, FlowView, MmdModel,
};

verus! {

broadcast use vstd::seq_lib::group_seq_properties;

/// From some state entered from `[*]`, a walk leads to `s`.
pub open spec fn reachable(
    edges: Seq<(Seq<char>, Seq<char>)>,
    initial: Seq<Seq<char>>,
    s: Seq<char>,
) -> bool {
    exists|p: Seq<Seq<char>>|
        #[trigger] is_walk(edges, p) && p.len() >= 1 && initial.contains(p[0]) && p.last() == s
}

/// The states that may appear in a breadth-first order.
pub open spec fn universe(edges: Seq<(Seq<char>, Seq<char>)>, initial: Seq<Seq<char>>) -> Seq<
    Seq<char>,
> {
    initial + edge_targets(edges)
}

/// What holds at each step of the breadth-first search.
pub open spec fn bfs_inv(
    edges: Seq<(Seq<char>, Seq<char>)>,
    initial: Seq<Seq<char>>,
    o: Seq<Seq<char>>,
    i: nat,
) -> bool {
    &&& o.no_duplicates()
    &&& forall|k: int| 0 <= k < o.len() ==> universe(edges, initial).contains(#[trigger] o[k])
    &&& forall|k: int| 0 <= k < o.len() ==> reachable(edges, initial, #[trigger] o[k])
    &&& i <= o.len()
    &&& initial.len() <= o.len()
    &&& o.take(initial.len() as int) == initial
    &&& forall|k: int, x: Seq<char>|
        0 <= k < i && #[trigger] succ(edges, o[k]).contains(x) ==> #[trigger] o.contains(x)
}

// ───────────────────────────── pieces ─────────────────────────────

/// `succ` yields targets of transitions to real states.
pub proof fn lemma_succ_edges(edges: Seq<(Seq<char>, Seq<char>)>, s: Seq<char>, x: Seq<char>)
    requires
        succ(edges, s).contains(x),
    ensures
        edges.contains((s, x)),
        x != end_marker(),
        edge_targets(edges).contains(x),
    decreases edges.len(),
{
    if edges.len() > 0 {
        let rest = succ(edges.drop_last(), s);
        if rest.contains(x) {
            lemma_succ_edges(edges.drop_last(), s, x);
            let j = choose|j: int|
                0 <= j < edges.drop_last().len() && edges.drop_last()[j] == (s, x);
            assert(edges[j] == (s, x));
            let j2 = choose|j2: int|
                0 <= j2 < edge_targets(edges.drop_last()).len() && edge_targets(
                    edges.drop_last(),
                )[j2] == x;
            assert(edge_targets(edges)[j2] == x);
        } else {
            assert(edges.last() == (s, x));
            assert(edges[edges.len() - 1] == (s, x));
            assert(edge_targets(edges)[edges.len() - 1] == x);
        }
    }
}

/// `succ` never yields `[*]`.
pub proof fn lemma_succ_no_end(edges: Seq<(Seq<char>, Seq<char>)>, s: Seq<char>)
    ensures
        !succ(edges, s).contains(end_marker()),
{
    if succ(edges, s).contains(end_marker()) {
        lemma_succ_edges(edges, s, end_marker());
    }
}

/// What `append_new` keeps and adds.
pub proof fn lemma_append_new(o: Seq<Seq<char>>, ts: Seq<Seq<char>>)
    ensures
        o.len() <= append_new(o, ts).len(),
        append_new(o, ts).take(o.len() as int) == o,
        forall|x: Seq<char>| #[trigger] ts.contains(x) ==> append_new(o, ts).contains(x),
        forall|k: int|
            0 <= k < append_new(o, ts).len() ==> o.contains(#[trigger] append_new(o, ts)[k])
                || ts.contains(append_new(o, ts)[k]),
        o.no_duplicates() ==> append_new(o, ts).no_duplicates(),
    decreases ts.len(),
{
    if ts.len() > 0 {
        let p = ts.drop_last();
        lemma_append_new(o, p);
        let a = append_new(o, p);
        let r = append_new(o, ts);
        if !a.contains(ts.last()) {
            assert(r == a.push(ts.last()));
            assert(r.take(o.len() as int) =~= a.take(o.len() as int));
            assert forall|k: int| 0 <= k < r.len() implies o.contains(#[trigger] r[k])
                || ts.contains(r[k]) by {
                if k < a.len() {
                    assert(r[k] == a[k]);
                    if p.contains(a[k]) {
                        let j = choose|j: int| 0 <= j < p.len() && p[j] == a[k];
                        assert(ts[j] == a[k]);
                    }
                } else {
                    assert(ts[ts.len() - 1] == r[k]);
                }
            }
            if o.no_duplicates() {
                assert forall|x: int, y: int|
                    0 <= x < r.len() && 0 <= y < r.len() && x != y implies r[x] != r[y] by {
                    if x < a.len() && y < a.len() {
                        assert(r[x] == a[x] && r[y] == a[y]);
                    } else if x < a.len() {
                        assert(a.contains(r[x]));
                    } else {
                        assert(a.contains(r[y]));
                    }
                }
            }
        } else {
            assert forall|k: int| 0 <= k < r.len() implies o.contains(#[trigger] r[k])
                || ts.contains(r[k]) by {
                if p.contains(r[k]) {
                    let j = choose|j: int| 0 <= j < p.len() && p[j] == r[k];
                    assert(ts[j] == r[k]);
                }
            }
        }
        assert forall|x: Seq<char>| #[trigger] ts.contains(x) implies r.contains(x) by {
            let j = choose|j: int| 0 <= j < ts.len() && ts[j] == x;
            if j < p.len() {
                assert(p[j] == x);
                assert(p.contains(x));
                assert(a.contains(x));
                let m = choose|m: int| 0 <= m < a.len() && a[m] == x;
                if !a.contains(ts.last()) {
                    assert(r[m] == x);
                }
            } else if !a.contains(ts.last()) {
                assert(r[a.len() as int] == x);
            }
        }
    }
}

/// A walk to `s` followed by a transition from `s` to `x` is a walk to `x`.
pub proof fn lemma_walk_extend(
    edges: Seq<(Seq<char>, Seq<char>)>,
    initial: Seq<Seq<char>>,
    s: Seq<char>,
    x: Seq<char>,
)
    requires
        reachable(edges, initial, s),
        edges.contains((s, x)),
        x != end_marker(),
    ensures
        reachable(edges, initial, x),
{
    let p = choose|p: Seq<Seq<char>>|
        #[trigger] is_walk(edges, p) && p.len() >= 1 && initial.contains(p[0]) && p.last() == s;
    let q = p.push(x);
    assert forall|k: int| 0 <= k < q.len() - 1 implies #[trigger] step_ok(edges, q, k) by {
        if k < p.len() - 1 {
            assert(step_ok(edges, p, k));
            assert(q[k] == p[k] && q[k + 1] == p[k + 1]);
        } else {
            assert(q[k] == s && q[k + 1] == x);
        }
    }
    assert(q[0] == p[0]);
    assert(is_walk(edges, q));
}

/// One step of the search keeps its invariant.
pub proof fn lemma_bfs_step(
    edges: Seq<(Seq<char>, Seq<char>)>,
    initial: Seq<Seq<char>>,
    o: Seq<Seq<char>>,
    i: nat,
)
    requires
        bfs_inv(edges, initial, o, i),
        i < o.len(),
    ensures
        bfs_inv(edges, initial, append_new(o, succ(edges, o[i as int])), i + 1),
{
    let ts = succ(edges, o[i as int]);
    let r = append_new(o, ts);
    lemma_append_new(o, ts);
    assert(r.take(initial.len() as int) =~= o.take(initial.len() as int));
    assert forall|k: int| 0 <= k < r.len() implies universe(edges, initial).contains(
        #[trigger] r[k],
    ) && reachable(edges, initial, r[k]) by {
        if o.contains(r[k]) {
            let m = choose|m: int| 0 <= m < o.len() && o[m] == r[k];
            assert(universe(edges, initial).contains(o[m]));
            assert(reachable(edges, initial, o[m]));
        } else {
            assert(ts.contains(r[k]));
            lemma_succ_edges(edges, o[i as int], r[k]);
            let j = choose|j: int|
                0 <= j < edge_targets(edges).len() && edge_targets(edges)[j] == r[k];
            assert(universe(edges, initial)[initial.len() + j] == r[k]);
            assert(reachable(edges, initial, o[i as int]));
            lemma_walk_extend(edges, initial, o[i as int], r[k]);
        }
    }
    assert forall|k: int, x: Seq<char>|
        0 <= k < i + 1 && #[trigger] succ(edges, r[k]).contains(x) implies #[trigger] r.contains(
        x,
    ) by {
        assert(r[k] == o[k]) by {
            assert(r.take(o.len() as int)[k] == o[k]);
        }
        if k < i {
            assert(o.contains(x));
            let m = choose|m: int| 0 <= m < o.len() && o[m] == x;
            assert(r.take(o.len() as int)[m] == x);
        }
    }
}

/// The whole search keeps its invariant, and ends within its fuel.
pub proof fn lemma_bfs_run(
    edges: Seq<(Seq<char>, Seq<char>)>,
    initial: Seq<Seq<char>>,
    o: Seq<Seq<char>>,
    i: nat,
    fuel: nat,
)
    requires
        bfs_inv(edges, initial, o, i),
    ensures
        bfs_inv(edges, initial, bfs_run(edges, o, i, fuel).0, bfs_run(edges, o, i, fuel).1),
        i + fuel >= universe(edges, initial).len() ==> bfs_run(edges, o, i, fuel).1 == bfs_run(
            edges,
            o,
            i,
            fuel,
        ).0.len(),
    decreases fuel,
{
    crate::flow::lemma_distinct_within(o, universe(edges, initial));
    if fuel == 0 || i >= o.len() {
    } else {
        lemma_bfs_step(edges, initial, o, i);
        lemma_bfs_run(
            edges,
            initial,
            append_new(o, succ(edges, o[i as int])),
            i + 1,
            (fuel - 1) as nat,
        );
    }
}

/// The start of the search satisfies its invariant.
pub proof fn lemma_bfs_start(edges: Seq<(Seq<char>, Seq<char>)>, initial: Seq<Seq<char>>)
    requires
        initial.no_duplicates(),
    ensures
        bfs_inv(edges, initial, initial, 0),
{
    assert(initial.take(initial.len() as int) =~= initial);
    assert forall|k: int| 0 <= k < initial.len() implies universe(edges, initial).contains(
        #[trigger] initial[k],
    ) && reachable(edges, initial, initial[k]) by {
        assert(universe(edges, initial)[k] == initial[k]);
        let p = seq![initial[k]];
        assert(is_walk(edges, p));
    }
}

/// The states entered from `[*]` are listed once each.
pub proof fn lemma_model_initial_distinct(lines: Seq<Seq<char>>)
    ensures
        model_of_lines(lines).initial.no_duplicates(),
    decreases lines.len(),
{
    if lines.len() > 0 {
        lemma_model_initial_distinct(lines.drop_last());
        let m = model_of_lines(lines.drop_last());
        let n = model_of_lines(lines);
        if n.initial != m.initial {
            assert forall|x: int, y: int|
                0 <= x < n.initial.len() && 0 <= y < n.initial.len() && x != y implies n.initial[x]
                != n.initial[y] by {
                if x < m.initial.len() && y < m.initial.len() {
                } else if x < m.initial.len() {
                    assert(m.initial.contains(m.initial[x]));
                } else {
                    assert(m.initial.contains(m.initial[y]));
                }
            }
        }
    }
}

/// A state is terminal exactly when it has a transition to `[*]`.
pub proof fn lemma_model_terminal(lines: Seq<Seq<char>>, s: Seq<char>)
    ensures
        model_of_lines(lines).terminal.contains(s) <==> model_of_lines(lines).edges.contains(
            (s, end_marker()),
        ),
    decreases lines.len(),
{
    if lines.len() > 0 {
        lemma_model_terminal(lines.drop_last(), s);
        let m = model_of_lines(lines.drop_last());
        let n = model_of_lines(lines);
        if n.terminal.contains(s) && !m.terminal.contains(s) {
            assert(n.terminal.last() == s);
            assert(n.edges.last() == (s, end_marker()));
            assert(n.edges[n.edges.len() - 1] == (s, end_marker()));
        }
        if n.edges.contains((s, end_marker())) && !m.edges.contains((s, end_marker())) {
            let j = choose|j: int| 0 <= j < n.edges.len() && n.edges[j] == (s, end_marker());
            if j < m.edges.len() {
                assert(m.edges[j] == n.edges[j]);
            }
            assert(n.terminal[n.terminal.len() - 1] == s);
        }
        if m.terminal.contains(s) {
            let j = choose|j: int| 0 <= j < m.terminal.len() && m.terminal[j] == s;
            assert(n.terminal[j] == s);
        }
        if m.edges.contains((s, end_marker())) {
            let j = choose|j: int| 0 <= j < m.edges.len() && m.edges[j] == (s, end_marker());
            assert(n.edges[j] == (s, end_marker()));
        }
    }
}

/// The parse of `content` succeeded with `g`.
pub open spec fn parsed(content: Seq<char>, g: FlowView) -> bool {
    parse_spec(content) == Ok::<FlowView, Seq<char>>(g)
}

/// A list without repeats is its own list without repeats.
pub proof fn lemma_append_new_distinct(s: Seq<Seq<char>>)
    requires
        s.no_duplicates(),
    ensures
        append_new(seq![], s) == s,
    decreases s.len(),
{
    if s.len() > 0 {
        lemma_append_new_distinct(s.drop_last());
        assert(!s.drop_last().contains(s.last()));
        assert(s.drop_last().push(s.last()) =~= s);
    }
}

/// The search behind a parsed flow ends with its invariant.
proof fn lemma_parsed_bfs(content: Seq<char>, g: FlowView)
    requires
        parsed(content, g),
    ensures
        bfs_inv(g.edges, g.initial, g.order, g.order.len()),
{
    lemma_model_bfs(content);
}

/// The search over the model of any diagram ends with its invariant.
proof fn lemma_model_bfs(content: Seq<char>)
    ensures
        bfs_inv(
            mmd_model(content).edges,
            mmd_model(content).initial,
            bfs_order(mmd_model(content).edges, mmd_model(content).initial),
            bfs_order(mmd_model(content).edges, mmd_model(content).initial).len(),
        ),
{
    let m = mmd_model(content);
    lemma_model_initial_distinct(crate::text::split_char(content, '\n'));
    lemma_append_new_distinct(m.initial);
    lemma_bfs_start(m.edges, m.initial);
    lemma_bfs_run(m.edges, m.initial, m.initial, 0, m.initial.len() + m.edges.len());
}

// ───────────────────────────── laws ─────────────────────────────

/// A parsed flow lists its initial states first, in order, in `order`.
pub proof fn law_initial_first_in_order(content: Seq<char>, g: FlowView)
    requires
        parsed(content, g),
    ensures
        g.initial.len() >= 1,
        g.initial.len() <= g.order.len(),
        g.order.take(g.initial.len() as int) == g.initial,
        forall|s: Seq<char>| g.initial.contains(s) ==> g.order.contains(s),
{
    lemma_parsed_bfs(content, g);
    assert forall|s: Seq<char>| g.initial.contains(s) implies g.order.contains(s) by {
        let k = choose|k: int| 0 <= k < g.initial.len() && g.initial[k] == s;
        assert(g.order.take(g.initial.len() as int)[k] == s);
    }
}

/// A parsed flow lists each state once in `order`.
pub proof fn law_order_distinct(content: Seq<char>, g: FlowView)
    requires
        parsed(content, g),
    ensures
        g.order.no_duplicates(),
{
    lemma_parsed_bfs(content, g);
}

/// `order` holds exactly the states that can be reached from `[*]`.
pub proof fn law_order_is_reachable_set(content: Seq<char>, g: FlowView, s: Seq<char>)
    requires
        parsed(content, g),
    ensures
        g.order.contains(s) <==> reachable(g.edges, g.initial, s),
{
    lemma_parsed_bfs(content, g);
    law_initial_first_in_order(content, g);
    if g.order.contains(s) {
        let k = choose|k: int| 0 <= k < g.order.len() && g.order[k] == s;
    }
    if reachable(g.edges, g.initial, s) {
        let p = choose|p: Seq<Seq<char>>|
            #[trigger] is_walk(g.edges, p) && p.len() >= 1 && g.initial.contains(p[0]) && p.last()
                == s;
        lemma_walk_in_order(g, p, p.len() - 1);
    }
}

/// Along a walk from an initial state, every state is in `order`.
proof fn lemma_walk_in_order(g: FlowView, p: Seq<Seq<char>>, n: int)
    requires
        bfs_inv(g.edges, g.initial, g.order, g.order.len()),
        forall|s: Seq<char>| g.initial.contains(s) ==> g.order.contains(s),
        is_walk(g.edges, p),
        p.len() >= 1,
        g.initial.contains(p[0]),
        0 <= n < p.len(),
    ensures
        g.order.contains(p[n]),
    decreases n,
{
    if n > 0 {
        lemma_walk_in_order(g, p, n - 1);
        assert(step_ok(g.edges, p, n - 1));
        let k = choose|k: int| 0 <= k < g.order.len() && g.order[k] == p[n - 1];
        lemma_edge_in_succ(g.edges, p[n - 1], p[n]);
        assert(succ(g.edges, g.order[k]).contains(p[n]));
    }
}

/// A transition to a real state shows up in `succ`.
pub proof fn lemma_edge_in_succ(edges: Seq<(Seq<char>, Seq<char>)>, s: Seq<char>, x: Seq<char>)
    requires
        edges.contains((s, x)),
        x != end_marker(),
    ensures
        succ(edges, s).contains(x),
    decreases edges.len(),
{
    if edges.last() == (s, x) {
        assert(succ(edges, s).last() == x);
    } else {
        let j = choose|j: int| 0 <= j < edges.len() && edges[j] == (s, x);
        assert(edges.drop_last()[j] == (s, x));
        lemma_edge_in_succ(edges.drop_last(), s, x);
        let r = succ(edges.drop_last(), s);
        let m = choose|m: int| 0 <= m < r.len() && r[m] == x;
        assert(succ(edges, s)[m] == x);
    }
}

/// Every next state of a state in `order` is in `order` too.
pub proof fn law_order_closed(content: Seq<char>, g: FlowView, s: Seq<char>, x: Seq<char>)
    requires
        parsed(content, g),
        g.order.contains(s),
        succ(g.edges, s).contains(x),
    ensures
        g.order.contains(x),
{
    lemma_parsed_bfs(content, g);
    let k = choose|k: int| 0 <= k < g.order.len() && g.order[k] == s;
}

/// Every state of a parsed flow has a path to `[*]`: no cycle without exit, no dead end.
pub proof fn law_every_state_finishes(content: Seq<char>, g: FlowView, s: Seq<char>)
    requires
        parsed(content, g),
        g.order.contains(s),
    ensures
        reaches_end(g.edges, g.terminal, s),
{
    let k = choose|k: int| 0 <= k < g.order.len() && g.order[k] == s;
    lemma_no_stuck(g.edges, g.terminal, g.order, 0, k);
}

/// Where no state from `from` on is stuck, the state at `k` reaches the end.
proof fn lemma_no_stuck(
    edges: Seq<(Seq<char>, Seq<char>)>,
    terminal: Seq<Seq<char>>,
    order: Seq<Seq<char>>,
    from: int,
    k: int,
)
    requires
        first_stuck_from(edges, terminal, order, from) is None,
        0 <= from <= k < order.len(),
    ensures
        reaches_end(edges, terminal, order[k]),
    decreases k - from,
{
    if from < k {
        lemma_no_stuck(edges, terminal, order, from + 1, k);
    }
}

/// In a parsed flow a state is terminal exactly when `[*]` is among its targets.
pub proof fn law_terminal_iff_exit(content: Seq<char>, g: FlowView, s: Seq<char>)
    requires
        parsed(content, g),
    ensures
        g.terminal.contains(s) <==> targets(g.edges, s).contains(end_marker()),
{
    lemma_model_terminal(crate::text::split_char(content, '\n'), s);
    lemma_targets_edges(g.edges, s, end_marker());
}

/// `x` is a target of `s` exactly when `(s, x)` is a transition.
pub proof fn lemma_targets_edges(edges: Seq<(Seq<char>, Seq<char>)>, s: Seq<char>, x: Seq<char>)
    ensures
        targets(edges, s).contains(x) <==> edges.contains((s, x)),
    decreases edges.len(),
{
    if edges.len() > 0 {
        lemma_targets_edges(edges.drop_last(), s, x);
        let r = targets(edges.drop_last(), s);
        if r.contains(x) {
            let m = choose|m: int| 0 <= m < r.len() && r[m] == x;
            assert(targets(edges, s)[m] == x);
            let j = choose|j: int| 0 <= j < edges.drop_last().len() && edges.drop_last()[j] == (s, x);
            assert(edges[j] == (s, x));
        }
        if edges.contains((s, x)) {
            let j = choose|j: int| 0 <= j < edges.len() && edges[j] == (s, x);
            if j < edges.len() - 1 {
                assert(edges.drop_last()[j] == (s, x));
            } else {
                assert(targets(edges, s).last() == x);
            }
        }
        if targets(edges, s).contains(x) && !r.contains(x) {
            assert(edges[edges.len() - 1] == (s, x));
        }
    }
}

/// The next states never include `[*]`.
pub proof fn law_next_states_exclude_end(edges: Seq<(Seq<char>, Seq<char>)>, s: Seq<char>)
    ensures
        !succ(edges, s).contains(end_marker()),
{
    lemma_succ_no_end(edges, s);
}

/// With nothing visited, every state of `order` is pending.
pub proof fn law_pending_none_visited(order: Seq<Seq<char>>)
    ensures
        unvisited(order, seq![]) == order,
    decreases order.len(),
{
    if order.len() > 0 {
        law_pending_none_visited(order.drop_last());
        assert(order.drop_last().push(order.last()) =~= order);
    }
}

/// With every state of `order` visited, nothing is pending.
pub proof fn law_pending_all_visited(order: Seq<Seq<char>>, visited: Seq<Seq<char>>)
    requires
        forall|k: int| 0 <= k < order.len() ==> visited.contains(#[trigger] order[k]),
    ensures
        unvisited(order, visited) == Seq::<Seq<char>>::empty(),
    decreases order.len(),
{
    if order.len() > 0 {
        assert(visited.contains(order[order.len() - 1]));
        law_pending_all_visited(order.drop_last(), visited);
    }
}

/// The pending states are the states of `order` not visited, in their order.
pub proof fn law_pending_members(order: Seq<Seq<char>>, visited: Seq<Seq<char>>, s: Seq<char>)
    ensures
        unvisited(order, visited).contains(s) <==> order.contains(s) && !visited.contains(s),
    decreases order.len(),
{
    if order.len() > 0 {
        law_pending_members(order.drop_last(), visited, s);
        let r = unvisited(order.drop_last(), visited);
        if r.contains(s) {
            let m = choose|m: int| 0 <= m < r.len() && r[m] == s;
            assert(unvisited(order, visited)[m] == s);
            let j = choose|j: int| 0 <= j < order.drop_last().len() && order.drop_last()[j] == s;
            assert(order[j] == s);
        }
        if order.contains(s) && !visited.contains(s) {
            let j = choose|j: int| 0 <= j < order.len() && order[j] == s;
            if j < order.len() - 1 {
                assert(order.drop_last()[j] == s);
            } else {
                assert(unvisited(order, visited).last() == s);
            }
        }
        if unvisited(order, visited).contains(s) && !r.contains(s) {
            assert(unvisited(order, visited).last() == s);
            assert(order[order.len() - 1] == s);
        }
    }
}

/// A parsed flow lists its initial and terminal states once each and gives each state at
/// most one label, as the set and map it stands for would.
pub proof fn law_parsed_flow_distinct(content: Seq<char>, g: FlowView)
    requires
        parsed(content, g),
    ensures
        g.distinct(),
{
    lemma_model_initial_distinct(crate::text::split_char(content, '\n'));
    crate::flow::lemma_model_distinct(crate::text::split_char(content, '\n'));
}

/// The first stuck position at or after `from`, when there is one, is a state of `order`
/// that cannot reach the end.
proof fn lemma_first_stuck_some(
    edges: Seq<(Seq<char>, Seq<char>)>,
    terminal: Seq<Seq<char>>,
    order: Seq<Seq<char>>,
    from: int,
)
    requires
        0 <= from,
        first_stuck_from(edges, terminal, order, from) is Some,
    ensures
        from <= first_stuck_from(edges, terminal, order, from)->0 < order.len(),
        !reaches_end(edges, terminal, order[first_stuck_from(edges, terminal, order, from)->0]),
    decreases order.len() - from,
{
    if from < order.len() && reaches_end(edges, terminal, order[from]) {
        lemma_first_stuck_some(edges, terminal, order, from + 1);
    }
}

/// A diagram parses exactly when it has a start and every state reachable from the start
/// has a way to the end.
pub proof fn law_parse_ok_iff(content: Seq<char>)
    ensures
        parse_spec(content) is Ok <==> mmd_model(content).initial.len() > 0 && forall|s: Seq<char>|
            reachable(mmd_model(content).edges, mmd_model(content).initial, s) ==> reaches_end(
                mmd_model(content).edges,
                mmd_model(content).terminal,
                s,
            ),
{
    let m = mmd_model(content);
    if m.initial.len() > 0 {
        let o = bfs_order(m.edges, m.initial);
        lemma_model_bfs(content);
        let g = FlowView {
            initial: m.initial,
            edges: m.edges,
            labels: m.labels,
            terminal: m.terminal,
            order: o,
        };
        assert forall|s: Seq<char>| m.initial.contains(s) implies o.contains(s) by {
            let k = choose|k: int| 0 <= k < m.initial.len() && m.initial[k] == s;
            assert(o.take(m.initial.len() as int)[k] == s);
        }
        if parse_spec(content) is Ok {
            assert(first_stuck_from(m.edges, m.terminal, o, 0) is None);
            assert forall|s: Seq<char>| reachable(m.edges, m.initial, s) implies reaches_end(
                m.edges,
                m.terminal,
                s,
            ) by {
                let p = choose|p: Seq<Seq<char>>|
                    #[trigger] is_walk(m.edges, p) && p.len() >= 1 && m.initial.contains(p[0])
                        && p.last() == s;
                lemma_walk_in_order(g, p, p.len() - 1);
                let k = choose|k: int| 0 <= k < o.len() && o[k] == s;
                lemma_no_stuck(m.edges, m.terminal, o, 0, k);
            }
        } else {
            assert(first_stuck_from(m.edges, m.terminal, o, 0) is Some);
            lemma_first_stuck_some(m.edges, m.terminal, o, 0);
            let k = first_stuck_from(m.edges, m.terminal, o, 0)->0;
            assert(reachable(m.edges, m.initial, o[k]));
        }
    }
}

/// The targets of `s` in two runs of transitions are those of the first, then those of the
/// second.
pub proof fn law_targets_concat(
    a: Seq<(Seq<char>, Seq<char>)>,
    b: Seq<(Seq<char>, Seq<char>)>,
    s: Seq<char>,
)
    ensures
        targets(a + b, s) == targets(a, s) + targets(b, s),
        succ(a + b, s) == succ(a, s) + succ(b, s),
    decreases b.len(),
{
    if b.len() == 0 {
        assert(a + b =~= a);
        assert(targets(a, s) + targets(b, s) =~= targets(a, s));
        assert(succ(a, s) + succ(b, s) =~= succ(a, s));
    } else {
        law_targets_concat(a, b.drop_last(), s);
        assert((a + b).drop_last() =~= a + b.drop_last());
        assert((a + b).last() == b.last());
        assert((targets(a, s) + targets(b.drop_last(), s)).push(b.last().1) =~= targets(a, s) + (
        targets(b.drop_last(), s).push(b.last().1)));
        assert((succ(a, s) + succ(b.drop_last(), s)).push(b.last().1) =~= succ(a, s) + (succ(
            b.drop_last(),
            s,
        ).push(b.last().1)));
    }
}

/// One transition `(x, y)` gives `s` the target `y` when it leaves `s`, and nothing
/// otherwise; its next states leave out `[*]`.
pub proof fn law_targets_single(x: Seq<char>, y: Seq<char>, s: Seq<char>)
    ensures
        targets(seq![(x, y)], s) == (if x == s {
            seq![y]
        } else {
            Seq::<Seq<char>>::empty()
        }),
        succ(seq![(x, y)], s) == (if x == s && y != end_marker() {
            seq![y]
        } else {
            Seq::<Seq<char>>::empty()
        }),
        targets(Seq::<(Seq<char>, Seq<char>)>::empty(), s) == Seq::<Seq<char>>::empty(),
{
    let e = seq![(x, y)];
    let none = Seq::<(Seq<char>, Seq<char>)>::empty();
    assert(e.drop_last() =~= none);
    assert(e.last() == (x, y));
    assert(targets(none, s) == Seq::<Seq<char>>::empty());
    assert(succ(none, s) == Seq::<Seq<char>>::empty());
    assert(targets(e, s) == (if x == s {
        Seq::<Seq<char>>::empty().push(y)
    } else {
        Seq::<Seq<char>>::empty()
    }));
    assert(succ(e, s) == (if x == s && y != end_marker() {
        Seq::<Seq<char>>::empty().push(y)
    } else {
        Seq::<Seq<char>>::empty()
    }));
    assert(Seq::<Seq<char>>::empty().push(y) =~= seq![y]);
}

/// The states of `a + b` not in `visited` are those of `a`, then those of `b`; a single
/// state is kept exactly when it was not visited.
pub proof fn law_unvisited_concat(a: Seq<Seq<char>>, b: Seq<Seq<char>>, visited: Seq<Seq<char>>)
    ensures
        unvisited(a + b, visited) == unvisited(a, visited) + unvisited(b, visited),
        forall|x: Seq<char>|
            #[trigger] unvisited(seq![x], visited) == (if visited.contains(x) {
                Seq::<Seq<char>>::empty()
            } else {
                seq![x]
            }),
    decreases b.len(),
{
    assert forall|x: Seq<char>|
        #[trigger] unvisited(seq![x], visited) == (if visited.contains(x) {
            Seq::<Seq<char>>::empty()
        } else {
            seq![x]
        }) by {
        let none = Seq::<Seq<char>>::empty();
        assert(seq![x].drop_last() =~= none);
        assert(seq![x].last() == x);
        assert(unvisited(none, visited) == none);
        assert(unvisited(seq![x], visited) == (if visited.contains(x) {
            none
        } else {
            none.push(x)
        }));
        assert(none.push(x) =~= seq![x]);
    }
    if b.len() == 0 {
        assert(a + b =~= a);
        assert(unvisited(a, visited) + unvisited(b, visited) =~= unvisited(a, visited));
    } else {
        law_unvisited_concat(a, b.drop_last(), visited);
        assert((a + b).drop_last() =~= a + b.drop_last());
        assert((a + b).last() == b.last());
        assert((unvisited(a, visited) + unvisited(b.drop_last(), visited)).push(b.last())
            =~= unvisited(a, visited) + unvisited(b.drop_last(), visited).push(b.last()));
    }
}

/// The label of `s` is the label of the last entry for `s`, and there is none exactly when
/// no entry is for `s`.
pub proof fn law_label_of_last_entry(labels: Seq<(Seq<char>, Seq<char>)>, s: Seq<char>)
    ensures
        match label_of(labels, s) {
            Some(l) => exists|i: int|
                0 <= i < labels.len() && #[trigger] labels[i] == (s, l) && forall|j: int|
                    i < j < labels.len() ==> (#[trigger] labels[j]).0 != s,
            None => forall|i: int| 0 <= i < labels.len() ==> (#[trigger] labels[i]).0 != s,
        },
    decreases labels.len(),
{
    if labels.len() > 0 {
        let d = labels.drop_last();
        law_label_of_last_entry(d, s);
        let n = labels.len() - 1;
        if labels.last().0 == s {
            assert(labels[n] == (s, labels.last().1));
        } else {
            match label_of(d, s) {
                Some(l) => {
                    let i = choose|i: int|
                        0 <= i < d.len() && #[trigger] d[i] == (s, l) && forall|j: int|
                            i < j < d.len() ==> (#[trigger] d[j]).0 != s;
                    assert(labels[i] == d[i]);
                    assert forall|j: int| i < j < labels.len() implies (
                    #[trigger] labels[j]).0 != s by {
                        if j < n {
                            assert(labels[j] == d[j]);
                        }
                    }
                },
                None => {
                    assert forall|i: int| 0 <= i < labels.len() implies (
                    #[trigger] labels[i]).0 != s by {
                        if i < n {
                            assert(labels[i] == d[i]);
                        }
                    }
                },
            }
        }
    }
}

} // verus!
