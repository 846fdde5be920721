//! Checklist flows: Mermaid `stateDiagram-v2` diagrams parsed into a [`FlowGraph`].
//!
//! Only two constructs carry meaning: transitions `X --> Y` (with `[*]` marking the
//! start and the end) and labels `X : text`. A parsed flow lists its states in
//! breadth-first order from the start, and every one of them has a way to the end.
use vstd::prelude::*;
use crate::error::SteplockError;
use crate::text::{
    find, find_in, is_whitespace, lemma_find_from_some, matches_at, split_char, split_once, starts_with, string_of, to_chars,
    trim, trim_bounds, views,
};

verus! {

broadcast use vstd::seq_lib::group_seq_properties;

// ───────────────────────────── the model ─────────────────────────────

/// The pseudo state `[*]`: the start and the end of a flow.
pub open spec fn end_marker() -> Seq<char> {
    "[*]"@
}

/// What the lines of a diagram have declared so far.
pub struct MmdModel {
    /// States entered from `[*]`, without repeats, in order of first appearance.
    pub initial: Seq<Seq<char>>,
    /// Transitions `(from, to)` in file order; `to` may be `[*]`.
    pub edges: Seq<(Seq<char>, Seq<char>)>,
    /// One label `(state, text)` per labelled state; a later label replaces an earlier one.
    pub labels: Seq<(Seq<char>, Seq<char>)>,
    /// States with a transition to `[*]`, each once.
    pub terminal: Seq<Seq<char>>,
}

/// The model of a diagram with no meaningful line.
pub open spec fn empty_model() -> MmdModel {
    MmdModel { initial: seq![], edges: seq![], labels: seq![], terminal: seq![] }
}

/// `labels` without the entries for `s`.
pub open spec fn without_key(labels: Seq<(Seq<char>, Seq<char>)>, s: Seq<char>) -> Seq<
    (Seq<char>, Seq<char>),
>
    decreases labels.len(),
{
    if labels.len() == 0 {
        seq![]
    } else {
        let rest = without_key(labels.drop_last(), s);
        if labels.last().0 == s {
            rest
        } else {
            rest.push(labels.last())
        }
    }
}

/// `labels` with `text` as the label of `s`, in place of any earlier one.
pub open spec fn put_label(labels: Seq<(Seq<char>, Seq<char>)>, s: Seq<char>, text: Seq<char>) -> Seq<
    (Seq<char>, Seq<char>),
> {
    without_key(labels, s).push((s, text))
}

/// No state has two entries in `labels`.
pub open spec fn keys_distinct(labels: Seq<(Seq<char>, Seq<char>)>) -> bool {
    forall|i: int, j: int| 0 <= i < j < labels.len() ==> labels[i].0 != labels[j].0
}

/// The effect of one line of a diagram.
pub open spec fn apply_line(m: MmdModel, line: Seq<char>) -> MmdModel {
    let t = trim(line);
    if t.len() == 0 || starts_with(t, "%%"@) || t == "stateDiagram-v2"@ {
        m
    } else {
        match split_once(t, "-->"@) {
            Some((l0, r0)) => {
                let l = trim(l0);
                let r = trim(r0);
                if l == end_marker() {
                    if m.initial.contains(r) {
                        m
                    } else {
                        MmdModel { initial: m.initial.push(r), ..m }
                    }
                } else if r == end_marker() {
                    MmdModel {
                        edges: m.edges.push((l, end_marker())),
                        terminal: if m.terminal.contains(l) {
                            m.terminal
                        } else {
                            m.terminal.push(l)
                        },
                        ..m
                    }
                } else {
                    MmdModel { edges: m.edges.push((l, r)), ..m }
                }
            },
            None => match split_once(t, ":"@) {
                Some((s, label)) => MmdModel { labels: put_label(m.labels, trim(s), trim(label)), ..m },
                None => m,
            },
        }
    }
}

/// The effect of a sequence of lines, applied in order.
pub open spec fn model_of_lines(lines: Seq<Seq<char>>) -> MmdModel
    decreases lines.len(),
{
    if lines.len() == 0 {
        empty_model()
    } else {
        apply_line(model_of_lines(lines.drop_last()), lines.last())
    }
}

/// The declarations of a whole diagram, read line by line.
pub open spec fn mmd_model(content: Seq<char>) -> MmdModel {
    model_of_lines(split_char(content, '\n'))
}

/// Targets of the transitions leaving `s`, in file order, `[*]` included.
pub open spec fn targets(edges: Seq<(Seq<char>, Seq<char>)>, s: Seq<char>) -> Seq<Seq<char>>
    decreases edges.len(),
{
    if edges.len() == 0 {
        seq![]
    } else {
        let rest = targets(edges.drop_last(), s);
        if edges.last().0 == s {
            rest.push(edges.last().1)
        } else {
            rest
        }
    }
}

/// Targets of the transitions leaving `s`, in file order, without `[*]`.
pub open spec fn succ(edges: Seq<(Seq<char>, Seq<char>)>, s: Seq<char>) -> Seq<Seq<char>>
    decreases edges.len(),
{
    if edges.len() == 0 {
        seq![]
    } else {
        let rest = succ(edges.drop_last(), s);
        if edges.last().0 == s && edges.last().1 != end_marker() {
            rest.push(edges.last().1)
        } else {
            rest
        }
    }
}

/// The label of `s`: the last entry for it.
pub open spec fn label_of(labels: Seq<(Seq<char>, Seq<char>)>, s: Seq<char>) -> Option<Seq<char>>
    decreases labels.len(),
{
    if labels.len() == 0 {
        None
    } else if labels.last().0 == s {
        Some(labels.last().1)
    } else {
        label_of(labels.drop_last(), s)
    }
}

/// `order` followed by the states of `ts` that are not yet in it, in order.
pub open spec fn append_new(order: Seq<Seq<char>>, ts: Seq<Seq<char>>) -> Seq<Seq<char>>
    decreases ts.len(),
{
    if ts.len() == 0 {
        order
    } else {
        let o = append_new(order, ts.drop_last());
        if o.contains(ts.last()) {
            o
        } else {
            o.push(ts.last())
        }
    }
}

/// Breadth-first search: `order[..i]` has been expanded; `fuel` bounds the steps.
pub open spec fn bfs_run(
    edges: Seq<(Seq<char>, Seq<char>)>,
    order: Seq<Seq<char>>,
    i: nat,
    fuel: nat,
) -> (Seq<Seq<char>>, nat)
    decreases fuel,
{
    if fuel == 0 || i >= order.len() {
        (order, i)
    } else {
        bfs_run(edges, append_new(order, succ(edges, order[i as int])), i + 1, (fuel - 1) as nat)
    }
}

/// The states reachable from `initial`, in breadth-first order, starting from the states of
/// `initial` without repeats. The search takes at most one step per state, and there are
/// at most `initial.len() + edges.len()` states.
pub open spec fn bfs_order(edges: Seq<(Seq<char>, Seq<char>)>, initial: Seq<Seq<char>>) -> Seq<
    Seq<char>,
> {
    bfs_run(edges, append_new(seq![], initial), 0, initial.len() + edges.len()).0
}

/// Step `k` of the walk `p` is a transition to a real state.
pub open spec fn step_ok(edges: Seq<(Seq<char>, Seq<char>)>, p: Seq<Seq<char>>, k: int) -> bool {
    edges.contains((p[k], p[k + 1])) && p[k + 1] != end_marker()
}

/// `p` follows transitions between real states.
pub open spec fn is_walk(edges: Seq<(Seq<char>, Seq<char>)>, p: Seq<Seq<char>>) -> bool {
    forall|k: int| 0 <= k < p.len() - 1 ==> #[trigger] step_ok(edges, p, k)
}

/// From `s` some walk leads to a state with a transition to `[*]`.
pub open spec fn reaches_end(
    edges: Seq<(Seq<char>, Seq<char>)>,
    terminal: Seq<Seq<char>>,
    s: Seq<char>,
) -> bool {
    exists|p: Seq<Seq<char>>|
        #[trigger] is_walk(edges, p) && p.len() >= 1 && p[0] == s && terminal.contains(p.last())
}

/// The first position at or after `k` of a state of `order` that cannot reach the end.
pub open spec fn first_stuck_from(
    edges: Seq<(Seq<char>, Seq<char>)>,
    terminal: Seq<Seq<char>>,
    order: Seq<Seq<char>>,
    k: int,
) -> Option<int>
    decreases order.len() - k,
{
    if k < 0 || k >= order.len() {
        None
    } else if !reaches_end(edges, terminal, order[k]) {
        Some(k)
    } else {
        first_stuck_from(edges, terminal, order, k + 1)
    }
}

/// The message for a diagram without a start.
pub open spec fn no_initial_message() -> Seq<char> {
    "no [*] --> <state> initial transition found"@
}

/// The message for a state that cannot reach the end.
pub open spec fn stuck_message(state: Seq<char>) -> Seq<char> {
    "state '"@ + state + "' has no path to [*] — check for cycles or dead ends"@
}

/// The abstract content of a [`FlowGraph`].
pub struct FlowView {
    pub initial: Seq<Seq<char>>,
    pub edges: Seq<(Seq<char>, Seq<char>)>,
    pub labels: Seq<(Seq<char>, Seq<char>)>,
    pub terminal: Seq<Seq<char>>,
    pub order: Seq<Seq<char>>,
}

impl FlowView {
    /// Initial and terminal states are listed once each, and each state has at most one
    /// label: what the sets and maps of a flow hold.
    pub open spec fn distinct(&self) -> bool {
        &&& self.initial.no_duplicates()
        &&& self.terminal.no_duplicates()
        &&& keys_distinct(self.labels)
    }
}

/// What parsing `content` gives: the flow, or the description of the error.
pub open spec fn parse_spec(content: Seq<char>) -> Result<FlowView, Seq<char>> {
    let m = mmd_model(content);
    if m.initial.len() == 0 {
        Err(no_initial_message())
    } else {
        let order = bfs_order(m.edges, m.initial);
        match first_stuck_from(m.edges, m.terminal, order, 0) {
            Some(k) => Err(stuck_message(order[k])),
            None => Ok(
                FlowView {
                    initial: m.initial,
                    edges: m.edges,
                    labels: m.labels,
                    terminal: m.terminal,
                    order,
                },
            ),
        }
    }
}

/// The views of a sequence of pairs of strings.
pub open spec fn pair_views(v: Seq<(String, String)>) -> Seq<(Seq<char>, Seq<char>)> {
    v.map_values(|p: (String, String)| (p.0@, p.1@))
}

// ───────────────────────────── the types ─────────────────────────────

/// Outgoing transitions, kept as `(from, to)` pairs in file order.
/// States that go to `[*]` have `[*]` among their targets.
#[derive(Debug, Clone)]
pub struct Transitions {
    pub edges: Vec<(String, String)>,
}

/// Human-readable label per state: one entry per labelled state, the label declared last.
#[derive(Debug, Clone)]
pub struct Labels {
    pub entries: Vec<(String, String)>,
}

/// A set of state names, each listed once.
#[derive(Debug, Clone)]
pub struct StateSet {
    pub items: Vec<String>,
}

/// Parsed representation of a Mermaid `stateDiagram-v2` checklist flow.
#[derive(Debug, Clone)]
#[non_exhaustive]
pub struct FlowGraph {
    /// States reachable from `[*]` (the initial states).
    pub initial: Vec<String>,
    /// Outgoing transitions per state. States that go to `[*]` have `[*]` as a target.
    pub transitions: Transitions,
    /// Human-readable label per state.
    pub labels: Labels,
    /// States with a transition to `[*]` (terminal states).
    pub terminal: StateSet,
    /// Breadth-first order of the states reachable from the start (for preview output).
    pub order: Vec<String>,
}

impl View for FlowGraph {
    type V = FlowView;

    open spec fn view(&self) -> FlowView {
        FlowView {
            initial: views(self.initial@),
            edges: pair_views(self.transitions.edges@),
            labels: pair_views(self.labels.entries@),
            terminal: views(self.terminal.items@),
            order: views(self.order@),
        }
    }
}

/// The states of `order` that are not in `visited`, in order.
pub open spec fn unvisited(order: Seq<Seq<char>>, visited: Seq<Seq<char>>) -> Seq<Seq<char>>
    decreases order.len(),
{
    if order.len() == 0 {
        seq![]
    } else {
        let rest = unvisited(order.drop_last(), visited);
        if visited.contains(order.last()) {
            rest
        } else {
            rest.push(order.last())
        }
    }
}

// ───────────────────────────── helpers ─────────────────────────────

/// `s` occurs in `v`.
pub fn contains_string(v: &Vec<String>, s: &String) -> (b: bool)
    ensures
        b == views(v@).contains(s@),
{
    let mut i: usize = 0;
    while i < v.len()
        invariant
            i <= v.len(),
            forall|j: int| 0 <= j < i ==> v@[j]@ != s@,
        decreases v.len() - i,
    {
        if v[i] == *s {
            assert(views(v@)[i as int] == s@);
            return true;
        }
        i = i + 1;
    }
    assert(!views(v@).contains(s@)) by {
        if views(v@).contains(s@) {
            let j = choose|j: int| 0 <= j < views(v@).len() && views(v@)[j] == s@;
            assert(v@[j]@ == s@);
        }
    }
    false
}

/// The strings of `items` that are not in `exclude`, in order.
pub fn retain_absent(items: &[String], exclude: &[String]) -> (r: Vec<String>)
    ensures
        views(r@) == unvisited(views(items@), views(exclude@)),
{
    let mut r: Vec<String> = Vec::new();
    let mut i: usize = 0;
    while i < items.len()
        invariant
            i <= items.len(),
            views(r@) == unvisited(views(items@).take(i as int), views(exclude@)),
        decreases items.len() - i,
    {
        let ghost o = views(items@);
        assert(o.take(i + 1).drop_last() =~= o.take(i as int));
        let mut seen = false;
        let mut k: usize = 0;
        while k < exclude.len()
            invariant
                i < items.len(),
                k <= exclude.len(),
                seen == views(exclude@).take(k as int).contains(items@[i as int]@),
            decreases exclude.len() - k,
        {
            assert(views(exclude@).take(k + 1) =~= views(exclude@).take(k as int).push(
                exclude@[k as int]@,
            ));
            if exclude[k] == items[i] {
                seen = true;
            }
            k = k + 1;
        }
        assert(views(exclude@).take(k as int) =~= views(exclude@));
        if !seen {
            r.push(items[i].clone());
            assert(views(r@) =~= views(r@.drop_last()).push(r@.last()@));
        }
        i = i + 1;
    }
    assert(views(items@).take(i as int) =~= views(items@));
    r
}

impl Transitions {
    /// Targets of the transitions leaving `state`, in file order, `[*]` included.
    pub fn targets(&self, state: &str) -> (ts: Vec<String>)
        ensures
            views(ts@) == targets(pair_views(self.edges@), state@),
    {
        let st = state.to_owned();
        let mut ts: Vec<String> = Vec::new();
        let mut j: usize = 0;
        while j < self.edges.len()
            invariant
                j <= self.edges.len(),
                st@ == state@,
                views(ts@) == targets(pair_views(self.edges@).take(j as int), state@),
            decreases self.edges.len() - j,
        {
            let ghost e = pair_views(self.edges@);
            assert(e.take(j + 1).drop_last() =~= e.take(j as int));
            if self.edges[j].0 == st {
                ts.push(self.edges[j].1.clone());
                assert(views(ts@) =~= views(ts@.drop_last()).push(ts@.last()@));
            }
            j = j + 1;
        }
        assert(pair_views(self.edges@).take(j as int) =~= pair_views(self.edges@));
        ts
    }
}

impl Labels {
    /// The label of `key`.
    pub fn get(&self, key: &str) -> (r: Option<&String>)
        ensures
            match label_of(pair_views(self.entries@), key@) {
                Some(l) => r is Some && r->0@ == l,
                None => r is None,
            },
    {
        let k = key.to_owned();
        let mut j = self.entries.len();
        while j > 0
            invariant
                j <= self.entries.len(),
                k@ == key@,
                label_of(pair_views(self.entries@), key@) == label_of(
                    pair_views(self.entries@).take(j as int),
                    key@,
                ),
            decreases j,
        {
            let ghost e = pair_views(self.entries@);
            assert(e.take(j as int).drop_last() =~= e.take(j - 1));
            if self.entries[j - 1].0 == k {
                return Some(&self.entries[j - 1].1);
            }
            j = j - 1;
        }
        None
    }
}

impl StateSet {
    /// `state` is in the set.
    pub fn contains(&self, state: &str) -> (b: bool)
        ensures
            b == views(self.items@).contains(state@),
    {
        let s = state.to_owned();
        contains_string(&self.items, &s)
    }
}

impl FlowGraph {
    /// Returns states that are not yet visited and not the pseudo `[*]` node.
    pub fn pending_after(&self, visited: &[String]) -> (r: Vec<String>)
        ensures
            views(r@) == unvisited(self@.order, views(visited@)),
    {
        retain_absent(self.order.as_slice(), visited)
    }

    /// Outgoing transitions from `state`, excluding `[*]`.
    pub fn next_states(&self, state: &str) -> (r: Vec<String>)
        ensures
            views(r@) == succ(self@.edges, state@),
    {
        let st = state.to_owned();
        let end = String::from_str("[*]");
        let mut r: Vec<String> = Vec::new();
        let mut j: usize = 0;
        while j < self.transitions.edges.len()
            invariant
                j <= self.transitions.edges.len(),
                st@ == state@,
                end@ == end_marker(),
                views(r@) == succ(pair_views(self.transitions.edges@).take(j as int), state@),
            decreases self.transitions.edges.len() - j,
        {
            let ghost e = pair_views(self.transitions.edges@);
            assert(e.take(j + 1).drop_last() =~= e.take(j as int));
            if self.transitions.edges[j].0 == st && self.transitions.edges[j].1 != end {
                r.push(self.transitions.edges[j].1.clone());
                assert(views(r@) =~= views(r@.drop_last()).push(r@.last()@));
            }
            j = j + 1;
        }
        assert(pair_views(self.transitions.edges@).take(j as int) =~= pair_views(
            self.transitions.edges@,
        ));
        r
    }

    /// True if `state` is a terminal state (transitions to `[*]`).
    pub fn is_terminal(&self, state: &str) -> (b: bool)
        ensures
            b == self@.terminal.contains(state@),
    {
        self.terminal.contains(state)
    }
}


// ───────────────────────────── lemmas ─────────────────────────────

/// Pushing a string pushes its view.
pub proof fn lemma_views_push(v: Seq<String>, s: String)
    ensures
        views(v.push(s)) == views(v).push(s@),
{
    assert(views(v.push(s)) =~= views(v).push(s@));
}

/// Pushing a pair pushes its views.
pub proof fn lemma_pair_views_push(v: Seq<(String, String)>, p: (String, String))
    ensures
        pair_views(v.push(p)) == pair_views(v).push((p.0@, p.1@)),
{
    assert(pair_views(v.push(p)) =~= pair_views(v).push((p.0@, p.1@)));
}

/// Pushing a state that is not yet in a list without repeats keeps it without repeats.
pub proof fn lemma_push_new_distinct(s: Seq<Seq<char>>, x: Seq<char>)
    requires
        s.no_duplicates(),
        !s.contains(x),
    ensures
        s.push(x).no_duplicates(),
{
    let w = s.push(x);
    assert forall|i: int, j: int| 0 <= i < w.len() && 0 <= j < w.len() && i != j implies w[i]
        != w[j] by {
        if i == s.len() {
            assert(s[j] == w[j]);
            assert(s.contains(s[j]));
        } else if j == s.len() {
            assert(s[i] == w[i]);
            assert(s.contains(s[i]));
        }
    }
}

/// Dropping the entries of `k` keeps only entries of other states, all from `labels`, and
/// keeps the states distinct.
pub proof fn lemma_without_key(labels: Seq<(Seq<char>, Seq<char>)>, k: Seq<char>)
    ensures
        forall|i: int|
            0 <= i < without_key(labels, k).len() ==> (#[trigger] without_key(labels, k)[i]).0
                != k && labels.contains(without_key(labels, k)[i]),
        keys_distinct(labels) ==> keys_distinct(without_key(labels, k)),
    decreases labels.len(),
{
    if labels.len() > 0 {
        let d = labels.drop_last();
        lemma_without_key(d, k);
        let r = without_key(d, k);
        assert forall|i: int| 0 <= i < r.len() implies labels.contains(#[trigger] r[i]) by {
            let j = choose|j: int| 0 <= j < d.len() && d[j] == r[i];
            assert(labels[j] == d[j]);
        }
        if keys_distinct(labels) {
            assert(keys_distinct(d)) by {
                assert forall|i: int, j: int| 0 <= i < j < d.len() implies d[i].0 != d[j].0 by {
                    assert(labels[i] == d[i]);
                    assert(labels[j] == d[j]);
                }
            }
        }
        if labels.last().0 != k {
            let w = r.push(labels.last());
            assert(without_key(labels, k) == w);
            if keys_distinct(labels) {
                assert forall|i: int, j: int| 0 <= i < j < w.len() implies w[i].0 != w[j].0 by {
                    if j == r.len() {
                        let a = choose|a: int| 0 <= a < d.len() && d[a] == r[i];
                        assert(labels[a] == d[a]);
                        assert(labels[labels.len() - 1] == labels.last());
                    } else {
                        assert(w[i] == r[i]);
                        assert(w[j] == r[j]);
                    }
                }
            }
            assert forall|i: int| 0 <= i < w.len() implies (#[trigger] w[i]).0 != k
                && labels.contains(w[i]) by {
                if i == r.len() {
                    assert(labels[labels.len() - 1] == labels.last());
                } else {
                    assert(w[i] == r[i]);
                }
            }
        }
    }
}

/// A diagram's model lists each terminal state once and labels each state at most once.
pub proof fn lemma_model_distinct(lines: Seq<Seq<char>>)
    ensures
        model_of_lines(lines).terminal.no_duplicates(),
        keys_distinct(model_of_lines(lines).labels),
    decreases lines.len(),
{
    if lines.len() > 0 {
        lemma_model_distinct(lines.drop_last());
        let m = model_of_lines(lines.drop_last());
        let n = model_of_lines(lines);
        if n.terminal != m.terminal {
            lemma_push_new_distinct(m.terminal, n.terminal.last());
            assert(m.terminal.push(n.terminal.last()) =~= n.terminal);
        }
        if n.labels != m.labels {
            let t = trim(lines.last());
            let (sk, lb) = split_once(t, ":"@)->0;
            let k = trim(sk);
            lemma_without_key(m.labels, k);
            let r = without_key(m.labels, k);
            assert(n.labels == r.push((k, trim(lb))));
            assert forall|i: int, j: int| 0 <= i < j < n.labels.len() implies n.labels[i].0
                != n.labels[j].0 by {
                if j == r.len() {
                    assert(r[i].0 != k);
                } else {
                    assert(n.labels[i] == r[i]);
                    assert(n.labels[j] == r[j]);
                }
            }
        }
    }
}

/// A sequence without repeats whose elements all occur in `u` is no longer than `u`.
pub proof fn lemma_distinct_within(a: Seq<Seq<char>>, u: Seq<Seq<char>>)
    requires
        a.no_duplicates(),
        forall|k: int| 0 <= k < a.len() ==> u.contains(#[trigger] a[k]),
    ensures
        a.len() <= u.len(),
{
    broadcast use vstd::seq_lib::seq_to_set_is_finite;

    a.unique_seq_to_set();
    u.lemma_cardinality_of_set();
    assert(a.to_set().subset_of(u.to_set())) by {
        assert forall|x: Seq<char>| a.to_set().contains(x) implies u.to_set().contains(x) by {
            let k = choose|k: int| 0 <= k < a.len() && a[k] == x;
        }
    }
    vstd::set_lib::lemma_len_subset(a.to_set(), u.to_set());
}

/// Every state that `targets`/`succ` yields for `s` is the target of a transition.
pub open spec fn edge_targets(edges: Seq<(Seq<char>, Seq<char>)>) -> Seq<Seq<char>> {
    edges.map_values(|e: (Seq<char>, Seq<char>)| e.1)
}

/// Every state that `targets`/`succ` yields for `s` is the source of a transition.
pub open spec fn edge_sources(edges: Seq<(Seq<char>, Seq<char>)>) -> Seq<Seq<char>> {
    edges.map_values(|e: (Seq<char>, Seq<char>)| e.0)
}

/// The set `c` holds the source of every transition into one of its real states.
pub open spec fn closed_backward(edges: Seq<(Seq<char>, Seq<char>)>, c: Seq<Seq<char>>) -> bool {
    forall|j: int|
        0 <= j < edges.len() && edges[j].1 != end_marker() && c.contains(#[trigger] edges[j].1)
            ==> c.contains(edges[j].0)
}

/// A walk to a terminal state starts inside every backward-closed set holding the terminals.
pub proof fn lemma_closed_holds_walks(
    edges: Seq<(Seq<char>, Seq<char>)>,
    terminal: Seq<Seq<char>>,
    c: Seq<Seq<char>>,
    p: Seq<Seq<char>>,
)
    requires
        closed_backward(edges, c),
        forall|k: int| 0 <= k < terminal.len() ==> c.contains(#[trigger] terminal[k]),
        is_walk(edges, p),
        p.len() >= 1,
        terminal.contains(p.last()),
    ensures
        c.contains(p[0]),
    decreases p.len(),
{
    if p.len() == 1 {
        let k = choose|k: int| 0 <= k < terminal.len() && terminal[k] == p.last();
    } else {
        let q = p.drop_first();
        assert forall|k: int| 0 <= k < q.len() - 1 implies #[trigger] step_ok(edges, q, k) by {
            assert(step_ok(edges, p, k + 1));
        }
        lemma_closed_holds_walks(edges, terminal, c, q);
        assert(step_ok(edges, p, 0));
        let j = choose|j: int| 0 <= j < edges.len() && edges[j] == (p[0], p[1]);
        assert(c.contains(edges[j].1));
    }
}

/// A transition into a state that reaches the end makes its source reach the end.
pub proof fn lemma_reaches_back(
    edges: Seq<(Seq<char>, Seq<char>)>,
    terminal: Seq<Seq<char>>,
    j: int,
)
    requires
        0 <= j < edges.len(),
        edges[j].1 != end_marker(),
        reaches_end(edges, terminal, edges[j].1),
    ensures
        reaches_end(edges, terminal, edges[j].0),
{
    let q = choose|q: Seq<Seq<char>>|
        #[trigger] is_walk(edges, q) && q.len() >= 1 && q[0] == edges[j].1 && terminal.contains(
            q.last(),
        );
    let p = seq![edges[j].0] + q;
    assert forall|k: int| 0 <= k < p.len() - 1 implies #[trigger] step_ok(edges, p, k) by {
        if k == 0 {
            assert(edges.contains(edges[j]));
            assert(p[1] == q[0]);
        } else {
            assert(step_ok(edges, q, k - 1));
            assert(p[k] == q[k - 1]);
            assert(p[k + 1] == q[k]);
        }
    }
    assert(p.last() == q.last());
    assert(is_walk(edges, p));
}

/// A terminal state reaches the end.
pub proof fn lemma_terminal_reaches(
    edges: Seq<(Seq<char>, Seq<char>)>,
    terminal: Seq<Seq<char>>,
    k: int,
)
    requires
        0 <= k < terminal.len(),
    ensures
        reaches_end(edges, terminal, terminal[k]),
{
    let p = seq![terminal[k]];
    assert(is_walk(edges, p));
    assert(terminal.contains(p.last()));
}


/// `pat` at the start of `v[a..z]` is `pat` at the start of that window.
proof fn lemma_window_prefix(v: Seq<char>, a: int, z: int, pat: Seq<char>)
    requires
        0 <= a <= z <= v.len(),
    ensures
        (a + pat.len() <= z && v.subrange(a, a + pat.len()) == pat) == starts_with(
            v.subrange(a, z),
            pat,
        ),
{
    if a + pat.len() <= z {
        assert(v.subrange(a, z).subrange(0, pat.len() as int) =~= v.subrange(a, a + pat.len()));
    }
}

/// Unfolding `model_of_lines` on a pushed line.
pub proof fn lemma_model_push(lines: Seq<Seq<char>>, line: Seq<char>)
    ensures
        model_of_lines(lines.push(line)) == apply_line(model_of_lines(lines), line),
{
    assert(lines.push(line).drop_last() =~= lines);
}

// ───────────────────────────── parsing ─────────────────────────────

/// The literal pieces of the diagram syntax.
struct Syntax {
    comment: Vec<char>,
    header: Vec<char>,
    arrow: Vec<char>,
    colon: Vec<char>,
    end: String,
}

impl Syntax {
    spec fn wf(&self) -> bool {
        &&& self.comment@ == "%%"@
        &&& self.header@ == "stateDiagram-v2"@
        &&& self.arrow@ == "-->"@
        &&& self.colon@ == ":"@
        &&& self.end@ == end_marker()
    }

    fn new() -> (s: Self)
        ensures
            s.wf(),
    {
        Syntax {
            comment: to_chars("%%"),
            header: to_chars("stateDiagram-v2"),
            arrow: to_chars("-->"),
            colon: to_chars(":"),
            end: String::from_str("[*]"),
        }
    }
}

/// The declarations read so far, as strings.
struct Builder {
    initial: Vec<String>,
    edges: Vec<(String, String)>,
    labels: Vec<(String, String)>,
    terminal: Vec<String>,
}

impl Builder {
    spec fn model(&self) -> MmdModel {
        MmdModel {
            initial: views(self.initial@),
            edges: pair_views(self.edges@),
            labels: pair_views(self.labels@),
            terminal: views(self.terminal@),
        }
    }
}

/// Applies the line `v[lo..hi]` to `b`.
fn apply_line_exec(v: &Vec<char>, lo: usize, hi: usize, syn: &Syntax, b: &mut Builder)
    requires
        lo <= hi <= v.len(),
        syn.wf(),
        views(old(b).initial@).no_duplicates(),
    ensures
        final(b).model() == apply_line(old(b).model(), v@.subrange(lo as int, hi as int)),
        views(final(b).initial@).no_duplicates(),
{
    let ghost m = b.model();
    let (a, z) = trim_bounds(v, lo, hi);
    let ghost t = v@.subrange(a as int, z as int);
    assert(t == trim(v@.subrange(lo as int, hi as int)));
    if a == z {
        return;
    }
    proof {
        lemma_window_prefix(v@, a as int, z as int, syn.comment@);
    }
    if matches_at(v, a, z, &syn.comment) {
        return;
    }
    if z - a == syn.header.len() && matches_at(v, a, z, &syn.header) {
        assert(t =~= v@.subrange(a as int, a + syn.header.len()));
        return;
    }
    assert(t != "stateDiagram-v2"@) by {
        if t == "stateDiagram-v2"@ {
            assert(v@.subrange(a as int, a + syn.header.len()) =~= t);
        }
    }
    match find_in(v, a, z, &syn.arrow) {
        Some(p) => {
            proof {
                lemma_find_from_some(t, syn.arrow@, 0);
            }
            let rs = a + p + syn.arrow.len();
            assert(t.subrange(0, p as int) =~= v@.subrange(a as int, a + p));
            assert(t.subrange(p + syn.arrow.len(), t.len() as int) =~= v@.subrange(
                rs as int,
                z as int,
            ));
            let (l1, l2) = trim_bounds(v, a, a + p);
            let (r1, r2) = trim_bounds(v, rs, z);
            let l = string_of(v, l1, l2);
            let r = string_of(v, r1, r2);
            if l == syn.end {
                if !contains_string(&b.initial, &r) {
                    let ghost old_init = views(b.initial@);
                    proof {
                        lemma_views_push(b.initial@, r);
                    }
                    b.initial.push(r);
                    proof {
                        lemma_push_new_distinct(old_init, views(b.initial@).last());
                    }
                }
            } else if r == syn.end {
                let l2c = l.clone();
                proof {
                    lemma_pair_views_push(b.edges@, (l2c, r));
                    lemma_views_push(b.terminal@, l);
                }
                b.edges.push((l2c, r));
                if !contains_string(&b.terminal, &l) {
                    b.terminal.push(l);
                }
            } else {
                proof {
                    lemma_pair_views_push(b.edges@, (l, r));
                }
                b.edges.push((l, r));
            }
        },
        None => {
            match find_in(v, a, z, &syn.colon) {
                Some(p) => {
                    proof {
                        lemma_find_from_some(t, syn.colon@, 0);
                    }
                    let rs = a + p + syn.colon.len();
                    assert(t.subrange(0, p as int) =~= v@.subrange(a as int, a + p));
                    assert(t.subrange(p + syn.colon.len(), t.len() as int) =~= v@.subrange(
                        rs as int,
                        z as int,
                    ));
                    let (l1, l2) = trim_bounds(v, a, a + p);
                    let (r1, r2) = trim_bounds(v, rs, z);
                    let st = string_of(v, l1, l2);
                    let label = string_of(v, r1, r2);
                    let ghost old_labels = pair_views(b.labels@);
                    let mut kept: Vec<(String, String)> = Vec::new();
                    let mut j: usize = 0;
                    while j < b.labels.len()
                        invariant
                            j <= b.labels.len(),
                            old_labels == pair_views(b.labels@),
                            pair_views(kept@) == without_key(old_labels.take(j as int), st@),
                        decreases b.labels.len() - j,
                    {
                        assert(old_labels.take(j + 1).drop_last() =~= old_labels.take(j as int));
                        if b.labels[j].0 != st {
                            let entry = (b.labels[j].0.clone(), b.labels[j].1.clone());
                            proof {
                                lemma_pair_views_push(kept@, entry);
                            }
                            kept.push(entry);
                        }
                        j = j + 1;
                    }
                    assert(old_labels.take(j as int) =~= old_labels);
                    proof {
                        lemma_pair_views_push(kept@, (st, label));
                    }
                    kept.push((st, label));
                    b.labels = kept;
                },
                None => {},
            }
        },
    }
}

/// Breadth-first order of the states reachable from `initial`.
fn bfs(initial: &Vec<String>, edges: &Vec<(String, String)>, end: &String) -> (order: Vec<String>)
    requires
        end@ == end_marker(),
    ensures
        views(order@) == bfs_order(pair_views(edges@), views(initial@)),
{
    let ghost e = pair_views(edges@);
    let ghost init = views(initial@);
    let ghost u = init + edge_targets(e);
    let ghost fuel: nat = init.len() + e.len();
    let mut order: Vec<String> = Vec::new();
    let mut k: usize = 0;
    while k < initial.len()
        invariant
            k <= initial.len(),
            init == views(initial@),
            u == init + edge_targets(e),
            views(order@) == append_new(seq![], init.take(k as int)),
            views(order@).no_duplicates(),
            forall|x: int| 0 <= x < order.len() ==> u.contains(#[trigger] views(order@)[x]),
        decreases initial.len() - k,
    {
        assert(init.take(k + 1).drop_last() =~= init.take(k as int));
        assert(init.take(k + 1).last() == init[k as int]);
        if !contains_string(&order, &initial[k]) {
            let ghost old_order = views(order@);
            proof {
                lemma_views_push(order@, initial@[k as int]);
                lemma_push_new_distinct(old_order, init[k as int]);
            }
            order.push(initial[k].clone());
            assert(u[k as int] == init[k as int]);
            assert forall|x: int| 0 <= x < order.len() implies u.contains(
                #[trigger] views(order@)[x],
            ) by {
                if x < old_order.len() {
                    assert(old_order[x] == views(order@)[x]);
                }
            }
        }
        k = k + 1;
    }
    assert(init.take(k as int) =~= init);
    let mut i: usize = 0;
    while i < order.len()
        invariant
            e == pair_views(edges@),
            init == views(initial@),
            u == init + edge_targets(e),
            fuel == init.len() + e.len(),
            end@ == end_marker(),
            i <= order.len(),
            views(order@).no_duplicates(),
            forall|x: int| 0 <= x < order.len() ==> u.contains(#[trigger] views(order@)[x]),
            i <= fuel,
            bfs_run(e, append_new(seq![], init), 0, fuel) == bfs_run(
                e,
                views(order@),
                i as nat,
                (fuel - i) as nat,
            ),
        decreases fuel - i,
    {
        proof {
            lemma_distinct_within(views(order@), u);
        }
        let ghost before = views(order@);
        let cur = order[i].clone();
        let mut j: usize = 0;
        while j < edges.len()
            invariant
                e == pair_views(edges@),
                u == init + edge_targets(e),
                end@ == end_marker(),
                j <= edges.len(),
                cur@ == before[i as int],
                i < before.len(),
                before.len() <= order.len(),
                views(order@) == append_new(before, succ(e.take(j as int), cur@)),
                views(order@).no_duplicates(),
                forall|x: int| 0 <= x < order.len() ==> u.contains(#[trigger] views(order@)[x]),
            decreases edges.len() - j,
        {
            assert(e.take(j + 1).drop_last() =~= e.take(j as int));
            if edges[j].0 == cur && edges[j].1 != *end {
                let ghost ts = succ(e.take(j as int), cur@);
                assert(ts.push(e[j as int].1).drop_last() =~= ts);
                if !contains_string(&order, &edges[j].1) {
                    let ghost old_order = views(order@);
                    proof {
                        lemma_views_push(order@, edges@[j as int].1);
                    }
                    order.push(edges[j].1.clone());
                    assert(u[init.len() + j] == e[j as int].1);
                    proof {
                lemma_push_new_distinct(old_order, edges@[j as int].1@);
            }
                    assert forall|x: int| 0 <= x < order.len() implies u.contains(
                        #[trigger] views(order@)[x],
                    ) by {
                        if x < old_order.len() {
                            assert(old_order[x] == views(order@)[x]);
                        }
                    }
                }
            }
            j = j + 1;
        }
        assert(e.take(j as int) =~= e);
        i = i + 1;
    }
    order
}

/// The states that can reach the end: the least backward-closed set holding the terminals.
fn reach_set(edges: &Vec<(String, String)>, terminal: &Vec<String>, end: &String) -> (can: Vec<
    String,
>)
    requires
        end@ == end_marker(),
    ensures
        forall|s: Seq<char>|
            views(can@).contains(s) <==> reaches_end(pair_views(edges@), views(terminal@), s),
{
    let ghost e = pair_views(edges@);
    let ghost t = views(terminal@);
    let ghost u = t + edge_sources(e);
    let mut can: Vec<String> = Vec::new();
    let mut k: usize = 0;
    while k < terminal.len()
        invariant
            k <= terminal.len(),
            t == views(terminal@),
            e == pair_views(edges@),
            u == t + edge_sources(e),
            views(can@).no_duplicates(),
            forall|x: int| 0 <= x < can.len() ==> u.contains(#[trigger] views(can@)[x]),
            forall|x: int| 0 <= x < can.len() ==> reaches_end(e, t, #[trigger] views(can@)[x]),
            forall|x: int| 0 <= x < k ==> views(can@).contains(#[trigger] t[x]),
        decreases terminal.len() - k,
    {
        if !contains_string(&can, &terminal[k]) {
            let ghost old_can = views(can@);
            proof {
                lemma_views_push(can@, terminal@[k as int]);
                lemma_terminal_reaches(e, t, k as int);
            }
            can.push(terminal[k].clone());
            assert(u[k as int] == t[k as int]);
            proof {
                lemma_push_new_distinct(old_can, terminal@[k as int]@);
            }
            assert forall|x: int| 0 <= x < can.len() implies u.contains(#[trigger] views(can@)[x])
                && reaches_end(e, t, views(can@)[x]) by {
                if x < old_can.len() {
                    assert(old_can[x] == views(can@)[x]);
                }
            }
            assert forall|x: int| 0 <= x < k + 1 implies views(can@).contains(#[trigger] t[x]) by {
                if x < k {
                    assert(old_can.contains(t[x]));
                    let y = choose|y: int| 0 <= y < old_can.len() && old_can[y] == t[x];
                    assert(views(can@)[y] == t[x]);
                } else {
                    assert(views(can@)[old_can.len() as int] == t[x]);
                }
            }
        }
        k = k + 1;
    }
    let mut changed = true;
    while changed
        invariant
            t == views(terminal@),
            e == pair_views(edges@),
            u == t + edge_sources(e),
            end@ == end_marker(),
            views(can@).no_duplicates(),
            forall|x: int| 0 <= x < can.len() ==> u.contains(#[trigger] views(can@)[x]),
            forall|x: int| 0 <= x < can.len() ==> reaches_end(e, t, #[trigger] views(can@)[x]),
            forall|x: int| 0 <= x < t.len() ==> views(can@).contains(#[trigger] t[x]),
            !changed ==> closed_backward(e, views(can@)),
        decreases u.len() - can.len() + (if changed {
            1int
        } else {
            0int
        }),
    {
        proof {
            lemma_distinct_within(views(can@), u);
        }
        let ghost start_len = can.len();
        changed = false;
        let mut j: usize = 0;
        while j < edges.len()
            invariant
                t == views(terminal@),
                e == pair_views(edges@),
                u == t + edge_sources(e),
                end@ == end_marker(),
                j <= edges.len(),
                start_len <= can.len(),
                changed <==> start_len < can.len(),
                views(can@).no_duplicates(),
                forall|x: int| 0 <= x < can.len() ==> u.contains(#[trigger] views(can@)[x]),
                forall|x: int|
                    0 <= x < can.len() ==> reaches_end(e, t, #[trigger] views(can@)[x]),
                forall|x: int| 0 <= x < t.len() ==> views(can@).contains(#[trigger] t[x]),
                !changed ==> forall|y: int|
                    0 <= y < j && e[y].1 != end_marker() && views(can@).contains(#[trigger] e[y].1)
                        ==> views(can@).contains(e[y].0),
            decreases edges.len() - j,
        {
            if edges[j].1 != *end && contains_string(&can, &edges[j].1) && !contains_string(
                &can,
                &edges[j].0,
            ) {
                let ghost old_can = views(can@);
                proof {
                    let y = choose|y: int| 0 <= y < old_can.len() && old_can[y] == e[j as int].1;
                    assert(reaches_end(e, t, old_can[y]));
                    lemma_reaches_back(e, t, j as int);
                    lemma_views_push(can@, edges@[j as int].0);
                }
                can.push(edges[j].0.clone());
                changed = true;
                assert(u[t.len() + j] == e[j as int].0);
                proof {
                lemma_push_new_distinct(old_can, edges@[j as int].0@);
            }
                assert forall|x: int| 0 <= x < can.len() implies u.contains(
                    #[trigger] views(can@)[x],
                ) && reaches_end(e, t, views(can@)[x]) by {
                    if x < old_can.len() {
                        assert(old_can[x] == views(can@)[x]);
                    }
                }
                assert forall|x: int| 0 <= x < t.len() implies views(can@).contains(
                    #[trigger] t[x],
                ) by {
                    assert(old_can.contains(t[x]));
                    let y = choose|y: int| 0 <= y < old_can.len() && old_can[y] == t[x];
                    assert(views(can@)[y] == t[x]);
                }
            }
            j = j + 1;
        }
        proof {
            lemma_distinct_within(views(can@), u);
        }
    }
    assert forall|s: Seq<char>| views(can@).contains(s) <==> reaches_end(e, t, s) by {
        if views(can@).contains(s) {
            let x = choose|x: int| 0 <= x < can.len() && views(can@)[x] == s;
        }
        if reaches_end(e, t, s) {
            let p = choose|p: Seq<Seq<char>>|
                #[trigger] is_walk(e, p) && p.len() >= 1 && p[0] == s && t.contains(p.last());
            lemma_closed_holds_walks(e, t, views(can@), p);
        }
    }
    can
}

/// Parse a Mermaid `stateDiagram-v2` diagram into a [`FlowGraph`].
///
/// Lines are read one at a time, trimmed; blank lines, `%%` comments and the
/// `stateDiagram-v2` header are skipped. A line with `-->` is a transition, a line with
/// `:` a label; other lines, such as `direction LR`, are ignored. A state may be named
/// `direction`: its transition and label lines count like any other.
///
/// # Errors
///
/// Returns [`SteplockError::Mermaid`] if the diagram has no `[*] --> <state>` initial
/// transition, or if a state reachable from the start has no path to `[*]`.
pub fn parse_mmd(path: &str, content: &str) -> (res: Result<FlowGraph, SteplockError>)
    ensures
        match res {
            Ok(g) => parse_spec(content@) == Ok::<FlowView, Seq<char>>(g@) && g@.distinct(),
            Err(e) => parse_spec(content@) is Err && e.is_mermaid(
                path@,
                parse_spec(content@)->Err_0,
            ),
        },
{
    let v = to_chars(content);
    let syn = Syntax::new();
    let mut b = Builder {
        initial: Vec::new(),
        edges: Vec::new(),
        labels: Vec::new(),
        terminal: Vec::new(),
    };
    assert(views(b.initial@) =~= seq![]);
    assert(views(b.terminal@) =~= seq![]);
    assert(pair_views(b.edges@) =~= seq![]);
    assert(pair_views(b.labels@) =~= seq![]);
    assert(b.model() == empty_model());
    let mut start: usize = 0;
    let mut i: usize = 0;
    let ghost mut done: Seq<Seq<char>> = seq![];
    while i < v.len()
        invariant
            start <= i <= v.len(),
            v@ == content@,
            syn.wf(),
            split_char(v@.take(i as int), '\n') == done.push(v@.subrange(start as int, i as int)),
            b.model() == model_of_lines(done),
            views(b.initial@).no_duplicates(),
        decreases v.len() - i,
    {
        assert(v@.take(i + 1).drop_last() =~= v@.take(i as int));
        assert(v@.take(i + 1).last() == v@[i as int]);
        let ghost prev = split_char(v@.take(i as int), '\n');
        if v[i] == '\n' {
            apply_line_exec(&v, start, i, &syn, &mut b);
            proof {
                lemma_model_push(done, v@.subrange(start as int, i as int));
                done = done.push(v@.subrange(start as int, i as int));
            }
            start = i + 1;
            assert(v@.subrange(start as int, i + 1) =~= Seq::<char>::empty());
            assert(split_char(v@.take(i + 1), '\n') == prev.push(Seq::<char>::empty()));
            assert(split_char(v@.take(i + 1), '\n') =~= done.push(
                v@.subrange(start as int, i + 1),
            ));
        } else {
            assert(v@.subrange(start as int, i + 1) =~= v@.subrange(start as int, i as int).push(
                v@[i as int],
            ));
            assert(split_char(v@.take(i + 1), '\n') =~= done.push(
                v@.subrange(start as int, i + 1),
            ));
        }
        i = i + 1;
    }
    apply_line_exec(&v, start, i, &syn, &mut b);
    proof {
        lemma_model_push(done, v@.subrange(start as int, i as int));
        done = done.push(v@.subrange(start as int, i as int));
        assert(v@.take(i as int) =~= v@);
    }
    assert(b.model() == mmd_model(content@));
    proof {
        lemma_model_distinct(split_char(content@, '\n'));
    }
    if b.initial.len() == 0 {
        return Err(
            SteplockError::Mermaid {
                path: path.to_owned(),
                message: String::from_str("no [*] --> <state> initial transition found"),
            },
        );
    }
    let order = bfs(&b.initial, &b.edges, &syn.end);
    let can = reach_set(&b.edges, &b.terminal, &syn.end);
    let ghost e = pair_views(b.edges@);
    let ghost t = views(b.terminal@);
    let ghost o = views(order@);
    let mut k: usize = 0;
    while k < order.len()
        invariant
            k <= order.len(),
            o == views(order@),
            e == pair_views(b.edges@),
            t == views(b.terminal@),
            forall|s: Seq<char>| views(can@).contains(s) <==> reaches_end(e, t, s),
            first_stuck_from(e, t, o, 0) == first_stuck_from(e, t, o, k as int),
            b.model() == mmd_model(content@),
            b.initial.len() > 0,
            o == bfs_order(e, views(b.initial@)),
        decreases order.len() - k,
    {
        if !contains_string(&can, &order[k]) {
            assert(first_stuck_from(e, t, o, k as int) == Some(k as int));
            let message = String::from_str("state '").concat(order[k].as_str()).concat(
                "' has no path to [*] — check for cycles or dead ends",
            );
            return Err(SteplockError::Mermaid { path: path.to_owned(), message });
        }
        k = k + 1;
    }
    Ok(
        FlowGraph {
            initial: b.initial,
            transitions: Transitions { edges: b.edges },
            labels: Labels { entries: b.labels },
            terminal: StateSet { items: b.terminal },
            order,
        },
    )
}

} // verus!
