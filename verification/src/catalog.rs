//! Which checklists an event goes through, and in what order.
use vstd::prelude::*;
use crate::flow::{retain_absent, unvisited};
use crate::flow_laws::law_pending_members;
use crate::text::{to_chars, views};
use crate::state::HookResponse;

verus! {

/// What a hook event asks for.
#[derive(Debug, PartialEq, Eq, Structural)]
pub enum RunMode {
    /// `session:stop`: remove the session's state, then approve.
    EndSession,
    /// Any other event: go through the checklists.
    Evaluate,
}

/// What the hook event named `event` asks for.
pub fn run_mode(event: &str) -> (m: RunMode)
    ensures
        m == (if event@ == "session:stop"@ {
            RunMode::EndSession
        } else {
            RunMode::Evaluate
        }),
{
    if event.to_owned() == String::from_str("session:stop") {
        RunMode::EndSession
    } else {
        RunMode::Evaluate
    }
}

/// The global checklists that run, in order: those the project does not shadow with a
/// checklist of the same name. Project checklists run first, all of them.
pub fn unshadowed(global: &Vec<String>, project: &Vec<String>) -> (r: Vec<String>)
    ensures
        views(r@) == unvisited(views(global@), views(project@)),
{
    retain_absent(global.as_slice(), project.as_slice())
}

/// A global checklist runs exactly when the project has no checklist of the same name.
pub proof fn law_project_shadows_global(
    global: Seq<Seq<char>>,
    project: Seq<Seq<char>>,
    name: Seq<char>,
)
    ensures
        unvisited(global, project).contains(name) <==> global.contains(name) && !project.contains(
            name,
        ),
{
    law_pending_members(global, project, name);
}

/// `a` sorts no later than `b` by the order of `str`: character by character, by code
/// point (the byte order of UTF-8 agrees with it), a prefix first.
pub open spec fn name_le(a: Seq<char>, b: Seq<char>) -> bool
    decreases a.len(),
{
    if a.len() == 0 {
        true
    } else if b.len() == 0 {
        false
    } else if a[0] != b[0] {
        (a[0] as u32) < (b[0] as u32)
    } else {
        name_le(a.drop_first(), b.drop_first())
    }
}

/// Any two names are ordered one way or the other.
pub proof fn lemma_name_le_total(a: Seq<char>, b: Seq<char>)
    ensures
        name_le(a, b) || name_le(b, a),
    decreases a.len(),
{
    if a.len() > 0 && b.len() > 0 {
        if a[0] == b[0] {
            lemma_name_le_total(a.drop_first(), b.drop_first());
        } else {
            vstd::utf8::char_u32_cast(a[0], a[0] as u32);
            vstd::utf8::char_u32_cast(b[0], b[0] as u32);
        }
    }
}

/// Every name sorts no later than itself.
pub proof fn lemma_name_le_refl(a: Seq<char>)
    ensures
        name_le(a, a),
    decreases a.len(),
{
    if a.len() > 0 {
        lemma_name_le_refl(a.drop_first());
    }
}

/// The order of names is transitive.
pub proof fn lemma_name_le_trans(a: Seq<char>, b: Seq<char>, c: Seq<char>)
    requires
        name_le(a, b),
        name_le(b, c),
    ensures
        name_le(a, c),
    decreases a.len(),
{
    if a.len() > 0 && b.len() > 0 && c.len() > 0 && a[0] == b[0] && b[0] == c[0] {
        lemma_name_le_trans(a.drop_first(), b.drop_first(), c.drop_first());
    }
}

/// Two names ordered both ways are the same name.
pub proof fn lemma_name_le_antisymmetric(a: Seq<char>, b: Seq<char>)
    requires
        name_le(a, b),
        name_le(b, a),
    ensures
        a == b,
    decreases a.len(),
{
    if a.len() > 0 && b.len() > 0 {
        lemma_name_le_antisymmetric(a.drop_first(), b.drop_first());
        assert(a =~= seq![a[0]] + a.drop_first());
        assert(b =~= seq![b[0]] + b.drop_first());
    }
}

/// `s` is sorted by name.
pub open spec fn sorted_by_name(s: Seq<Seq<char>>) -> bool {
    forall|i: int, j: int| 0 <= i < j < s.len() ==> name_le(#[trigger] s[i], #[trigger] s[j])
}

/// `a` sorts no later than `b`.
fn name_le_exec(a: &String, b: &String) -> (r: bool)
    ensures
        r == name_le(a@, b@),
{
    let x = to_chars(a.as_str());
    let y = to_chars(b.as_str());
    let mut i: usize = 0;
    assert(a@.skip(0) =~= a@);
    assert(b@.skip(0) =~= b@);
    while i < x.len() && i < y.len()
        invariant
            i <= x.len(),
            i <= y.len(),
            x@ == a@,
            y@ == b@,
            name_le(a@, b@) == name_le(a@.skip(i as int), b@.skip(i as int)),
        decreases x.len() - i,
    {
        if x[i] != y[i] {
            return (x[i] as u32) < (y[i] as u32);
        }
        assert(a@.skip(i as int).drop_first() =~= a@.skip(i + 1));
        assert(b@.skip(i as int).drop_first() =~= b@.skip(i + 1));
        i = i + 1;
    }
    i == x.len()
}

/// Checklist names in the order checklists are evaluated: sorted by name, so that the
/// order does not depend on how the filesystem lists a directory.
pub fn sort_names(names: &Vec<String>) -> (r: Vec<String>)
    ensures
        views(r@).to_multiset() == views(names@).to_multiset(),
        sorted_by_name(views(r@)),
{
    let mut r: Vec<String> = Vec::new();
    let mut i: usize = 0;
    assert(views(names@).take(0) =~= Seq::<Seq<char>>::empty());
    assert(views(r@) =~= Seq::<Seq<char>>::empty());
    while i < names.len()
        invariant
            i <= names.len(),
            views(r@).to_multiset() == views(names@).take(i as int).to_multiset(),
            sorted_by_name(views(r@)),
        decreases names.len() - i,
    {
        let x = names[i].clone();
        let mut p: usize = 0;
        while p < r.len() && name_le_exec(&r[p], &x)
            invariant
                p <= r.len(),
                forall|k: int| 0 <= k < p ==> name_le(#[trigger] r@[k]@, x@),
            decreases r.len() - p,
        {
            p = p + 1;
        }
        let ghost old_r = views(r@);
        proof {
            if p < r.len() {
                lemma_name_le_total(r@[p as int]@, x@);
                assert forall|k: int| p <= k < r.len() implies name_le(x@, #[trigger] r@[k]@) by {
                    if k > p {
                        assert(name_le(old_r[p as int], old_r[k]));
                        lemma_name_le_trans(x@, r@[p as int]@, r@[k]@);
                    }
                }
            }
        }
        r.insert(p, x);
        assert(views(r@) =~= old_r.insert(p as int, x@));
        proof {
            vstd::seq_lib::to_multiset_insert(old_r, p as int, x@);
            vstd::seq_lib::to_multiset_build(views(names@).take(i as int), names@[i as int]@);
        }
        assert(views(names@).take(i + 1) =~= views(names@).take(i as int).push(names@[i as int]@));
        assert forall|a: int, b: int| 0 <= a < b < r.len() implies name_le(
            #[trigger] views(r@)[a],
            #[trigger] views(r@)[b],
        ) by {
            if a < p && b > p {
                lemma_name_le_trans(old_r[a], x@, old_r[b - 1]);
            } else if a < p && b < p {
                assert(name_le(old_r[a], old_r[b]));
            } else if a > p {
                assert(name_le(old_r[a - 1], old_r[b - 1]));
            }
        }
        i = i + 1;
    }
    assert(views(names@).take(i as int) =~= views(names@));
    r
}

/// Two name lists sorted by name that hold the same names are the same list: the order
/// in which checklists run does not depend on the order in which they were listed.
pub proof fn law_sorted_names_unique(a: Seq<Seq<char>>, b: Seq<Seq<char>>)
    requires
        sorted_by_name(a),
        sorted_by_name(b),
        a.to_multiset() == b.to_multiset(),
    ensures
        a == b,
    decreases a.len(),
{
    vstd::seq_lib::to_multiset_len(a);
    vstd::seq_lib::to_multiset_len(b);
    if a.len() == 0 {
        assert(a =~= b);
    } else {
        vstd::seq_lib::to_multiset_contains(a, a[0]);
        vstd::seq_lib::to_multiset_contains(b, a[0]);
        vstd::seq_lib::to_multiset_contains(a, b[0]);
        vstd::seq_lib::to_multiset_contains(b, b[0]);
        assert(a.contains(a[0]));
        assert(b.contains(b[0]));
        let j = choose|j: int| 0 <= j < b.len() && b[j] == a[0];
        let k = choose|k: int| 0 <= k < a.len() && a[k] == b[0];
        if j > 0 {
            assert(name_le(b[0], b[j]));
        }
        if k > 0 {
            assert(name_le(a[0], a[k]));
        }
        lemma_name_le_refl(a[0]);
        lemma_name_le_antisymmetric(a[0], b[0]);
        vstd::seq_lib::to_multiset_remove(a, 0);
        vstd::seq_lib::to_multiset_remove(b, 0);
        assert(a.remove(0) =~= a.drop_first());
        assert(b.remove(0) =~= b.drop_first());
        assert(sorted_by_name(a.drop_first())) by {
            assert forall|x: int, y: int| 0 <= x < y < a.drop_first().len() implies name_le(
                #[trigger] a.drop_first()[x],
                #[trigger] a.drop_first()[y],
            ) by {
                assert(name_le(a[x + 1], a[y + 1]));
            }
        }
        assert(sorted_by_name(b.drop_first())) by {
            assert forall|x: int, y: int| 0 <= x < y < b.drop_first().len() implies name_le(
                #[trigger] b.drop_first()[x],
                #[trigger] b.drop_first()[y],
            ) by {
                assert(name_le(b[x + 1], b[y + 1]));
            }
        }
        law_sorted_names_unique(a.drop_first(), b.drop_first());
        assert(a =~= seq![a[0]] + a.drop_first());
        assert(b =~= seq![b[0]] + b.drop_first());
    }
}

/// The checklists an event goes through, in order: the project's, then the global ones
/// that the project does not shadow. `project` and `global` are each sorted by name.
pub fn checklist_order(project: &Vec<String>, global: &Vec<String>) -> (r: Vec<String>)
    ensures
        views(r@) == views(project@) + unvisited(views(global@), views(project@)),
{
    let mut r: Vec<String> = Vec::new();
    let mut i: usize = 0;
    while i < project.len()
        invariant
            i <= project.len(),
            views(r@) == views(project@).take(i as int),
        decreases project.len() - i,
    {
        let x = project[i].clone();
        proof {
            crate::flow::lemma_views_push(r@, x);
        }
        r.push(x);
        assert(views(r@) =~= views(project@).take(i + 1));
        i = i + 1;
    }
    assert(views(project@).take(i as int) =~= views(project@));
    let rest = unshadowed(global, project);
    let mut j: usize = 0;
    while j < rest.len()
        invariant
            j <= rest.len(),
            views(r@) == views(project@) + views(rest@).take(j as int),
        decreases rest.len() - j,
    {
        let x = rest[j].clone();
        proof {
            crate::flow::lemma_views_push(r@, x);
        }
        r.push(x);
        assert(views(r@) =~= views(project@) + views(rest@).take(j + 1));
        j = j + 1;
    }
    assert(views(rest@).take(j as int) =~= views(rest@));
    r
}

/// What the run over the checklists does next.
#[derive(Debug)]
pub enum RunAction {
    /// Evaluate the checklist at this position of the order.
    Evaluate(usize),
    /// Answer the hook event.
    Respond(HookResponse),
}

/// One step of the run over `n` checklists, of which the first `done` have been
/// evaluated, `last` being what the latest one gave: the first checklist that blocks
/// answers the event; when none blocks, the event is approved. (An evaluation that fails
/// ends the run with its error before another step is taken.)
pub fn run_step(n: usize, done: usize, last: Option<HookResponse>) -> (a: RunAction)
    requires
        done <= n,
    ensures
        last is Some ==> a == RunAction::Respond(last->0),
        last is None && done < n ==> a == RunAction::Evaluate(done),
        last is None && done == n ==> a == RunAction::Respond(HookResponse::Approve),
{
    match last {
        Some(resp) => RunAction::Respond(resp),
        None => if done < n {
            RunAction::Evaluate(done)
        } else {
            RunAction::Respond(HookResponse::Approve)
        },
    }
}

/// `name_le` is the order of `str`: `a` sorts no later than `b` exactly when `a` is a
/// prefix of `b`, or at the first position where they differ `a` has the smaller code
/// point.
pub proof fn law_name_le_is_str_order(a: Seq<char>, b: Seq<char>)
    ensures
        name_le(a, b) <==> (a.len() <= b.len() && b.subrange(0, a.len() as int) == a) || exists|
            i: int,
        |
            0 <= i < a.len() && i < b.len() && #[trigger] a.subrange(0, i) == b.subrange(0, i)
                && (a[i] as u32) < (b[i] as u32),
    decreases a.len(),
{
    let prefix = a.len() <= b.len() && b.subrange(0, a.len() as int) == a;
    let differ = exists|i: int|
        0 <= i < a.len() && i < b.len() && #[trigger] a.subrange(0, i) == b.subrange(0, i) && (
        a[i] as u32) < (b[i] as u32);
    if a.len() == 0 {
        assert(b.subrange(0, 0) =~= a);
    } else if b.len() == 0 {
    } else if a[0] != b[0] {
        if prefix {
            assert(b.subrange(0, a.len() as int)[0] == b[0]);
        }
        if differ {
            let i = choose|i: int|
                0 <= i < a.len() && i < b.len() && #[trigger] a.subrange(0, i) == b.subrange(0, i)
                    && (a[i] as u32) < (b[i] as u32);
            if i > 0 {
                assert(a.subrange(0, i)[0] == b.subrange(0, i)[0]);
            }
        }
        if (a[0] as u32) < (b[0] as u32) {
            assert(a.subrange(0, 0) =~= b.subrange(0, 0));
        }
    } else {
        let a1 = a.drop_first();
        let b1 = b.drop_first();
        law_name_le_is_str_order(a1, b1);
        let prefix1 = a1.len() <= b1.len() && b1.subrange(0, a1.len() as int) == a1;
        let differ1 = exists|i: int|
            0 <= i < a1.len() && i < b1.len() && #[trigger] a1.subrange(0, i) == b1.subrange(0, i)
                && (a1[i] as u32) < (b1[i] as u32);
        if prefix {
            assert(b1.subrange(0, a1.len() as int) =~= b.subrange(0, a.len() as int).drop_first());
        }
        if prefix1 {
            assert(b.subrange(0, a.len() as int) =~= seq![b[0]] + b1.subrange(0, a1.len() as int));
            assert(a =~= seq![a[0]] + a1);
        }
        if differ {
            let i = choose|i: int|
                0 <= i < a.len() && i < b.len() && #[trigger] a.subrange(0, i) == b.subrange(0, i)
                    && (a[i] as u32) < (b[i] as u32);
            assert(i != 0);
            assert(a1.subrange(0, i - 1) =~= a.subrange(0, i).drop_first());
            assert(b1.subrange(0, i - 1) =~= b.subrange(0, i).drop_first());
            assert(a1[i - 1] == a[i]);
            assert(b1[i - 1] == b[i]);
            assert(a1.subrange(0, i - 1) == b1.subrange(0, i - 1));
        }
        if differ1 {
            let i = choose|i: int|
                0 <= i < a1.len() && i < b1.len() && #[trigger] a1.subrange(0, i) == b1.subrange(
                    0,
                    i,
                ) && (a1[i] as u32) < (b1[i] as u32);
            assert(a.subrange(0, i + 1) =~= seq![a[0]] + a1.subrange(0, i));
            assert(b.subrange(0, i + 1) =~= seq![b[0]] + b1.subrange(0, i));
            assert(a.subrange(0, i + 1) == b.subrange(0, i + 1));
            assert(a[i + 1] == a1[i]);
            assert(b[i + 1] == b1[i]);
        }
    }
}

} // verus!
