//! A diagram with one step always parses: the flow of the single step `s`.
use vstd::prelude::*;
use crate::flow::{
    append_new, apply_line, bfs_order, bfs_run, empty_model, end_marker, first_stuck_from,
    is_walk, lemma_model_push, mmd_model, model_of_lines, parse_spec, put_label, reaches_end,
    succ, without_key, FlowView, MmdModel,
};
use crate::text::{
    find, is_ws, lemma_find_from_skip, lemma_find_none, lemma_split_char_piece,
    lemma_split_char_sep, lemma_trim_end_skip, lemma_trim_start_skip, split_char, split_once,
    starts_with, trim, trim_start,
};

verus! {

/// `c` may stand in a simple state name: a lowercase letter, a digit or `_`.
pub open spec fn name_char(c: char) -> bool {
    let n = c as u32;
    (0x61 <= n && n <= 0x7a) || (0x30 <= n && n <= 0x39) || n == 0x5f
}

/// `s` is a simple state name: a lowercase letter, then lowercase letters, digits and `_`.
pub open spec fn simple_name(s: Seq<char>) -> bool {
    &&& s.len() > 0
    &&& 0x61 <= s[0] as u32 <= 0x7a
    &&& forall|i: int| 0 <= i < s.len() ==> name_char(#[trigger] s[i])
}

/// Four spaces of indentation.
spec fn indent() -> Seq<char> {
    "    "@
}

proof fn lemma_indent_ws()
    ensures
        forall|i: int| 0 <= i < indent().len() ==> is_ws(#[trigger] indent()[i]),
        indent().len() == 4,
{
    reveal_strlit("    ");
}

/// The start line `    [*] --> s` declares `s` as an initial state.
proof fn lemma_line_start(m: MmdModel, s: Seq<char>)
    requires
        simple_name(s),
        !m.initial.contains(s),
    ensures
        apply_line(m, "    [*] --> "@ + s) == (MmdModel { initial: m.initial.push(s), ..m }),
{
    reveal_strlit("    [*] --> ");
    reveal_strlit("[*] --> ");
    reveal_strlit("[*] ");
    reveal_strlit("[*]");
    reveal_strlit(" ");
    reveal_strlit("-->");
    reveal_strlit("%%");
    reveal_strlit("stateDiagram-v2");
    reveal_strlit("    ");
    lemma_indent_ws();
    let line = "    [*] --> "@ + s;
    let t = "[*] --> "@ + s;
    assert(line =~= indent() + t);
    lemma_trim_start_skip(indent(), t);
    assert(!is_ws(t[0]));
    assert(t.last() == s.last());
    assert(name_char(s[s.len() - 1]));
    assert(trim(line) == t);
    assert(t.subrange(0, 2)[0] == t[0]);
    assert(!starts_with(t, "%%"@));
    assert(t[0] != "stateDiagram-v2"@[0]);
    assert(t != "stateDiagram-v2"@);
    let arrow = "-->"@;
    assert forall|k: int| 0 <= k < 4 implies #[trigger] t.subrange(k, k + arrow.len()) != arrow by {
        assert(t.subrange(k, k + 3)[0] == t[k]);
    }
    lemma_find_from_skip(t, arrow, 0, 4);
    assert(t.subrange(4, 7) =~= arrow);
    assert(find(t, arrow) == Some(4int));
    let l0 = t.subrange(0, 4);
    let r0 = t.subrange(7, t.len() as int);
    assert(split_once(t, arrow) == Some((l0, r0)));
    assert(l0 =~= "[*]"@ + " "@);
    lemma_trim_end_skip("[*]"@, " "@);
    assert(trim(l0) == end_marker());
    assert(r0 =~= " "@ + s);
    lemma_trim_start_skip(" "@, s);
    assert(trim(r0) == s);
}


/// The exit line `    s --> [*]` adds the transition from `s` to `[*]` and makes `s`
/// terminal.
proof fn lemma_line_exit(m: MmdModel, s: Seq<char>)
    requires
        simple_name(s),
    ensures
        apply_line(m, "    "@ + s + " --> [*]"@) == (MmdModel {
            edges: m.edges.push((s, end_marker())),
            terminal: if m.terminal.contains(s) {
                m.terminal
            } else {
                m.terminal.push(s)
            },
            ..m
        }),
{
    reveal_strlit("    ");
    reveal_strlit(" --> [*]");
    reveal_strlit(" [*]");
    reveal_strlit("[*]");
    reveal_strlit(" ");
    reveal_strlit("-->");
    reveal_strlit("%%");
    reveal_strlit("stateDiagram-v2");
    lemma_indent_ws();
    let k = s.len() as int;
    let t = s + " --> [*]"@;
    assert("    "@ + s + " --> [*]"@ =~= indent() + t);
    lemma_trim_start_skip(indent(), t);
    assert(t[0] == s[0]);
    assert(name_char(s[0]));
    assert(t.last() == ']');
    assert(trim(indent() + t) == t);
    assert(t.subrange(0, 2)[0] == t[0]);
    assert(!starts_with(t, "%%"@));
    assert(t[t.len() - 1] != "stateDiagram-v2"@[14]);
    assert(t != "stateDiagram-v2"@);
    let arrow = "-->"@;
    assert forall|j: int| 0 <= j < k + 1 implies #[trigger] t.subrange(j, j + arrow.len())
        != arrow by {
        assert(t.subrange(j, j + 3)[0] == t[j]);
        if j < k {
            assert(name_char(s[j]));
        }
    }
    lemma_find_from_skip(t, arrow, 0, k + 1);
    assert(t.subrange(k + 1, k + 4) =~= arrow);
    assert(find(t, arrow) == Some(k + 1));
    let l0 = t.subrange(0, k + 1);
    let r0 = t.subrange(k + 4, t.len() as int);
    assert(split_once(t, arrow) == Some((l0, r0)));
    assert(l0 =~= s + " "@);
    lemma_trim_end_skip(s, " "@);
    assert(name_char(s[k - 1]));
    assert(trim_start(s + " "@) == s + " "@) by {
        assert((s + " "@)[0] == s[0]);
    }
    assert(trim(l0) == s);
    assert(r0 =~= " "@ + "[*]"@);
    lemma_trim_start_skip(" "@, "[*]"@);
    assert(trim(r0) == end_marker());
    assert(s[0] != end_marker()[0]);
    assert(s != end_marker());
}

/// The label line `    s : A step` labels `s`.
proof fn lemma_line_label(m: MmdModel, s: Seq<char>)
    requires
        simple_name(s),
    ensures
        apply_line(m, "    "@ + s + " : A step"@) == (MmdModel {
            labels: put_label(m.labels, s, "A step"@),
            ..m
        }),
{
    reveal_strlit("    ");
    reveal_strlit(" : A step");
    reveal_strlit(" A step");
    reveal_strlit("A step");
    reveal_strlit(" ");
    reveal_strlit(":");
    reveal_strlit("-->");
    reveal_strlit("%%");
    reveal_strlit("stateDiagram-v2");
    lemma_indent_ws();
    let k = s.len() as int;
    let lit = " : A step"@;
    let t = s + lit;
    assert("    "@ + s + " : A step"@ =~= indent() + t);
    lemma_trim_start_skip(indent(), t);
    assert(t[0] == s[0]);
    assert(name_char(s[0]));
    assert(t.last() == 'p');
    assert(trim(indent() + t) == t);
    assert(t.subrange(0, 2)[0] == t[0]);
    assert(!starts_with(t, "%%"@));
    assert(t[t.len() - 1] != "stateDiagram-v2"@[14]);
    assert(t != "stateDiagram-v2"@);
    let arrow = "-->"@;
    assert forall|j: int| 0 <= j < t.len() implies t[j] != arrow[0] by {
        if j < k {
            assert(name_char(s[j]));
        } else {
            let i = j - k;
            assert(t[j] == lit[i]);
            assert(lit[i] != '-') by {
                if i == 0 {
                } else if i == 1 {
                } else if i == 2 {
                } else if i == 3 {
                } else if i == 4 {
                } else if i == 5 {
                } else if i == 6 {
                } else if i == 7 {
                } else {
                }
            }
        }
    }
    lemma_find_none(t, arrow, 0);
    assert(split_once(t, arrow) is None);
    let colon = ":"@;
    assert forall|j: int| 0 <= j < k + 1 implies #[trigger] t.subrange(j, j + colon.len())
        != colon by {
        assert(t.subrange(j, j + 1)[0] == t[j]);
        if j < k {
            assert(name_char(s[j]));
        }
    }
    lemma_find_from_skip(t, colon, 0, k + 1);
    assert(t.subrange(k + 1, k + 2) =~= colon);
    assert(find(t, colon) == Some(k + 1));
    let l0 = t.subrange(0, k + 1);
    let r0 = t.subrange(k + 2, t.len() as int);
    assert(split_once(t, colon) == Some((l0, r0)));
    assert(l0 =~= s + " "@);
    lemma_trim_end_skip(s, " "@);
    assert(name_char(s[k - 1]));
    assert(trim_start(s + " "@) == s + " "@) by {
        assert((s + " "@)[0] == s[0]);
    }
    assert(trim(l0) == s);
    assert(r0 =~= " "@ + "A step"@);
    lemma_trim_start_skip(" "@, "A step"@);
    assert(trim(r0) == "A step"@);
}


/// The fixed pieces of the single-step diagram hold no line break.
proof fn lemma_pieces_one_line()
    ensures
        !"stateDiagram-v2"@.contains('\n'),
        !"    [*] --> "@.contains('\n'),
        !" --> [*]"@.contains('\n'),
        !" : A step"@.contains('\n'),
{
    reveal_strlit("stateDiagram-v2");
    assert forall|i: int| 0 <= i < "stateDiagram-v2"@.len() implies "stateDiagram-v2"@[i] != '\n' by {
        if i == 0 {
        } else         if i == 1 {
        } else         if i == 2 {
        } else         if i == 3 {
        } else         if i == 4 {
        } else         if i == 5 {
        } else         if i == 6 {
        } else         if i == 7 {
        } else         if i == 8 {
        } else         if i == 9 {
        } else         if i == 10 {
        } else         if i == 11 {
        } else         if i == 12 {
        } else         if i == 13 {
        } else {
        }
    }
    reveal_strlit("    [*] --> ");
    assert forall|i: int| 0 <= i < "    [*] --> "@.len() implies "    [*] --> "@[i] != '\n' by {
        if i == 0 {
        } else         if i == 1 {
        } else         if i == 2 {
        } else         if i == 3 {
        } else         if i == 4 {
        } else         if i == 5 {
        } else         if i == 6 {
        } else         if i == 7 {
        } else         if i == 8 {
        } else         if i == 9 {
        } else         if i == 10 {
        } else {
        }
    }
    reveal_strlit(" --> [*]");
    assert forall|i: int| 0 <= i < " --> [*]"@.len() implies " --> [*]"@[i] != '\n' by {
        if i == 0 {
        } else         if i == 1 {
        } else         if i == 2 {
        } else         if i == 3 {
        } else         if i == 4 {
        } else         if i == 5 {
        } else         if i == 6 {
        } else {
        }
    }
    reveal_strlit(" : A step");
    assert forall|i: int| 0 <= i < " : A step"@.len() implies " : A step"@[i] != '\n' by {
        if i == 0 {
        } else         if i == 1 {
        } else         if i == 2 {
        } else         if i == 3 {
        } else         if i == 4 {
        } else         if i == 5 {
        } else         if i == 6 {
        } else         if i == 7 {
        } else {
        }
    }
}


/// A line made of text without breaks and a simple name has no break.
proof fn lemma_line_no_break(a: Seq<char>, s: Seq<char>, b: Seq<char>)
    requires
        simple_name(s),
        !a.contains('\n'),
        !b.contains('\n'),
    ensures
        !(a + s + b).contains('\n'),
{
    let x = a + s + b;
    if x.contains('\n') {
        let i = choose|i: int| 0 <= i < x.len() && x[i] == '\n';
        if i < a.len() {
            assert(a[i] == '\n');
        } else if i < a.len() + s.len() {
            assert(name_char(s[i - a.len()]));
        } else {
            assert(b[i - a.len() - s.len()] == '\n');
        }
    }
}

/// The header line changes nothing.
proof fn lemma_line_header(m: MmdModel)
    ensures
        apply_line(m, "stateDiagram-v2"@) == m,
{
    reveal_strlit("stateDiagram-v2");
    let t = "stateDiagram-v2"@;
    assert(!is_ws(t[0]));
    assert(!is_ws(t.last()));
    assert(trim(t) == t);
}

/// An empty line changes nothing.
proof fn lemma_line_empty(m: MmdModel)
    ensures
        apply_line(m, Seq::<char>::empty()) == m,
{
    assert(trim(Seq::<char>::empty()) == Seq::<char>::empty());
}

/// The diagram of the single step `s`, labelled `A step`.
pub open spec fn single_step_diagram(s: Seq<char>) -> Seq<char> {
    "stateDiagram-v2\n    [*] --> "@ + s + "\n    "@ + s + " --> [*]\n    "@ + s + " : A step\n"@
}

/// A diagram with one step, whose name is a lowercase letter followed by lowercase
/// letters, digits and `_`, parses: the step is the initial state, the only state of the
/// order, and terminal.
pub proof fn law_single_step_parses(s: Seq<char>)
    requires
        simple_name(s),
    ensures
        parse_spec(single_step_diagram(s)) == Ok::<FlowView, Seq<char>>(
            FlowView {
                initial: seq![s],
                edges: seq![(s, end_marker())],
                labels: seq![(s, "A step"@)],
                terminal: seq![s],
                order: seq![s],
            },
        ),
{
    reveal_strlit("stateDiagram-v2\n    [*] --> ");
    reveal_strlit("\n    ");
    reveal_strlit(" --> [*]\n    ");
    reveal_strlit(" : A step\n");
    reveal_strlit("stateDiagram-v2");
    reveal_strlit("    [*] --> ");
    reveal_strlit("    ");
    reveal_strlit(" --> [*]");
    reveal_strlit(" : A step");
    let e = Seq::<char>::empty();
    let l0 = "stateDiagram-v2"@;
    let l1 = "    [*] --> "@ + s;
    let l2 = "    "@ + s + " --> [*]"@;
    let l3 = "    "@ + s + " : A step"@;
    let c0 = l0;
    let c1 = c0.push('\n') + l1;
    let c2 = c1.push('\n') + l2;
    let c3 = c2.push('\n') + l3;
    let content = single_step_diagram(s);
    assert(content =~= c3.push('\n'));
    lemma_pieces_one_line();
    assert(!"    "@.contains('\n')) by {
        if "    "@.contains('\n') {
            let i = choose|i: int| 0 <= i < 4 && "    "@[i] == '\n';
            lemma_indent_ws();
        }
    }
    lemma_line_no_break("    [*] --> "@, s, e);
    assert(l1 =~= "    [*] --> "@ + s + e);
    lemma_line_no_break("    "@, s, " --> [*]"@);
    lemma_line_no_break("    "@, s, " : A step"@);
    // the lines
    lemma_split_char_piece(e, l0, '\n');
    assert(e + l0 =~= l0);
    assert(split_char(e, '\n') == seq![e]);
    assert(split_char(c0, '\n') =~= seq![l0]);
    lemma_split_char_sep(c0, '\n');
    lemma_split_char_piece(c0.push('\n'), l1, '\n');
    assert(split_char(c1, '\n') =~= seq![l0, l1]);
    lemma_split_char_sep(c1, '\n');
    lemma_split_char_piece(c1.push('\n'), l2, '\n');
    assert(split_char(c2, '\n') =~= seq![l0, l1, l2]);
    lemma_split_char_sep(c2, '\n');
    lemma_split_char_piece(c2.push('\n'), l3, '\n');
    assert(split_char(c3, '\n') =~= seq![l0, l1, l2, l3]);
    lemma_split_char_sep(c3, '\n');
    let lines = seq![l0, l1, l2, l3, e];
    assert(split_char(content, '\n') =~= lines);
    // the model
    let ls0 = Seq::<Seq<char>>::empty();
    let ls1 = ls0.push(l0);
    let ls2 = ls1.push(l1);
    let ls3 = ls2.push(l2);
    let ls4 = ls3.push(l3);
    let ls5 = ls4.push(e);
    assert(ls5 =~= lines);
    let m0 = empty_model();
    assert(model_of_lines(ls0) == m0);
    lemma_model_push(ls0, l0);
    lemma_line_header(m0);
    lemma_model_push(ls1, l1);
    lemma_line_start(m0, s);
    let m2 = MmdModel { initial: seq![s], ..m0 };
    assert(model_of_lines(ls2) == m2);
    lemma_model_push(ls2, l2);
    lemma_line_exit(m2, s);
    let m3 = MmdModel { edges: seq![(s, end_marker())], terminal: seq![s], ..m2 };
    assert(model_of_lines(ls3) == m3);
    lemma_model_push(ls3, l3);
    lemma_line_label(m3, s);
    assert(without_key(Seq::<(Seq<char>, Seq<char>)>::empty(), s) == Seq::<
        (Seq<char>, Seq<char>),
    >::empty());
    let m4 = MmdModel { labels: seq![(s, "A step"@)], ..m3 };
    assert(put_label(m3.labels, s, "A step"@) =~= m4.labels);
    assert(model_of_lines(ls4) == m4);
    lemma_model_push(ls4, e);
    lemma_line_empty(m4);
    assert(mmd_model(content) == m4);
    // the order
    let edges = m4.edges;
    let none = Seq::<Seq<char>>::empty();
    assert(seq![s].drop_last() =~= none);
    assert(append_new(none, none) == none);
    assert(!none.contains(s));
    assert(append_new(none, seq![s]) =~= seq![s]);
    assert(append_new(seq![], seq![s]) =~= seq![s]);
    let no_edges = Seq::<(Seq<char>, Seq<char>)>::empty();
    assert(edges.drop_last() =~= no_edges);
    assert(edges.last() == (s, end_marker()));
    assert(succ(no_edges, s) == none);
    assert(succ(edges, s) =~= none);
    assert(append_new(seq![s], succ(edges, s)) =~= seq![s]);
    assert(bfs_run(edges, seq![s], 1, 1) == (seq![s], 1nat));
    assert(bfs_run(edges, seq![s], 0, 2) == (seq![s], 1nat));
    assert(bfs_order(edges, seq![s]) == seq![s]);
    // every state finishes
    let p = seq![s];
    assert(is_walk(edges, p));
    assert(m4.terminal.contains(p.last()));
    assert(reaches_end(edges, m4.terminal, s));
    assert(first_stuck_from(edges, m4.terminal, seq![s], 1) is None);
    assert(first_stuck_from(edges, m4.terminal, seq![s], 0) is None);
}

} // verus!
