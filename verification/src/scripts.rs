//! The helper scripts kept in a session directory: `ack.sh` and `preview.sh`.
use vstd::prelude::*;
use crate::flow::{label_of, pair_views, FlowGraph, FlowView};
use crate::gate::label_or_name;
use crate::text::{decimal, decimal_string, push_char, to_chars, views};

verus! {

broadcast use vstd::seq_lib::group_seq_properties;

/// `ack.sh`: acknowledges the current item of the session whose `state.json` lies beside
/// it, and advances to the next one (`$1`, or the single next state). Requires `jq`.
pub const ACK_SH: &'static str = r##"#!/bin/sh
# Acknowledge the current checklist item and advance to the next one.
# Usage: sh ack.sh [next-state]
DIR="$(cd "$(dirname "$0")" && pwd)"
STATE="$DIR/state.json"
AUDIT="$DIR/../../../audit.log"

if [ ! -f "$STATE" ]; then
  echo "steplock: no state file at $STATE" >&2
  exit 1
fi

CHECKLIST=$(jq -r '.checklist' "$STATE")
CURRENT=$(jq -r '.current_state // empty' "$STATE")

if [ -z "$CURRENT" ] || [ "$CURRENT" = "[*]" ]; then
  echo "steplock: nothing to acknowledge for '$CHECKLIST' (session already complete)"
  exit 0
fi

NEXT="${1:-$(jq -r '.next_state // empty' "$STATE")}"

if [ -z "$NEXT" ]; then
  echo "steplock: '$CURRENT' has several next states; run again with one of:" >&2
  jq -r '.transitions[] | select(. != "[*]")' "$STATE" | sed 's/^/  /' >&2
  exit 1
fi

if [ "$NEXT" = "$CURRENT" ]; then
  echo "steplock: '$CURRENT' is the current item; nothing to acknowledge"
  exit 0
fi

if ! jq -e --arg n "$NEXT" '.transitions | index($n) != null' "$STATE" >/dev/null; then
  echo "steplock: '$NEXT' is not a valid next state from '$CURRENT'" >&2
  exit 1
fi

TMP="$STATE.tmp.$$"
jq --arg n "$NEXT" '.visited += [.current_state] | .current_state = $n | .next_state = null' \
  "$STATE" > "$TMP" && mv "$TMP" "$STATE"

SESSION=$(basename "$(dirname "$DIR")")
TS=$(date -u +%Y-%m-%dT%H:%M:%SZ)
jq -cn --arg c "$CHECKLIST" --arg s "$CURRENT" --arg sess "$SESSION" --arg ts "$TS" \
  '{event: "ack", checklist: $c, state: $s, session: $sess, ts: $ts}' >> "$AUDIT" 2>/dev/null
echo "steplock: acknowledged '$CURRENT'" >&2
"##;

/// The lines of `preview.sh` before its title.
pub const PREVIEW_HEAD: &'static str = r#"#!/bin/sh
DIR="$(cd "$(dirname "$0")" && pwd)"
STATE="$DIR/state.json"
VISITED=$(jq -r '.visited[]?' "$STATE" 2>/dev/null)

"#;

/// The lines of `preview.sh` between its title and its items.
pub const PREVIEW_BODY: &'static str = r#"
check() {
  label="$1"; state="$2"
  if printf '%s\n' $VISITED | grep -qxF "$state"; then
    printf "  [x] %s\n" "$label"
  else
    printf "  [ ] %s\n" "$label"
  fi
}

"#;

/// `s` made safe inside single quotes: each `'` becomes `'\''`.
pub open spec fn shell_escape(s: Seq<char>) -> Seq<char>
    decreases s.len(),
{
    if s.len() == 0 {
        seq![]
    } else if s.last() == '\'' {
        shell_escape(s.drop_last()) + seq!['\'', '\\', '\'', '\'']
    } else {
        shell_escape(s.drop_last()).push(s.last())
    }
}

/// One `check '<label>' '<state>'` line per state of `order`.
pub open spec fn check_lines(order: Seq<Seq<char>>, labels: Seq<(Seq<char>, Seq<char>)>) -> Seq<
    char,
>
    decreases order.len(),
{
    if order.len() == 0 {
        seq![]
    } else {
        check_lines(order.drop_last(), labels) + "check '"@ + shell_escape(
            label_or_name(labels, order.last()),
        ) + "' '"@ + shell_escape(order.last()) + "'\n"@
    }
}

/// The text of `preview.sh` for the checklist `name` with the flow `g`.
pub open spec fn preview_script(name: Seq<char>, g: FlowView) -> Seq<char> {
    let n = g.order.len();
    PREVIEW_HEAD@ + "echo \"Checklist: "@ + name + " ("@ + decimal(n) + " item"@ + (if n == 1 {
        Seq::<char>::empty()
    } else {
        "s"@
    }) + ")\"\n"@ + PREVIEW_BODY@ + check_lines(g.order, g.labels)
}

/// `s` with each `'` written `'\''`, for use inside single quotes.
pub fn shell_escape_exec(s: &str) -> (r: String)
    ensures
        r@ == shell_escape(s@),
{
    let v = to_chars(s);
    let mut r = String::new();
    let mut i: usize = 0;
    while i < v.len()
        invariant
            i <= v.len(),
            v@ == s@,
            r@ == shell_escape(v@.take(i as int)),
        decreases v.len() - i,
    {
        assert(v@.take(i + 1).drop_last() =~= v@.take(i as int));
        let ghost before = r@;
        if v[i] == '\'' {
            push_char(&mut r, '\'');
            push_char(&mut r, '\\');
            push_char(&mut r, '\'');
            push_char(&mut r, '\'');
            assert(r@ =~= before + seq!['\'', '\\', '\'', '\'']);
        } else {
            push_char(&mut r, v[i]);
        }
        i = i + 1;
    }
    assert(v@.take(i as int) =~= v@);
    r
}

/// The text of `preview.sh`: prints every item of the checklist in order, marked `[x]`
/// once visited. Labels and state names are quoted for the shell.
pub fn build_preview_sh(checklist_name: &str, flow: &FlowGraph) -> (script: String)
    ensures
        script@ == preview_script(checklist_name@, flow@),
{
    let n = flow.order.len();
    let count = decimal_string(n as u128);
    let mut s = String::from_str(PREVIEW_HEAD);
    s.append("echo \"Checklist: ");
    s.append(checklist_name);
    s.append(" (");
    s.append(count.as_str());
    s.append(" item");
    if n != 1 {
        s.append("s");
    } else {
        assert(s@ =~= s@ + Seq::<char>::empty());
    }
    s.append(")\"\n");
    s.append(PREVIEW_BODY);
    let ghost base = s@;
    let ghost o = views(flow.order@);
    let ghost labels = pair_views(flow.labels.entries@);
    assert(o.take(0) =~= Seq::<Seq<char>>::empty());
    assert(s@ =~= base + check_lines(o.take(0), labels));
    let mut i: usize = 0;
    while i < flow.order.len()
        invariant
            i <= flow.order.len(),
            o == views(flow.order@),
            labels == pair_views(flow.labels.entries@),
            s@ == base + check_lines(o.take(i as int), labels),
        decreases flow.order.len() - i,
    {
        let state = &flow.order[i];
        let label = match flow.labels.get(state.as_str()) {
            Some(l) => l.clone(),
            None => state.clone(),
        };
        let label_escaped = shell_escape_exec(label.as_str());
        let state_escaped = shell_escape_exec(state.as_str());
        s.append("check '");
        s.append(label_escaped.as_str());
        s.append("' '");
        s.append(state_escaped.as_str());
        s.append("'\n");
        assert(o.take(i + 1).drop_last() =~= o.take(i as int));
        assert(o.take(i + 1).last() == state@);
        assert(label@ == label_or_name(labels, state@));
        assert(s@ =~= base + check_lines(o.take(i + 1), labels));
        i = i + 1;
    }
    assert(o.take(i as int) =~= o);
    s
}

/// Escaping works character by character: the escape of `a + b` is the escape of `a`
/// followed by the escape of `b`; a `'` becomes `'\''` and any other character stays.
pub proof fn law_shell_escape(a: Seq<char>, b: Seq<char>, c: char)
    ensures
        shell_escape(a + b) == shell_escape(a) + shell_escape(b),
        shell_escape(seq![c]) == (if c == '\'' {
            seq!['\'', '\\', '\'', '\'']
        } else {
            seq![c]
        }),
    decreases b.len(),
{
    let none = Seq::<char>::empty();
    assert(seq![c].drop_last() =~= none);
    assert(seq![c].last() == c);
    assert(shell_escape(none) == none);
    assert(none + seq!['\'', '\\', '\'', '\''] =~= seq!['\'', '\\', '\'', '\'']);
    assert(none.push(c) =~= seq![c]);
    if b.len() == 0 {
        assert(a + b =~= a);
        assert(shell_escape(a) + shell_escape(b) =~= shell_escape(a));
    } else {
        law_shell_escape(a, b.drop_last(), c);
        assert((a + b).drop_last() =~= a + b.drop_last());
        assert((a + b).last() == b.last());
        let ea = shell_escape(a);
        let eb = shell_escape(b.drop_last());
        assert((ea + eb) + seq!['\'', '\\', '\'', '\''] =~= ea + (eb + seq![
            '\'',
            '\\',
            '\'',
            '\'',
        ]));
        assert((ea + eb).push(b.last()) =~= ea + eb.push(b.last()));
    }
}

/// The `check` lines of several states are those of each, in order; the line of one state
/// quotes its label, or its name when it has none, and then its name.
pub proof fn law_check_lines(
    a: Seq<Seq<char>>,
    b: Seq<Seq<char>>,
    x: Seq<char>,
    labels: Seq<(Seq<char>, Seq<char>)>,
)
    ensures
        check_lines(a + b, labels) == check_lines(a, labels) + check_lines(b, labels),
        check_lines(seq![x], labels) == "check '"@ + shell_escape(
            match label_of(labels, x) {
                Some(l) => l,
                None => x,
            },
        ) + "' '"@ + shell_escape(x) + "'\n"@,
    decreases b.len(),
{
    let none = Seq::<Seq<char>>::empty();
    assert(seq![x].drop_last() =~= none);
    assert(check_lines(none, labels) == Seq::<char>::empty());
    let line = "check '"@ + shell_escape(label_or_name(labels, x)) + "' '"@ + shell_escape(x)
        + "'\n"@;
    assert(Seq::<char>::empty() + line =~= line);
    if b.len() == 0 {
        assert(a + b =~= a);
        assert(check_lines(a, labels) + check_lines(b, labels) =~= check_lines(a, labels));
    } else {
        law_check_lines(a, b.drop_last(), x, labels);
        assert((a + b).drop_last() =~= a + b.drop_last());
        assert((a + b).last() == b.last());
        let l = "check '"@ + shell_escape(label_or_name(labels, b.last())) + "' '"@
            + shell_escape(b.last()) + "'\n"@;
        assert(check_lines(a + b, labels) == check_lines(a + b.drop_last(), labels) + l);
        assert(check_lines(b, labels) == check_lines(b.drop_last(), labels) + l);
        assert(check_lines(a, labels) + check_lines(b.drop_last(), labels) + l =~= check_lines(
            a,
            labels,
        ) + (check_lines(b.drop_last(), labels) + l));
    }
}

} // verus!
