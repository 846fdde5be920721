//! The verified part of evaluating `match_input` CEL expressions: when an expression is
//! evaluated at all, the `command_words` variable, and what an evaluation outcome means.
use vstd::prelude::*;
use crate::error::SteplockError;
use crate::text::{is_ws, split_words, to_chars, trim, trim_bounds, trim_start, views, words};

verus! {

/// The expression that must be evaluated: none when `expr` is absent or blank, since no
/// filter matches every event.
pub open spec fn expression_to_evaluate(expr: Option<String>) -> Option<Seq<char>> {
    match expr {
        Some(e) => if trim(e@).len() == 0 {
            None
        } else {
            Some(e@)
        },
        None => None,
    }
}

/// The `match_input` expression to evaluate, or `None` when every event matches
/// (no expression, or only whitespace).
pub fn expression_to_check(expr: &Option<String>) -> (r: Option<&String>)
    ensures
        match r {
            Some(e) => expression_to_evaluate(*expr) == Some(e@),
            None => expression_to_evaluate(*expr) is None,
        },
{
    match expr {
        None => None,
        Some(e) => {
            let v = to_chars(e.as_str());
            let (a, b) = trim_bounds(&v, 0, v.len());
            assert(v@.subrange(0, v@.len() as int) =~= e@);
            if a == b {
                None
            } else {
                Some(e)
            }
        },
    }
}

/// The `command_words` CEL variable: the whitespace-separated words of the `command`
/// input, so that `input.command_words.exists(x, x == 'push')` matches a `push`
/// subcommand and not a path that contains `push`.
pub fn command_words(command: &str) -> (ws: Vec<String>)
    ensures
        views(ws@) == words(command@),
{
    split_words(command)
}

/// What evaluating an expression gave.
#[derive(Debug)]
pub enum CelOutcome {
    /// The expression did not compile; the compiler's message.
    CompileFailed(String),
    /// The compiler crashed on the expression.
    CompilerCrashed,
    /// Running the expression failed; the interpreter's message.
    ExecutionFailed(String),
    /// The expression read a key that the event does not have.
    MissingKey,
    /// The expression gave a boolean.
    Bool(bool),
    /// The expression gave `null`.
    Null,
    /// The expression gave another value.
    OtherValue,
}

/// The message for a crashed compilation.
pub open spec fn crash_message() -> Seq<char> {
    "CEL expression caused an internal parse error"@
}

/// Whether the event matches `expr`, given what evaluating it gave: a boolean is its own
/// answer, `null` does not match, any other value matches. A missing key reads as `null`,
/// so a condition on a missing field is false without error; any other failure is a CEL
/// error.
pub fn match_verdict(expr: &str, outcome: CelOutcome) -> (r: Result<bool, SteplockError>)
    ensures
        match outcome {
            CelOutcome::CompileFailed(m) => r is Err && r->Err_0.is_cel(expr@, m@),
            CelOutcome::CompilerCrashed => r is Err && r->Err_0.is_cel(expr@, crash_message()),
            CelOutcome::ExecutionFailed(m) => r is Err && r->Err_0.is_cel(expr@, m@),
            CelOutcome::MissingKey => r == Ok::<bool, SteplockError>(false),
            CelOutcome::Bool(b) => r == Ok::<bool, SteplockError>(b),
            CelOutcome::Null => r == Ok::<bool, SteplockError>(false),
            CelOutcome::OtherValue => r == Ok::<bool, SteplockError>(true),
        },
{
    match outcome {
        CelOutcome::CompileFailed(message) => Err(
            SteplockError::Cel { expr: expr.to_owned(), message },
        ),
        CelOutcome::CompilerCrashed => Err(
            SteplockError::Cel {
                expr: expr.to_owned(),
                message: String::from_str("CEL expression caused an internal parse error"),
            },
        ),
        CelOutcome::ExecutionFailed(message) => Err(
            SteplockError::Cel { expr: expr.to_owned(), message },
        ),
        CelOutcome::MissingKey => Ok(false),
        CelOutcome::Bool(b) => Ok(b),
        CelOutcome::Null => Ok(false),
        CelOutcome::OtherValue => Ok(true),
    }
}

/// Whether an event passes a checklist's `match_input` filter `expr`: every event does when
/// the expression is absent or blank, and `outcome` is then not looked at; otherwise the
/// verdict on what evaluating the expression gave.
pub fn filter_verdict(expr: &Option<String>, outcome: CelOutcome) -> (r: Result<bool, SteplockError>)
    ensures
        expression_to_evaluate(*expr) is None ==> r == Ok::<bool, SteplockError>(true),
        expression_to_evaluate(*expr) is Some ==> match outcome {
            CelOutcome::CompileFailed(m) => r is Err && r->Err_0.is_cel(expr->0@, m@),
            CelOutcome::CompilerCrashed => r is Err && r->Err_0.is_cel(expr->0@, crash_message()),
            CelOutcome::ExecutionFailed(m) => r is Err && r->Err_0.is_cel(expr->0@, m@),
            CelOutcome::MissingKey => r == Ok::<bool, SteplockError>(false),
            CelOutcome::Bool(b) => r == Ok::<bool, SteplockError>(b),
            CelOutcome::Null => r == Ok::<bool, SteplockError>(false),
            CelOutcome::OtherValue => r == Ok::<bool, SteplockError>(true),
        },
{
    match expression_to_check(expr) {
        None => Ok(true),
        Some(e) => match_verdict(e.as_str(), outcome),
    }
}

/// An absent expression, or one made only of whitespace, lets every event through.
pub proof fn law_blank_filter_matches_all(expr: Option<String>)
    requires
        expr is Some ==> forall|i: int| 0 <= i < expr->0@.len() ==> is_ws(#[trigger] expr->0@[i]),
    ensures
        expression_to_evaluate(expr) is None,
{
    if expr is Some {
        lemma_trim_blank(expr->0@);
    }
}

/// Text made only of whitespace trims to nothing.
proof fn lemma_trim_blank(s: Seq<char>)
    requires
        forall|i: int| 0 <= i < s.len() ==> is_ws(#[trigger] s[i]),
    ensures
        trim(s).len() == 0,
    decreases s.len(),
{
    if s.len() > 0 {
        assert forall|i: int| 0 <= i < s.drop_first().len() implies is_ws(
            #[trigger] s.drop_first()[i],
        ) by {
            assert(s.drop_first()[i] == s[i + 1]);
        }
        lemma_trim_blank(s.drop_first());
        assert(is_ws(s[0]));
        assert(trim_start(s) == trim_start(s.drop_first()));
    } else {
        assert(trim_start(s) == s);
    }
}

} // verus!
