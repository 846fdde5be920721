//! The errors of the library.
use vstd::prelude::*;

verus! {

/// All errors returned by the library. Each carries the text of its cause.
#[derive(Debug)]
#[non_exhaustive]
pub enum SteplockError {
    /// Filesystem I/O failure (read, write, rename, etc.).
    Io(String),
    /// TOML deserialization error in a checklist `config.toml`.
    Toml {
        /// Path to the config file, for error messages.
        path: String,
        /// Description of the parse failure.
        message: String,
    },
    /// JSON serialization or deserialization failure.
    Json(String),
    /// Mermaid flow diagram could not be parsed.
    Mermaid {
        /// Path to the `.mmd` file.
        path: String,
        /// Description of the parse failure.
        message: String,
    },
    /// CEL expression failed to compile or execute.
    Cel {
        /// The expression that caused the error.
        expr: String,
        /// Description of the CEL failure.
        message: String,
    },
    /// Session state file is corrupt or contains unexpected data.
    State(String),
}

impl SteplockError {
    /// The human-readable text of the error.
    pub open spec fn text(&self) -> Seq<char> {
        match self {
            SteplockError::Io(m) => "IO error: "@ + m@,
            SteplockError::Toml { path, message } => "TOML parse error in "@ + path@ + ": "@
                + message@,
            SteplockError::Json(m) => "JSON error: "@ + m@,
            SteplockError::Mermaid { path, message } => "Mermaid parse error in "@ + path@
                + ": "@ + message@,
            SteplockError::Cel { expr, message } => "CEL error in expression `"@ + expr@ + "`: "@
                + message@,
            SteplockError::State(m) => "State error: "@ + m@,
        }
    }

    /// This is a Mermaid error about `path` with the description `message`.
    pub open spec fn is_mermaid(&self, path: Seq<char>, message: Seq<char>) -> bool {
        match self {
            SteplockError::Mermaid { path: p, message: m } => p@ == path && m@ == message,
            _ => false,
        }
    }

    /// This is a CEL error about `expr` with the description `message`.
    pub open spec fn is_cel(&self, expr: Seq<char>, message: Seq<char>) -> bool {
        match self {
            SteplockError::Cel { expr: e, message: m } => e@ == expr && m@ == message,
            _ => false,
        }
    }

    /// The human-readable text of the error.
    pub fn to_string(&self) -> (s: String)
        ensures
            s@ == self.text(),
    {
        match self {
            SteplockError::Io(m) => String::from_str("IO error: ").concat(m.as_str()),
            SteplockError::Toml { path, message } => String::from_str(
                "TOML parse error in ",
            ).concat(path.as_str()).concat(": ").concat(message.as_str()),
            SteplockError::Json(m) => String::from_str("JSON error: ").concat(m.as_str()),
            SteplockError::Mermaid { path, message } => String::from_str(
                "Mermaid parse error in ",
            ).concat(path.as_str()).concat(": ").concat(message.as_str()),
            SteplockError::Cel { expr, message } => String::from_str(
                "CEL error in expression `",
            ).concat(expr.as_str()).concat("`: ").concat(message.as_str()),
            SteplockError::State(m) => String::from_str("State error: ").concat(m.as_str()),
        }
    }
}

} // verus!
