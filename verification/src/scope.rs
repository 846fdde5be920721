//! The scope key: the name of the directory that holds a session's state.
use vstd::prelude::*;
use crate::text::{string_of, to_chars, trim, trim_bounds};

verus! {

/// `c` is a lowercase hexadecimal digit.
pub open spec fn is_lower_hex(c: char) -> bool {
    ('0' <= c && c <= '9') || ('a' <= c && c <= 'f')
}

/// `s` is a version-4 (random) UUID in its hyphenated lowercase form,
/// `xxxxxxxx-xxxx-4xxx-Nxxx-xxxxxxxxxxxx` with `N` one of `8`, `9`, `a`, `b`.
pub open spec fn uuid_text(s: Seq<char>) -> bool {
    &&& s.len() == 36
    &&& forall|i: int|
        0 <= i < 36 ==> if i == 8 || i == 13 || i == 18 || i == 23 {
            s[i] == '-'
        } else {
            is_lower_hex(#[trigger] s[i])
        }
    &&& s[14] == '4'
    &&& (s[19] == '8' || s[19] == '9' || s[19] == 'a' || s[19] == 'b')
}

/// A fresh random version-4 UUID, written out: `uuid::Uuid::new_v4`, which sets the
/// version digit to `4` and the variant bits to `10`, followed by its `Display`, which
/// writes the hyphenated lowercase form. Nothing is claimed of the random digits. The call
/// panics when the operating system cannot supply random bytes.
#[verifier::external_body]
fn new_uuid_v4() -> (id: String)
    ensures
        uuid_text(id@),
{
    uuid::Uuid::new_v4().to_string()
}

/// Where a session's scope key came from.
#[derive(Debug)]
pub enum ScopeKey {
    /// The session id the AI tool sent.
    Session(String),
    /// The id stored earlier in `sessions/fallback-id`.
    Fallback(String),
    /// A new id: it must be stored in `sessions/fallback-id`.
    Generated(String),
}

impl ScopeKey {
    /// The key itself.
    pub open spec fn spec_key(&self) -> Seq<char> {
        match self {
            ScopeKey::Session(k) => k@,
            ScopeKey::Fallback(k) => k@,
            ScopeKey::Generated(k) => k@,
        }
    }

    /// The key itself.
    pub fn key(&self) -> (k: &String)
        ensures
            k@ == self.spec_key(),
    {
        match self {
            ScopeKey::Session(k) => k,
            ScopeKey::Fallback(k) => k,
            ScopeKey::Generated(k) => k,
        }
    }
}

/// `s` without surrounding whitespace, as a `String`.
fn trimmed(s: &str) -> (r: String)
    ensures
        r@ == trim(s@),
{
    let v = to_chars(s);
    let (a, b) = trim_bounds(&v, 0, v.len());
    assert(v@.subrange(0, v@.len() as int) =~= s@);
    string_of(&v, a, b)
}

/// The scope key of a `reset = "session"` checklist: the session id when the AI tool sent
/// one; else the stored fallback id (`fallback_id` is the content of
/// `sessions/fallback-id` when that file exists), trimmed; else a new UUID.
pub fn resolve_scope_key(session_id: &str, fallback_id: Option<&str>) -> (k: ScopeKey)
    ensures
        session_id@.len() > 0 ==> k is Session && k.spec_key() == session_id@,
        session_id@.len() == 0 && fallback_id is Some ==> k is Fallback && k.spec_key() == trim(
            fallback_id->0@,
        ),
        session_id@.len() == 0 && fallback_id is None ==> k is Generated && uuid_text(
            k.spec_key(),
        ),
{
    if !session_id.is_empty() {
        return ScopeKey::Session(session_id.to_owned());
    }
    match fallback_id {
        Some(content) => ScopeKey::Fallback(trimmed(content)),
        None => ScopeKey::Generated(new_uuid_v4()),
    }
}

/// The scope key whose session `session:stop` ends: the session id when sent; else the
/// stored fallback id, trimmed; else none, and nothing is cleaned up.
pub fn stop_scope_key(session_id: &str, fallback_id: Option<&str>) -> (k: Option<String>)
    ensures
        session_id@.len() > 0 ==> k is Some && k->0@ == session_id@,
        session_id@.len() == 0 && fallback_id is Some ==> k is Some && k->0@ == trim(
            fallback_id->0@,
        ),
        session_id@.len() == 0 && fallback_id is None ==> k is None,
{
    if !session_id.is_empty() {
        return Some(session_id.to_owned());
    }
    match fallback_id {
        Some(content) => Some(trimmed(content)),
        None => None,
    }
}

} // verus!
