//! The choice of storage backend. Both backends hold a flat map from key to
//! the text form of a value: a relational file with one `(key, value)` row
//! per key, or a text file with one JSON object whose values are strings.
use vstd::prelude::*;
use crate::text::chars_of;

verus! {

/// A storage backend.
#[derive(Clone, Copy, Debug, PartialEq, Eq, Structural)]
pub enum Engine {
    /// A relational database file.
    Sqlite,
    /// A JSON text file.
    Json,
}

/// Whether two character sequences are equal.
pub fn chars_equal(a: &Vec<char>, b: &Vec<char>) -> (r: bool)
    ensures
        r == (a@ == b@),
{
    if a.len() != b.len() {
        return false;
    }
    let mut i: usize = 0;
    while i < a.len()
        invariant
            a@.len() == b@.len(),
            i <= a@.len(),
            forall|j: int| 0 <= j < i ==> a@[j] == b@[j],
        decreases a@.len() - i,
    {
        if a[i] != b[i] {
            return false;
        }
        i += 1;
    }
    assert(a@ =~= b@);
    true
}

impl Engine {
    /// Reads a backend name: `sqlite` or `json`, nothing else.
    pub fn from_str(s: &str) -> (r: Result<Engine, ()>)
        ensures
            r == (if s@ == "sqlite"@ {
                Ok(Engine::Sqlite)
            } else if s@ == "json"@ {
                Ok(Engine::Json)
            } else {
                Err(())
            }),
    {
        let cs = chars_of(s);
        if chars_equal(&cs, &chars_of("sqlite")) {
            Ok(Engine::Sqlite)
        } else if chars_equal(&cs, &chars_of("json")) {
            Ok(Engine::Json)
        } else {
            Err(())
        }
    }

    /// The name that [`Engine::from_str`] reads.
    pub fn name(&self) -> (r: String)
        ensures
            r@ == (match self {
                Engine::Sqlite => "sqlite"@,
                Engine::Json => "json"@,
            }),
    {
        match self {
            Engine::Sqlite => String::from_str("sqlite"),
            Engine::Json => String::from_str("json"),
        }
    }
}

} // verus!
