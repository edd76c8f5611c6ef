//! Domain errors with user-facing messages.

use vstd::prelude::*;
use crate::text::{append_chars, chars_of, string_of};

verus! {

/// The errors of the library's own rules.
pub enum FeheimError {
    /// Formula name absent from the index.
    NotFound(String),
    /// Formula not present in the Cellar.
    NotInstalled(String),
}

/// The message shown for an error.
pub open spec fn spec_error_message(e: FeheimError) -> Seq<char> {
    match e {
        FeheimError::NotFound(name) => "no formula named \""@ + name@ + "\" (try `feheim update`)"@,
        FeheimError::NotInstalled(name) => "\""@ + name@ + "\" is not installed"@,
    }
}

impl FeheimError {
    /// The user-facing message of this error.
    pub fn message(&self) -> (res: String)
        ensures
            res@ == spec_error_message(*self),
    {
        let (head, name, tail) = match self {
            FeheimError::NotFound(name) => (
                "no formula named \"",
                name,
                "\" (try `feheim update`)",
            ),
            FeheimError::NotInstalled(name) => ("\"", name, "\" is not installed"),
        };
        let mut out = chars_of(head);
        append_chars(&mut out, &chars_of(name.as_str()));
        append_chars(&mut out, &chars_of(tail));
        string_of(&out)
    }
}

} // verus!
