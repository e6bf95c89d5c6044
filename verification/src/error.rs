//! What can go wrong, as a sentence for the person at the terminal.

use vstd::prelude::*;

verus! {

/// A failure, described.
#[derive(Debug, PartialEq, Eq)]
pub struct Error {
    pub text: String,
}

impl Error {
    pub fn new(text: String) -> (r: Self)
        ensures
            r.text == text,
    {
        Error { text }
    }

    /// The description.
    pub fn message(&self) -> (r: &str)
        ensures
            r@ == self.text@,
    {
        self.text.as_str()
    }
}

} // verus!
