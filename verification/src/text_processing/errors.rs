//! Error type of the plain-string text processing helpers.

use vstd::prelude::*;

verus! {

/// Error raised when a text cannot be normalised.
#[derive(Debug)]
pub struct TextError {
    details: String,
}

impl View for TextError {
    type V = Seq<char>;

    closed spec fn view(&self) -> Seq<char> {
        self.details@
    }
}

impl TextError {
    pub fn new(msg: &str) -> (e: TextError)
        ensures
            e@ == msg@,
    {
        TextError { details: String::from_str(msg) }
    }

    pub fn message(&self) -> (m: &str)
        ensures
            m@ == self@,
    {
        self.details.as_str()
    }
}

} // verus!
