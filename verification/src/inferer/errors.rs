//! Error type of the inference layer.

use vstd::prelude::*;

verus! {

/// Error raised while loading models or scoring a text against them.
#[derive(Debug)]
pub struct InfererError {
    details: String,
}

impl View for InfererError {
    type V = Seq<char>;

    closed spec fn view(&self) -> Seq<char> {
        self.details@
    }
}

impl InfererError {
    pub fn new(msg: &str) -> (e: InfererError)
        ensures
            e@ == msg@,
    {
        InfererError { details: String::from_str(msg) }
    }

    pub fn message(&self) -> (m: &str)
        ensures
            m@ == self@,
    {
        self.details.as_str()
    }
}

} // verus!
