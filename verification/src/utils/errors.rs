//! Error type of the utility helpers.

use vstd::prelude::*;

verus! {

/// Error raised by utility helpers.
#[derive(Debug)]
pub struct UtilError {
    details: String,
}

impl View for UtilError {
    type V = Seq<char>;

    closed spec fn view(&self) -> Seq<char> {
        self.details@
    }
}

impl UtilError {
    pub fn new(msg: &str) -> (e: UtilError)
        ensures
            e@ == msg@,
    {
        UtilError { details: String::from_str(msg) }
    }

    pub fn message(&self) -> (m: &str)
        ensures
            m@ == self@,
    {
        self.details.as_str()
    }
}

} // verus!
