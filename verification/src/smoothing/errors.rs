//! Error type of the smoothing policies.

use vstd::prelude::*;

verus! {

/// Error raised when a smoothing pass cannot represent its result exactly.
#[derive(Debug)]
pub struct SmoothingError {
    details: String,
}

impl View for SmoothingError {
    type V = Seq<char>;

    closed spec fn view(&self) -> Seq<char> {
        self.details@
    }
}

impl SmoothingError {
    pub fn new(msg: &str) -> (e: SmoothingError)
        ensures
            e@ == msg@,
    {
        SmoothingError { details: String::from_str(msg) }
    }

    pub fn message(&self) -> (m: &str)
        ensures
            m@ == self@,
    {
        self.details.as_str()
    }
}

} // verus!
