//! Error types of the model layer.

use vstd::prelude::*;

verus! {

/// Error raised when a counted n-gram is missing from the pre-built universe.
#[derive(Debug)]
pub struct NGramModelError {
    details: String,
}

impl View for NGramModelError {
    type V = Seq<char>;

    closed spec fn view(&self) -> Seq<char> {
        self.details@
    }
}

impl NGramModelError {
    pub fn new(msg: &str) -> (e: NGramModelError)
        ensures
            e@ == msg@,
    {
        NGramModelError { details: String::from_str(msg) }
    }

    pub fn message(&self) -> (m: &str)
        ensures
            m@ == self@,
    {
        self.details.as_str()
    }
}

/// Error raised while turning counts into probabilities or while parsing a
/// persisted probability model.
#[derive(Debug)]
pub struct ProbabilityModelError {
    details: String,
}

impl View for ProbabilityModelError {
    type V = Seq<char>;

    closed spec fn view(&self) -> Seq<char> {
        self.details@
    }
}

impl ProbabilityModelError {
    pub fn new(msg: &str) -> (e: ProbabilityModelError)
        ensures
            e@ == msg@,
    {
        ProbabilityModelError { details: String::from_str(msg) }
    }

    pub fn message(&self) -> (m: &str)
        ensures
            m@ == self@,
    {
        self.details.as_str()
    }
}

/// Error raised by the count model.
#[derive(Debug)]
pub struct CountModelError {
    details: String,
}

impl View for CountModelError {
    type V = Seq<char>;

    closed spec fn view(&self) -> Seq<char> {
        self.details@
    }
}

impl CountModelError {
    pub fn new(msg: &str) -> (e: CountModelError)
        ensures
            e@ == msg@,
    {
        CountModelError { details: String::from_str(msg) }
    }

    pub fn message(&self) -> (m: &str)
        ensures
            m@ == self@,
    {
        self.details.as_str()
    }
}

/// Error raised while scoring a text against the loaded models.
#[derive(Debug)]
pub struct InfererError {
    details: String,
}

impl View for InfererError {
    type V = Seq<char>;

    closed spec fn view(&self) -> Seq<char> {
        self.details@
    }
}

impl InfererError {
    pub fn new(msg: &str) -> (e: InfererError)
        ensures
            e@ == msg@,
    {
        InfererError { details: String::from_str(msg) }
    }

    pub fn message(&self) -> (m: &str)
        ensures
            m@ == self@,
    {
        self.details.as_str()
    }
}

} // verus!
