//! Top-level error types: one per phase of the pipeline, each carrying a
//! human-readable description of what went wrong.

use vstd::prelude::*;

verus! {

/// Error raised while training a language model.
#[derive(Debug)]
pub struct ModellingError {
    details: String,
}

impl View for ModellingError {
    type V = Seq<char>;

    closed spec fn view(&self) -> Seq<char> {
        self.details@
    }
}

impl ModellingError {
    pub fn new(msg: &str) -> (e: ModellingError)
        ensures
            e@ == msg@,
    {
        ModellingError { details: String::from_str(msg) }
    }

    pub fn message(&self) -> (m: &str)
        ensures
            m@ == self@,
    {
        self.details.as_str()
    }
}

/// Error raised while classifying a text.
#[derive(Debug)]
pub struct GuessingError {
    details: String,
}

impl View for GuessingError {
    type V = Seq<char>;

    closed spec fn view(&self) -> Seq<char> {
        self.details@
    }
}

impl GuessingError {
    pub fn new(msg: &str) -> (e: GuessingError)
        ensures
            e@ == msg@,
    {
        GuessingError { details: String::from_str(msg) }
    }

    pub fn message(&self) -> (m: &str)
        ensures
            m@ == self@,
    {
        self.details.as_str()
    }
}

/// Error raised by the inference layer.
#[derive(Debug)]
pub struct InfererError {
    details: String,
}

impl View for InfererError {
    type V = Seq<char>;

    closed spec fn view(&self) -> Seq<char> {
        self.details@
    }
}

impl InfererError {
    pub fn new(msg: &str) -> (e: InfererError)
        ensures
            e@ == msg@,
    {
        InfererError { details: String::from_str(msg) }
    }

    pub fn message(&self) -> (m: &str)
        ensures
            m@ == self@,
    {
        self.details.as_str()
    }
}

/// Error raised by utility helpers.
#[derive(Debug)]
pub struct UtilError {
    details: String,
}

impl View for UtilError {
    type V = Seq<char>;

    closed spec fn view(&self) -> Seq<char> {
        self.details@
    }
}

impl UtilError {
    pub fn new(msg: &str) -> (e: UtilError)
        ensures
            e@ == msg@,
    {
        UtilError { details: String::from_str(msg) }
    }

    pub fn message(&self) -> (m: &str)
        ensures
            m@ == self@,
    {
        self.details.as_str()
    }
}

/// Error raised while redistributing n-gram counts.
#[derive(Debug)]
pub struct SmoothingError {
    details: String,
}

impl View for SmoothingError {
    type V = Seq<char>;

    closed spec fn view(&self) -> Seq<char> {
        self.details@
    }
}

impl SmoothingError {
    pub fn new(msg: &str) -> (e: SmoothingError)
        ensures
            e@ == msg@,
    {
        SmoothingError { details: String::from_str(msg) }
    }

    pub fn message(&self) -> (m: &str)
        ensures
            m@ == self@,
    {
        self.details.as_str()
    }
}

} // verus!
