//! Why an image could not be read.

use vstd::prelude::*;

verus! {

/// An error with a description in words.
#[derive(Debug, Clone)]
pub struct PngError {
    description: String,
}

impl View for PngError {
    type V = Seq<char>;

    closed spec fn view(&self) -> Seq<char> {
        self.description@
    }
}

impl PngError {
    /// An error with the given description.
    pub fn new(description: &str) -> (error: PngError)
        ensures
            error@ == description@,
    {
        PngError { description: description.to_owned() }
    }

    /// The description of the error.
    pub fn description(&self) -> (description: &str)
        ensures
            description@ == self@,
    {
        self.description.as_str()
    }
}

} // verus!
