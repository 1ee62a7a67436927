//! The error record surfaced to callers of the library.

use vstd::prelude::*;

verus! {

/// An error carrying a human-readable message. The parsing core itself
/// never fails; this type exists for the validation step and for
/// surrounding code that wraps its own failures in it.
#[derive(Debug)]
pub struct OutputError {
    message: String,
}

impl View for OutputError {
    type V = Seq<char>;

    closed spec fn view(&self) -> Seq<char> {
        self.message@
    }
}

impl OutputError {
    /// Builds an error from a message.
    pub fn from(message: &str) -> (r: OutputError)
        ensures
            r@ == message@,
    {
        OutputError { message: String::from_str(message) }
    }

    /// The error's message.
    pub fn message(&self) -> (r: &String)
        ensures
            r@ == self@,
    {
        &self.message
    }
}

} // verus!
