//! The error every fallible operation reports: a message for the user.
use vstd::prelude::*;

verus! {

/// An error with a message for the user.
#[derive(Debug)]
pub struct SnapError(String);

impl View for SnapError {
    type V = Seq<char>;

    closed spec fn view(&self) -> Seq<char> {
        self.0@
    }
}

impl SnapError {
    /// An error carrying `msg`.
    pub fn new(msg: &str) -> (e: SnapError)
        ensures
            e@ == msg@,
    {
        SnapError(msg.to_owned())
    }

    /// An error carrying the string `msg`.
    pub fn from_string(msg: String) -> (e: SnapError)
        ensures
            e@ == msg@,
    {
        SnapError(msg)
    }

    /// The message.
    pub fn message(&self) -> (m: String)
        ensures
            m@ == self@,
    {
        self.0.clone()
    }
}

} // verus!
