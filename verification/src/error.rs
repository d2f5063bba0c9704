//! The errors that the operations of this crate report.

use vstd::prelude::*;
use vstd::string::*;

verus! {

/// What went wrong.
#[derive(Clone, Copy, Debug, PartialEq, Eq, Structural)]
pub enum ErrorKind {
    /// An entry that was asked for is not in the store.
    NotFound,
    /// The store holds too few entries to build a question.
    InsufficientData,
    /// Too few distinct wrong answers are left to fill a question.
    InsufficientDistractors,
    /// The entry lacks the field that the question is about.
    MissingData,
    /// An argument is malformed.
    Input,
    /// The store cannot take or give what was asked.
    Storage,
}

/// An error: its kind, and a message for a person to read.
#[derive(Debug)]
pub struct CoreError {
    pub kind: ErrorKind,
    pub message: String,
}

impl Clone for CoreError {
    fn clone(&self) -> (r: Self)
        ensures
            r == *self,
    {
        CoreError { kind: self.kind, message: self.message.clone() }
    }
}

impl CoreError {
    /// An error of the given kind with the given message.
    pub fn new(kind: ErrorKind, message: &str) -> (e: CoreError)
        ensures
            e.kind == kind,
            e.message@ == message@,
    {
        CoreError { kind, message: String::from_str(message) }
    }

    /// An error whose message ends with a detail, such as the token that
    /// was not understood.
    pub fn with_detail(kind: ErrorKind, message: &str, detail: &str) -> (e: CoreError)
        ensures
            e.kind == kind,
            e.message@ == message@ + detail@,
    {
        let mut m = String::from_str(message);
        m.append(detail);
        CoreError { kind, message: m }
    }

    /// The message of this error.
    pub fn message(&self) -> (m: String)
        ensures
            m@ == self.message@,
    {
        self.message.clone()
    }
}

} // verus!
