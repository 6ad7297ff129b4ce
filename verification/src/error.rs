//! The error that every fallible operation of the library reports.

use vstd::prelude::*;

verus! {

/// A failure, described by its message.
#[derive(Debug)]
pub struct Error(pub String);

impl View for Error {
    type V = Seq<char>;

    open spec fn view(&self) -> Seq<char> {
        self.0@
    }
}

impl Error {
    /// The error that carries `message`.
    pub fn new(message: &str) -> (e: Error)
        ensures
            e@ == message@,
    {
        Error(message.to_owned())
    }

    /// The error that carries an owned `message`.
    pub fn with(message: String) -> (e: Error)
        ensures
            e@ == message@,
    {
        Error(message)
    }

    /// The message of this error.
    pub fn message(&self) -> (m: String)
        ensures
            m@ == self@,
    {
        self.0.clone()
    }
}

impl Clone for Error {
    fn clone(&self) -> (e: Error)
        ensures
            e@ == self@,
    {
        Error(self.0.clone())
    }
}

} // verus!
