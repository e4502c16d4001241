use vstd::prelude::*;

verus! {

/// The single error type of the library: a message describing what failed.
///
/// Configuration errors are fatal at startup; record-data and external-I/O
/// errors stop the traversal of one record and let the daemon go on.
#[derive(Debug, PartialEq, Eq)]
pub struct Error {
    pub message: String,
}

impl Error {
    pub fn new(message: String) -> (r: Error)
        ensures
            r.message@ == message@,
    {
        Error { message }
    }

    /// The error text, for callers that report it.
    pub fn text(&self) -> (r: &str)
        ensures
            r@ == self.message@,
    {
        self.message.as_str()
    }
}

} // verus!
