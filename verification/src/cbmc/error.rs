//! Line-precise parse errors for the raw compiler dump.

use vstd::prelude::*;

verus! {

/// A parse failure, carrying the 1-based line it was found on and a message
/// naming the offending token and the expected pattern.
#[derive(Debug, Clone, PartialEq, Eq, Hash)]
pub struct Error {
    pub line: Option<u64>,
    pub msg: String,
}

impl Error {
    pub fn new(line: u64, msg: String) -> (e: Error)
        ensures
            e.line == Some(line),
            e.msg == msg,
    {
        Error { line: Some(line), msg }
    }
}

} // verus!
