//! Typed errors of the canonical-format parser.

use vstd::prelude::*;

verus! {

/// What kind of record or token was malformed.
#[derive(Debug, Copy, Clone, PartialEq, Eq, Structural, Hash)]
pub enum ErrorType {
    IOError,
    UnknownGateType,
    InvalidInputID,
    InvalidGateID,
    InvalidOutputID,
    InvalidPin,
    InvalidInputPin,
    InvalidGate,
    InvalidWire,
    InvalidMetaInfo,
    Unknown,
}

/// A canonical-format parse failure: its kind and a message naming the
/// line and the offending token.
#[derive(Debug, Clone, PartialEq, Eq, Hash)]
pub struct ParseError {
    pub err_type: ErrorType,
    pub msg: String,
}

impl ParseError {
    pub fn new(err_type: ErrorType, msg: &str) -> (e: ParseError)
        ensures
            e.err_type == err_type,
            e.msg@ == msg@,
    {
        ParseError { err_type, msg: msg.to_owned() }
    }
}

} // verus!
