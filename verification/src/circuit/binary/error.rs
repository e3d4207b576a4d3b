//! Typed execution failures of the engine.

use vstd::prelude::*;

verus! {

/// What went wrong during construction or evaluation of a circuit.
#[derive(Debug, Copy, Clone, PartialEq, Eq, Structural, Hash)]
pub enum ExecErrorKind {
    /// `execute` was called before every declared input was supplied.
    NotExecutable,
    /// An input node's value was never supplied.
    MissingInput,
    /// A gate read an operand slot that no wire had filled.
    MissingOperand,
    /// A second wire wrote an occupied, unconsumed operand slot.
    DuplicateFanIn,
    /// An edge names a sub-circuit the descriptor does not declare.
    UnknownSubCircuit,
    /// An edge targets a slot outside the circuit, or lacks a required
    /// pin or sub-circuit name.
    InvalidEdge,
    /// A node is malformed: a gate without a type, or one tagged with a
    /// sub-circuit name.
    InvalidNode,
    /// An output was requested before being produced.
    MissingOutput,
    /// The descriptor's counts do not match the node sets of the body.
    BadMetaInfo,
    /// A sub-circuit name is not ASCII, so lookups cannot resolve it.
    InvalidName,
}

/// An execution failure: its kind, and a message for the caller.
#[derive(Debug, Clone, PartialEq, Eq, Hash)]
pub struct ExecError {
    pub kind: ExecErrorKind,
    pub msg: String,
}

impl ExecError {
    pub fn new(kind: ExecErrorKind, msg: &str) -> (e: ExecError)
        ensures
            e.kind == kind,
            e.msg@ == msg@,
    {
        ExecError { kind, msg: msg.to_owned() }
    }
}

} // verus!
