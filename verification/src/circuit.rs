//! Execution layer: the binary (plaintext bit) evaluator for canonical
//! circuits.

pub mod binary;
