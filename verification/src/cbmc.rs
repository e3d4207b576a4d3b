//! Ingestion side of the pipeline: the raw gate/wire dump emitted by the
//! gate-level compiler is parsed into the typed graph model, brought into a
//! topological evaluation order, freed of NOT gates, and rendered in the
//! canonical wire format.

pub mod convert;
pub mod parser;
pub mod error;
pub mod sort;
pub mod types;
