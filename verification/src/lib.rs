//! Boolean-circuit intermediate representation and evaluator for
//! garbled-circuit back ends: a typed wire/gate graph, a topological
//! sorter with cycle detection, a NOT-gate elimination rewrite, a
//! canonical wire format, and a hierarchical execution engine.

pub mod cbmc;
pub mod circuit;
pub mod parser;
pub mod text;
