//! Data-flow analysis of a Rust source file: its functions, bindings and
//! parameters, how they relate, and how the graph is layered for display.

pub mod syntax;
pub mod types;
pub mod ast;
pub mod flow;
pub mod layers;
