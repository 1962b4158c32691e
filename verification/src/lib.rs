//! A verified core for a minimal tape-machine language: an instruction tree,
//! an optimizer that rewrites the tree into an equivalent faster one, a
//! tree-walking interpreter over a sparse unbounded tape, and a lowering of
//! the tree into an explicit control-flow graph for native execution.

pub mod equiv;
pub mod llvm_runner;
pub mod optimizer;
pub mod parser;
pub mod runner;
pub mod semantics;
pub mod structs;
