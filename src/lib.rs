//! A compiler for redstone circuit graphs: constant folding, chain grouping,
//! and the planning and semantics of the code generated for each node.

pub mod node;
pub mod constant_fold;
pub mod group;
pub mod codegen;
