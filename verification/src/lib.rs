//! A small compiler for a toy language: scanning, values and constant
//! arithmetic, three-address code, control-flow graphs and dominators.

pub mod ops;
pub mod value;
pub mod interner;
pub mod chars;
pub mod scanner;
pub mod sets;
pub mod graph;
pub mod dominator;
pub mod dominance;
pub mod ir;
pub mod bytecode;
pub mod tac;
pub mod three_address;
pub mod compiler;
pub mod codegen;
pub mod errors;
pub mod cli;
pub mod assoc;
pub mod liveness;
pub mod cfg;
pub mod regalloc;
pub mod ast;
pub mod parser;
pub mod grammar;
pub mod transformer;
pub mod ssa;
