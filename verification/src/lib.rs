//! A compiler for arithmetic constraint circuits: it builds circuits with
//! shared subexpressions, lowers their degree by introducing new columns, and
//! emits code that evaluates them, both as expression trees for a host
//! language and as straight-line code for a stack machine.

pub mod builder;
pub mod circuit;
pub mod constraints;
pub mod evaluation;
pub mod expression;
pub mod field;
pub mod gpu_parallel;
pub mod instruction;
pub mod lowering;
pub mod machine;
pub mod memory_layout;
pub mod native;
pub mod padded_height;
pub mod reach;
pub mod semantics;
pub mod sharing;
pub mod tasm;
