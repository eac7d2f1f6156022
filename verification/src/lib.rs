//! Optic: a compilation backend that translates Optic's textual IR into C.
//!
//! The pipeline is: lexing and parsing the IR into a [`module::Module`], building the
//! control flow graph of each function, converting it into SSA form, leaving SSA form
//! again, and emitting C source text.

pub mod cfg;
pub mod codegen;
pub mod error;
pub mod ir;
pub mod module;
pub mod ssa;
pub mod text;
