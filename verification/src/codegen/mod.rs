//! Emitting the compiled program.

pub mod c_backend;
