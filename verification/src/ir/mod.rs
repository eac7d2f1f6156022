//! Reading Optic's textual IR: the lexer and the parser.

pub mod ir_lexer;
pub mod ir_parser;
