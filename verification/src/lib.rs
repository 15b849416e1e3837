//! An expression front end: a lexer that turns source text into located
//! tokens, and a shunting-yard parser that reorders an infix token sequence
//! into postfix order.

pub mod error;
pub mod keyword;
pub mod lexer;
pub mod parser;
pub mod token;
