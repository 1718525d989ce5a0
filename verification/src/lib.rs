//! Parsing, constant folding and rendering of single-line equations of the form
//! `<expression> = <expression>`.
//!
//! The syntax tree, its optimizer and its renderer live in [`ast`]; the recursive-descent
//! parser lives in [`parse`] and reads its input through the cursor primitives of [`utils`].

pub mod ast;
pub mod utils;
pub mod parse;
