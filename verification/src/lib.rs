//! Front end of a notation that mixes parenthesised forms, indentation blocks
//! and neoteric calls (`f(x)` for `(f x)`).
//!
//! A text goes through three stages, each a function with a verified
//! contract over a mathematical model:
//!
//! * [`lexer::tokenise`] scans the text into tokens with byte spans;
//! * [`indent::handle_whitespace`] turns leading white space into `Indent`
//!   and `Dedent` tokens and drops what carries no content;
//! * [`parser::Parser`] reads the logical tokens into a tree of
//!   [`value::Atom`]s, or reports the first failure.
//!
//! [`parser::parse`] runs the three on a text.
//!
//! The models are [`lexer::scan`], [`indent::normalize`] and the functions of
//! [`grammar`]. The modules whose names end in `_laws`, and [`laws`] for the
//! three stages together, prove what holds of every input.

pub mod grammar;
pub mod grammar_laws;
pub mod indent;
pub mod indent_laws;
pub mod laws;
pub mod lexer;
pub mod lexer_laws;
pub mod parser;
pub mod value;
