//! Front end for a small language that describes named objects, their literal
//! values and their labelled transitions: a scanner from characters to
//! positioned tokens, and a builder from tokens to a symbol table.

pub mod kinds;
pub mod text;
pub mod grammar;
pub mod scanner;
pub mod parser;
pub mod rules;
pub mod builder;
pub mod report;
pub mod laws;
pub mod statements;
