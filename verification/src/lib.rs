//! A context-free grammar with weighted alternatives: every sentence that the grammar
//! derives is drawn with the same probability.

pub mod ast;
pub mod counts;
pub mod expand;
pub mod laws;
pub mod model;
pub mod output;
pub mod parser;
pub mod store;
pub mod tokens;
