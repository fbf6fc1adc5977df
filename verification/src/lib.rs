//! A typed filter for lines of text: a line is split into tokens, and a query
//! such as `date(0) == 1970-07-31 && string(*) in [a, b]` says which lines pass.

pub mod address;
pub mod calendar;
pub mod cli;
pub mod evaluator;
pub mod grammar;
pub mod laws;
pub mod number;
pub mod parser;
pub mod pattern;
pub mod processor;
pub mod query;
pub mod text;
pub mod tokenizer;
pub mod version;
pub mod writer;
