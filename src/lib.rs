//! A small lexical scanner for a markdown-like text: headings, bold spans
//! and plain text become a flat sequence of tokens.
pub mod token;
pub mod scanner;
