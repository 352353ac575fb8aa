//! A lexical front end: turns a line of source text into a lazy sequence of
//! classified tokens, skipping whitespace and `//` comments between them.

pub mod human;
pub mod laws;
pub mod scan;
pub mod view;
pub mod vm;
