//! Parsing and rendering of a plain-text double-entry ledger format.
//!
//! The library turns ledger text into typed directives and renders
//! directives back into canonical text; parsing rendered text gives back
//! the directive it came from.
pub mod meta;
pub mod laws;
pub mod lexer;
pub mod models;
pub mod parser;
pub mod to_file;
pub mod utils;
pub mod words;
