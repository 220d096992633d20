//! A single-pass translator from a small BASIC-like language to C.
//!
//! `token` holds the token kinds and keyword recognition, `lexer` the scanner
//! and its model `scan`, `emitter` the two output streams, `grammar` the model
//! of the translation as functions from state to state, `parser` the
//! translator proved to follow that model, and `laws` what holds of every
//! translation.
pub mod token;
pub mod lexer;
pub mod emitter;
pub mod grammar;
pub mod parser;
pub mod laws;
