//! Removal of ANSI colour and style escape sequences from a byte stream.
//!
//! The `scanner` module classifies the bytes of one line into escape spans
//! and literal tokens; the `filter` module runs it over a line and keeps the
//! literal bytes only; the `stream` module takes the input a line at a time;
//! the `outcome` module says how a run ends.
pub mod filter;
pub mod outcome;
pub mod scanner;
pub mod stream;
