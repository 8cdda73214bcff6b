//! Word-prefix autocompletion: a character trie, the line-oriented word log
//! that makes a vocabulary durable, the engine that ties the two together,
//! and the state of an interactive input line on top of the engine.
//!
//! The library does no input or output: it takes and returns plain values,
//! and leaves files and the terminal to its caller.

pub mod common;
pub mod util;
