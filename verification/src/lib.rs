//! A small regular-expression engine: patterns are tokenized and parsed into a
//! syntax tree, compiled into a nondeterministic automaton by Thompson's
//! construction, and matched either by simulating that automaton or through a
//! deterministic automaton obtained by subset construction.

pub mod dfa;
pub mod language;
pub mod lexer;
pub mod nfa;
pub mod parser;
pub mod regex;
pub mod state_set;
pub mod walks;

pub use crate::regex::Regex;
