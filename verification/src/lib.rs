#![verifier::loop_isolation(false)]
//! A lexical-analyzer generator core: regular expressions are compiled,
//! jointly over a whole rule set, into a single minimized deterministic
//! finite automaton, which a longest-prefix-match scanner then consumes.

pub mod automata;
pub mod compile;
pub mod direct_afd;
pub mod errors;
pub mod grammar_tree;
pub mod inf_to_pos;
pub mod lex_reader;
pub mod minimize;
pub mod simulation;
pub mod text;
pub mod token_identifier;
pub mod utilities;
pub mod view;
