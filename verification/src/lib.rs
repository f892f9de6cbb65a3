//! A regular-expression engine: a recursive-descent parser producing a syntax
//! tree, a builder that turns the tree into a nondeterministic automaton, and
//! a breadth-first simulation that finds matches and capture groups.
//!
//! - [`utils`]: the set of matching options.
//! - [`node`]: the syntax tree, the quantifiers and the parser's errors.
//! - [`stream`]: the parser's state over the characters of a pattern.
//! - [`grammar`]: the grammar of patterns, as mathematical functions.
//! - [`parser`]: the parser, proved to compute what the grammar defines.
//! - [`fsm`]: the automaton and the builder that compiles a tree into one.
//! - [`matching`]: the text, the cursor, the match, and the test of a label.
//! - [`engine`]: the simulation and the search for successive matches.
//! - [`laws`]: what holds of every search.
//! - [`paths`], [`coverage`]: matches as walks through the automaton.
//! - [`literal`]: patterns of plain characters match where they occur.

pub mod coverage;
pub mod engine;
pub mod fsm;
pub mod grammar;
pub mod laws;
pub mod literal;
pub mod matching;
pub mod node;
pub mod parser;
pub mod paths;
pub mod stream;
pub mod utils;
