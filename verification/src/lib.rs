//! Shell completion from a grammar of command lines.
//!
//! A grammar describes the command lines that a command accepts:
//!
//! ```text
//! grep [<OPTION>]... <PATTERN> [<FILE>]...;
//! <OPTION> ::= --color <WHEN> | --extended-regexp "PATTERNS are extended";
//! <WHEN> ::= always | never | auto;
//! ```
//!
//! [`grammar::parse`] reads its text, [`grammar::Grammar::validate`] gives
//! the command and one expression for all that may follow it, and
//! [`compile::compile`] turns the expression into a deterministic automaton
//! over words, which accepts exactly the command lines that the expression
//! allows. [`complete::get_completions`] runs the automaton over the words
//! that are typed already and lists the words that may come next.
//!
//! The library neither reads files nor runs a shell: where completions come
//! from a shell, [`complete::requests_at`] says what to ask of it, and
//! [`complete::completions_at`] takes what it answered.

use vstd::prelude::*;

pub use crate::error::Error;

pub mod augment;
pub mod bash;
pub mod compile;
pub mod complete;
pub mod construct;
pub mod counting;
pub mod dfa;
pub mod error;
pub mod follow;
pub mod grammar;
pub mod language;
pub mod meaning;
pub mod minimize;
pub mod posset;
pub mod reader;
pub mod regex;
pub mod resolve;
pub mod roundtrip;
pub mod syntax;
pub mod table;
pub mod text;
pub mod traces;
pub mod validate;

verus! {

/// Identifier of a state of an automaton; the start state is always `0`.
pub type StateId = usize;

/// Identifier of a leaf of an augmented regular expression.
pub type Position = usize;

} // verus!
