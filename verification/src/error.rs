//! The errors of the library.

use vstd::prelude::*;

verus! {

/// Everything that can go wrong between a grammar's text and its completions.
#[derive(Debug, Clone, PartialEq, Eq)]
pub enum Error {
    /// The text does not have the shape that was asked for; the string says
    /// what was expected.
    ParsingError(String),
    /// The grammar was read up to some point and the rest, carried here, is
    /// not a statement.
    TrailingInput(String),
    /// The grammar has no call variant.
    EmptyGrammar,
    /// The call variants name more than one command; the names are carried in
    /// ascending order, each once.
    VaryingCommandNames(Vec<String>),
    /// Nonterminal definitions depend on each other in a circle; the names
    /// are carried in the order in which each uses the next.
    CyclicVariables(Vec<String>),
    /// The shell that was asked to run a command reported failure; carried
    /// are the command, its standard output and its standard error.
    ShellInvocationFailed(String, String, String),
}

} // verus!
