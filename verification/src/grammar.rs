//! Grammars: their expressions and statements, and reading them from
//! text.

use crate::error::Error;
use crate::reader::{read_call_variant, read_expr, read_grammar, read_symbol, read_terminal};
use crate::syntax::{call_variant_at, expr_at, grammar_of, symbol_at, terminal_at};
use crate::text::{chars_of, string_of};
use std::rc::Rc;
use vstd::prelude::*;
use vstd::string::StrSliceExecFns;
use vstd::string::StringExecFns;

verus! {

/// An expression of the grammar: what may follow on a command line.
#[derive(Debug, Clone, PartialEq)]
pub enum Expr {
    /// A word to be typed as it stands, such as `--help` or `build`.
    Literal(String),
    /// A reference to a nonterminal, such as `<FILE>`.
    Variable(String),
    /// One expression after the other.
    Sequence(Vec<Rc<Expr>>),
    /// One expression out of several.
    Alternative(Vec<Rc<Expr>>),
    /// The expression or nothing.
    Optional(Rc<Expr>),
    /// The expression once or more often.
    Many1(Rc<Expr>),
    /// A word to be typed as it stands, with a description for the user.
    Described(String, String),
    /// A shell command whose output lists the words that may stand here.
    Command(String),
}

/// The mathematical value of an [`Expr`].
pub enum ExprView {
    Literal(Seq<char>),
    Variable(Seq<char>),
    Sequence(Seq<ExprView>),
    Alternative(Seq<ExprView>),
    Optional(Box<ExprView>),
    Many1(Box<ExprView>),
    Described(Seq<char>, Seq<char>),
    Command(Seq<char>),
}

/// The mathematical value of an expression.
pub open spec fn expr_view(e: Expr) -> ExprView
    decreases e,
{
    match e {
        Expr::Literal(s) => ExprView::Literal(s@),
        Expr::Variable(s) => ExprView::Variable(s@),
        Expr::Sequence(v) => ExprView::Sequence(
            Seq::new(v@.len(), |i: int| if 0 <= i < v@.len() { expr_view(*v@[i]) } else { arbitrary() }),
        ),
        Expr::Alternative(v) => ExprView::Alternative(
            Seq::new(v@.len(), |i: int| if 0 <= i < v@.len() { expr_view(*v@[i]) } else { arbitrary() }),
        ),
        Expr::Optional(e) => ExprView::Optional(Box::new(expr_view(*e))),
        Expr::Many1(e) => ExprView::Many1(Box::new(expr_view(*e))),
        Expr::Described(s, d) => ExprView::Described(s@, d@),
        Expr::Command(s) => ExprView::Command(s@),
    }
}

impl View for Expr {
    type V = ExprView;

    open spec fn view(&self) -> ExprView {
        expr_view(*self)
    }
}

/// The values of a list of expressions.
pub open spec fn views_of(v: Seq<Rc<Expr>>) -> Seq<ExprView> {
    Seq::new(v.len(), |i: int| v[i]@)
}

/// One rule of a grammar.
#[derive(Debug, Clone, PartialEq)]
pub enum Statement {
    /// `command expression;`: one way to call the command.
    CallVariant { lhs: String, rhs: Rc<Expr> },
    /// `<NAME> ::= expression;`: what a nonterminal stands for.
    VariableDefinition { symbol: String, rhs: Rc<Expr> },
}

/// The mathematical value of a [`Statement`].
pub enum StatementView {
    CallVariant { lhs: Seq<char>, rhs: ExprView },
    VariableDefinition { symbol: Seq<char>, rhs: ExprView },
}

impl View for Statement {
    type V = StatementView;

    open spec fn view(&self) -> StatementView {
        match self {
            Statement::CallVariant { lhs, rhs } => StatementView::CallVariant { lhs: lhs@, rhs: rhs@ },
            Statement::VariableDefinition { symbol, rhs } => StatementView::VariableDefinition {
                symbol: symbol@,
                rhs: rhs@,
            },
        }
    }
}

/// A grammar as it was written: its statements in their order.
#[derive(Debug, Clone, PartialEq)]
pub struct Grammar {
    pub statements: Vec<Statement>,
}

impl View for Grammar {
    type V = Seq<StatementView>;

    open spec fn view(&self) -> Seq<StatementView> {
        Seq::new(self.statements@.len(), |i: int| self.statements@[i]@)
    }
}

/// A grammar that was found sound: the one command that all its call
/// variants name, and one expression for all that may follow it.
#[derive(Debug, Clone, PartialEq)]
pub struct Validated {
    pub command: String,
    pub expr: Rc<Expr>,
}

/// Whether `r` is what reading `expected` off the front of the text `s`
/// gives: the value read and the text behind it, or, where nothing is read,
/// a parsing error that names `what` was looked for.
pub open spec fn reads_expr(
    r: Result<(&str, Expr), Error>,
    s: Seq<char>,
    expected: Option<(ExprView, int)>,
    what: Seq<char>,
) -> bool {
    match expected {
        Some((e, j)) => r matches Ok((rest, x)) && x@ == e && rest@ == s.subrange(j, s.len() as int),
        None => r matches Err(Error::ParsingError(m)) && m@ == what,
    }
}

/// As [`reads_expr`], for a statement.
pub open spec fn reads_statement(
    r: Result<(&str, Statement), Error>,
    s: Seq<char>,
    expected: Option<(StatementView, int)>,
    what: Seq<char>,
) -> bool {
    match expected {
        Some((e, j)) => r matches Ok((rest, x)) && x@ == e && rest@ == s.subrange(j, s.len() as int),
        None => r matches Err(Error::ParsingError(m)) && m@ == what,
    }
}

/// The terminal at the front of a text, as a literal.
pub open spec fn terminal_expr_of(s: Seq<char>) -> Option<(ExprView, int)> {
    match terminal_at(s, 0) {
        Some((w, j)) => Some((ExprView::Literal(w), j)),
        None => None,
    }
}

/// The symbol at the front of a text, as a variable.
pub open spec fn symbol_expr_of(s: Seq<char>) -> Option<(ExprView, int)> {
    match symbol_at(s, 0) {
        Some((w, j)) => Some((ExprView::Variable(w), j)),
        None => None,
    }
}

/// Reads a terminal off the front of `input`.
pub fn terminal_expr(input: &str) -> (r: Result<(&str, Expr), Error>)
    ensures
        reads_expr(r, input@, terminal_expr_of(input@), "terminal"@),
{
    let chars = chars_of(input);
    match read_terminal(&chars, 0) {
        Some((word, j)) => Ok((input.substring_char(j, chars.len()), Expr::Literal(word))),
        None => Err(Error::ParsingError(String::from_str("terminal"))),
    }
}

/// Reads a symbol off the front of `input`.
pub fn symbol_expr(input: &str) -> (r: Result<(&str, Expr), Error>)
    ensures
        reads_expr(r, input@, symbol_expr_of(input@), "symbol"@),
{
    let chars = chars_of(input);
    match read_symbol(&chars, 0) {
        Some((name, j)) => Ok((input.substring_char(j, chars.len()), Expr::Variable(name))),
        None => Err(Error::ParsingError(String::from_str("symbol"))),
    }
}

/// Reads an expression off the front of `input`.
pub fn expr(input: &str) -> (r: Result<(&str, Expr), Error>)
    ensures
        reads_expr(r, input@, expr_at(input@, 0), "expression"@),
{
    let chars = chars_of(input);
    match read_expr(&chars, 0) {
        Some((e, j)) => Ok((input.substring_char(j, chars.len()), e)),
        None => Err(Error::ParsingError(String::from_str("expression"))),
    }
}

/// Reads a call variant off the front of `input`.
pub fn call_variant(input: &str) -> (r: Result<(&str, Statement), Error>)
    ensures
        reads_statement(r, input@, call_variant_at(input@, 0), "call variant"@),
{
    let chars = chars_of(input);
    match read_call_variant(&chars, 0) {
        Some((st, j)) => Ok((input.substring_char(j, chars.len()), st)),
        None => Err(Error::ParsingError(String::from_str("call variant"))),
    }
}

/// What parsing a grammar's text comes to: its statements where the whole
/// text is made of statements, and else the text that is left behind the
/// last of them.
pub open spec fn parse_outcome(s: Seq<char>) -> Result<Seq<StatementView>, Seq<char>> {
    let (statements, end) = grammar_of(s);
    if end == s.len() {
        Ok(statements)
    } else {
        Err(s.subrange(end, s.len() as int))
    }
}

/// Whether `r` is what parsing the text `s` comes to.
pub open spec fn parsed_as(r: Result<Grammar, Error>, s: Seq<char>) -> bool {
    match parse_outcome(s) {
        Ok(statements) => r matches Ok(g) && g@ == statements,
        Err(rest) => r matches Err(Error::TrailingInput(t)) && t@ == rest,
    }
}

/// Parses the text of a grammar. Fails with [`Error::TrailingInput`] where
/// the text is not statements from end to end.
pub fn parse(input: &str) -> (r: Result<Grammar, Error>)
    ensures
        parsed_as(r, input@),
{
    let chars = chars_of(input);
    let (statements, end) = read_grammar(&chars);
    if end < chars.len() {
        Err(Error::TrailingInput(string_of(&chars, end, chars.len())))
    } else {
        let g = Grammar { statements };
        assert(g@ =~= crate::reader::statement_views(statements@));
        Ok(g)
    }
}

} // verus!
