//! The syntax of grammars, as functions from a text and a place in it to
//! what is read there and the place behind it. A choice takes the first
//! branch that reads something, a repetition goes on for as long as it can,
//! and neither is undone later.
//!
//! Several of the functions test that a place lies behind another one where
//! that cannot fail; the tests show that the definitions terminate.

use crate::grammar::{ExprView, StatementView};
use crate::text::next_stop;
use vstd::prelude::*;

verus! {

/// A character that a terminal is made of: an ASCII letter or digit, `-`,
/// `+` or `_`.
pub open spec fn is_terminal_char(c: char) -> bool {
    let u = c as u32;
    (0x30 <= u <= 0x39) || (0x41 <= u <= 0x5a) || (0x61 <= u <= 0x7a) || c == '-' || c == '+'
        || c == '_'
}

/// A character that may stand in a terminal behind a backslash.
pub open spec fn is_escapable(c: char) -> bool {
    c == '(' || c == ')' || c == '[' || c == ']' || c == '<' || c == '>' || c == '.' || c == '|'
        || c == ';'
}

/// Blank, tab, carriage return or line feed.
pub open spec fn is_space(c: char) -> bool {
    c == ' ' || c == '\t' || c == '\r' || c == '\n'
}

/// The first place from `i` on that holds no white space.
pub open spec fn skip_spaces(s: Seq<char>, i: int) -> int
    decreases s.len() - i,
{
    if 0 <= i < s.len() && is_space(s[i]) {
        skip_spaces(s, i + 1)
    } else {
        i
    }
}

/// The first place from `hi` down to `lo` that has no white space before it.
pub open spec fn trim_end(s: Seq<char>, lo: int, hi: int) -> int
    decreases hi - lo,
{
    if lo < hi && 0 < hi <= s.len() && is_space(s[hi - 1]) {
        trim_end(s, lo, hi - 1)
    } else {
        hi
    }
}

/// Where the run of terminal characters and escaped characters from `i` on
/// ends; `None` where a backslash stands before something that cannot be
/// escaped.
pub open spec fn terminal_end(s: Seq<char>, i: int) -> Option<int>
    decreases s.len() - i,
{
    if i < 0 || i >= s.len() {
        Some(i)
    } else if is_terminal_char(s[i]) {
        terminal_end(s, i + 1)
    } else if s[i] == '\\' {
        if i + 1 < s.len() && is_escapable(s[i + 1]) {
            terminal_end(s, i + 2)
        } else {
            None
        }
    } else {
        Some(i)
    }
}

/// A terminal at `i`: its text, backslashes included, and the place behind.
pub open spec fn terminal_at(s: Seq<char>, i: int) -> Option<(Seq<char>, int)> {
    match terminal_end(s, i) {
        Some(j) => if 0 <= i < j <= s.len() {
            Some((s.subrange(i, j), j))
        } else {
            None
        },
        None => None,
    }
}

/// A symbol at `i`: `<`, a name of one character or more without `>`, and
/// `>`. The result is the name and the place behind.
pub open spec fn symbol_at(s: Seq<char>, i: int) -> Option<(Seq<char>, int)> {
    if 0 <= i < s.len() && s[i] == '<' {
        let j = next_stop(s, i + 1, '>');
        if i + 1 < j < s.len() {
            Some((s.subrange(i + 1, j), j + 1))
        } else {
            None
        }
    } else {
        None
    }
}

/// A shell command at `i`: `{`, a text without `}` and `}`. The result is
/// the text without the white space at its ends, which must leave something,
/// and the place behind.
pub open spec fn command_at(s: Seq<char>, i: int) -> Option<(Seq<char>, int)> {
    if 0 <= i < s.len() && s[i] == '{' {
        let j = next_stop(s, i + 1, '}');
        let a = skip_spaces(s, i + 1);
        let b = trim_end(s, a, j);
        if j < s.len() && i < a < b <= j {
            Some((s.subrange(a, b), j + 1))
        } else {
            None
        }
    } else {
        None
    }
}

/// A description from `i` on: white space, if any, then `"`, a text without
/// `"` and `"`. The result is the text and the place behind.
pub open spec fn description_at(s: Seq<char>, i: int) -> Option<(Seq<char>, int)> {
    let k = skip_spaces(s, i);
    if 0 <= k < s.len() && s[k] == '"' {
        let m = next_stop(s, k + 1, '"');
        if k < m < s.len() {
            Some((s.subrange(k + 1, m), m + 1))
        } else {
            None
        }
    } else {
        None
    }
}

/// Whether `word` stands at `i`.
pub open spec fn has_at(s: Seq<char>, i: int, word: Seq<char>) -> bool {
    0 <= i && i + word.len() <= s.len() && s.subrange(i, i + word.len()) == word
}

/// The place behind `...` from `i` on, white space before it allowed.
pub open spec fn dots_at(s: Seq<char>, i: int) -> Option<int> {
    let k = skip_spaces(s, i);
    if has_at(s, k, seq!['.', '.', '.']) {
        Some(k + 3)
    } else {
        None
    }
}

/// The place behind `close` from `i` on, white space before it allowed.
pub open spec fn closing_at(s: Seq<char>, i: int, close: char) -> Option<int> {
    let k = skip_spaces(s, i);
    if 0 <= k < s.len() && s[k] == close {
        Some(k + 1)
    } else {
        None
    }
}

/// An expression at `i`: alternatives of sequences of atoms.
pub open spec fn expr_at(s: Seq<char>, i: int) -> Option<(ExprView, int)>
    decreases s.len() - i, 6int,
{
    alternative_at(s, i)
}

/// A sequence at `i`, and as many `| sequence` behind it as there are. One
/// sequence alone stands for itself.
pub open spec fn alternative_at(s: Seq<char>, i: int) -> Option<(ExprView, int)>
    decreases s.len() - i, 5int,
{
    match sequence_at(s, i) {
        Some((left, j)) => if i < j <= s.len() {
            let (rest, end) = alternatives_from(s, j);
            if rest.len() == 0 {
                Some((left, j))
            } else {
                Some((ExprView::Alternative(seq![left] + rest), end))
            }
        } else {
            None
        },
        None => None,
    }
}

/// The sequences that follow from `i` on, each behind a `|`, and the place
/// behind the last of them.
pub open spec fn alternatives_from(s: Seq<char>, i: int) -> (Seq<ExprView>, int)
    decreases s.len() - i, 4int,
{
    let k = skip_spaces(s, i);
    if 0 <= i <= k < s.len() && s[k] == '|' {
        let m = skip_spaces(s, k + 1);
        if k < m <= s.len() {
            match sequence_at(s, m) {
                Some((e, n)) => if m < n <= s.len() {
                    let (rest, end) = alternatives_from(s, n);
                    (seq![e] + rest, end)
                } else {
                    (Seq::empty(), i)
                },
                None => (Seq::empty(), i),
            }
        } else {
            (Seq::empty(), i)
        }
    } else {
        (Seq::empty(), i)
    }
}

/// An atom at `i`, and as many atoms behind it as there are, white space
/// between them allowed. One atom alone stands for itself.
pub open spec fn sequence_at(s: Seq<char>, i: int) -> Option<(ExprView, int)>
    decreases s.len() - i, 3int,
{
    match atom_at(s, i) {
        Some((left, j)) => if i < j <= s.len() {
            let (rest, end) = atoms_from(s, j);
            if rest.len() == 0 {
                Some((left, j))
            } else {
                Some((ExprView::Sequence(seq![left] + rest), end))
            }
        } else {
            None
        },
        None => None,
    }
}

/// The atoms that follow from `i` on, white space before each allowed, and
/// the place behind the last of them.
pub open spec fn atoms_from(s: Seq<char>, i: int) -> (Seq<ExprView>, int)
    decreases s.len() - i, 2int,
{
    let k = skip_spaces(s, i);
    if 0 <= i <= k <= s.len() {
        match atom_at(s, k) {
            Some((e, n)) => if k < n <= s.len() {
                let (rest, end) = atoms_from(s, n);
                (seq![e] + rest, end)
            } else {
                (Seq::empty(), i)
            },
            None => (Seq::empty(), i),
        }
    } else {
        (Seq::empty(), i)
    }
}

/// A simple expression at `i`, repeated where `...` follows it.
pub open spec fn atom_at(s: Seq<char>, i: int) -> Option<(ExprView, int)>
    decreases s.len() - i, 1int,
{
    match simple_at(s, i) {
        Some((e, j)) => match dots_at(s, j) {
            Some(k) => Some((ExprView::Many1(Box::new(e)), k)),
            None => Some((e, j)),
        },
        None => None,
    }
}

/// A symbol, an expression in square brackets (optional) or in round
/// brackets, a shell command in braces, or a terminal with or without a
/// description, at `i`.
pub open spec fn simple_at(s: Seq<char>, i: int) -> Option<(ExprView, int)>
    decreases s.len() - i, 0int,
{
    if i < 0 || i >= s.len() {
        None
    } else if symbol_at(s, i) is Some {
        Some((ExprView::Variable(symbol_at(s, i).unwrap().0), symbol_at(s, i).unwrap().1))
    } else if s[i] == '[' || s[i] == '(' {
        let a = skip_spaces(s, i + 1);
        if i < a <= s.len() {
            match expr_at(s, a) {
                Some((e, j)) => match closing_at(s, j, if s[i] == '[' { ']' } else { ')' }) {
                    Some(k) => Some((if s[i] == '[' { ExprView::Optional(Box::new(e)) } else { e }, k)),
                    None => None,
                },
                None => None,
            }
        } else {
            None
        }
    } else if s[i] == '{' {
        match command_at(s, i) {
            Some((text, j)) => Some((ExprView::Command(text), j)),
            None => None,
        }
    } else {
        match terminal_at(s, i) {
            Some((word, j)) => match description_at(s, j) {
                Some((text, k)) => Some((ExprView::Described(word, text), k)),
                None => Some((ExprView::Literal(word), j)),
            },
            None => None,
        }
    }
}

/// A call variant at `i`: a terminal, white space, an expression and `;`.
pub open spec fn call_variant_at(s: Seq<char>, i: int) -> Option<(StatementView, int)> {
    match terminal_at(s, i) {
        Some((name, j)) => {
            let k = skip_spaces(s, j);
            if k > j {
                match expr_at(s, k) {
                    Some((e, m)) => match closing_at(s, m, ';') {
                        Some(n) => Some((StatementView::CallVariant { lhs: name, rhs: e }, n)),
                        None => None,
                    },
                    None => None,
                }
            } else {
                None
            }
        },
        None => None,
    }
}

/// A definition at `i`: a symbol, `::=`, an expression and `;`.
pub open spec fn variable_definition_at(s: Seq<char>, i: int) -> Option<(StatementView, int)> {
    match symbol_at(s, i) {
        Some((name, j)) => {
            let k = skip_spaces(s, j);
            if has_at(s, k, seq![':', ':', '=']) {
                match expr_at(s, skip_spaces(s, k + 3)) {
                    Some((e, m)) => match closing_at(s, m, ';') {
                        Some(n) => Some((StatementView::VariableDefinition { symbol: name, rhs: e }, n)),
                        None => None,
                    },
                    None => None,
                }
            } else {
                None
            }
        },
        None => None,
    }
}

/// A call variant or else a definition at `i`; the place is the one behind
/// the white space that follows.
pub open spec fn statement_at(s: Seq<char>, i: int) -> Option<(StatementView, int)> {
    match call_variant_at(s, i) {
        Some((st, j)) => Some((st, skip_spaces(s, j))),
        None => match variable_definition_at(s, i) {
            Some((st, j)) => Some((st, skip_spaces(s, j))),
            None => None,
        },
    }
}

/// The statements from `i` on, as many as there are, and the place behind
/// the last of them.
pub open spec fn statements_from(s: Seq<char>, i: int) -> (Seq<StatementView>, int)
    decreases s.len() - i,
{
    match statement_at(s, i) {
        Some((st, j)) => if i < j <= s.len() {
            let (rest, end) = statements_from(s, j);
            (seq![st] + rest, end)
        } else {
            (Seq::empty(), i)
        },
        None => (Seq::empty(), i),
    }
}

/// The statements of a grammar's text, and the place up to which the text
/// was read: behind the white space at its start and the statements.
pub open spec fn grammar_of(s: Seq<char>) -> (Seq<StatementView>, int) {
    statements_from(s, skip_spaces(s, 0))
}

} // verus!
