//! Readers of the grammar's syntax, each proved to read what the syntax
//! says.

use crate::grammar::{views_of, Expr, ExprView, Statement, StatementView};
use crate::syntax::{
    alternative_at, alternatives_from, atom_at, atoms_from, call_variant_at, closing_at, command_at,
    description_at, expr_at, grammar_of, has_at, is_escapable, is_space, is_terminal_char,
    sequence_at, simple_at, skip_spaces, statement_at, statements_from, symbol_at, terminal_at,
    terminal_end, trim_end, variable_definition_at,
};
use crate::text::{find_stop, string_of};
use std::rc::Rc;
use vstd::prelude::*;

verus! {

/// What a reader of words returned, as a mathematical value.
pub open spec fn word_read(r: Option<(String, usize)>) -> Option<(Seq<char>, int)> {
    match r {
        Some((w, j)) => Some((w@, j as int)),
        None => None,
    }
}

/// What a reader of expressions returned, as a mathematical value.
pub open spec fn expr_read(r: Option<(Expr, usize)>) -> Option<(ExprView, int)> {
    match r {
        Some((e, j)) => Some((e@, j as int)),
        None => None,
    }
}

/// What a reader of statements returned, as a mathematical value.
pub open spec fn statement_read(r: Option<(Statement, usize)>) -> Option<(StatementView, int)> {
    match r {
        Some((st, j)) => Some((st@, j as int)),
        None => None,
    }
}

/// The values of a list of statements.
pub open spec fn statement_views(v: Seq<Statement>) -> Seq<StatementView> {
    Seq::new(v.len(), |i: int| v[i]@)
}

/// Whether `c` is a character that a terminal is made of.
pub fn is_terminal_character(c: char) -> (r: bool)
    ensures
        r == is_terminal_char(c),
{
    let u: u32 = c as u32;
    (0x30 <= u && u <= 0x39) || (0x41 <= u && u <= 0x5a) || (0x61 <= u && u <= 0x7a) || c == '-'
        || c == '+' || c == '_'
}

/// Whether `c` may stand in a terminal behind a backslash.
pub fn is_escapable_character(c: char) -> (r: bool)
    ensures
        r == is_escapable(c),
{
    c == '(' || c == ')' || c == '[' || c == ']' || c == '<' || c == '>' || c == '.' || c == '|'
        || c == ';'
}

/// Whether `c` is white space.
pub fn is_space_character(c: char) -> (r: bool)
    ensures
        r == is_space(c),
{
    c == ' ' || c == '\t' || c == '\r' || c == '\n'
}

/// The first place from `i` on that holds no white space.
pub fn skip_white(chars: &Vec<char>, i: usize) -> (j: usize)
    requires
        i <= chars.len(),
    ensures
        j == skip_spaces(chars@, i as int),
        i <= j <= chars.len(),
{
    let mut j: usize = i;
    while j < chars.len() && is_space_character(chars[j])
        invariant
            i <= j <= chars.len(),
            skip_spaces(chars@, i as int) == skip_spaces(chars@, j as int),
        decreases chars.len() - j,
    {
        j += 1;
    }
    j
}

/// The first place from `hi` down to `lo` that has no white space before it.
pub fn trim_back(chars: &Vec<char>, lo: usize, hi: usize) -> (j: usize)
    requires
        lo <= hi <= chars.len(),
    ensures
        j == trim_end(chars@, lo as int, hi as int),
        lo <= j <= hi,
{
    let mut j: usize = hi;
    while lo < j && is_space_character(chars[j - 1])
        invariant
            lo <= j <= hi <= chars.len(),
            trim_end(chars@, lo as int, hi as int) == trim_end(chars@, lo as int, j as int),
        decreases j,
    {
        j -= 1;
    }
    j
}

/// Reads a terminal at `i`: its text and the place behind it.
pub fn read_terminal(chars: &Vec<char>, i: usize) -> (r: Option<(String, usize)>)
    requires
        i <= chars.len(),
    ensures
        word_read(r) == terminal_at(chars@, i as int),
        r matches Some((_, j)) ==> i < j <= chars.len(),
{
    let mut j: usize = i;
    while j < chars.len()
        invariant
            i <= j <= chars.len(),
            terminal_end(chars@, i as int) == terminal_end(chars@, j as int),
        ensures
            i <= j <= chars.len(),
            terminal_end(chars@, i as int) == Some(j as int),
        decreases chars.len() - j,
    {
        let c = chars[j];
        if is_terminal_character(c) {
            j += 1;
        } else if c == '\\' {
            if j + 1 < chars.len() && is_escapable_character(chars[j + 1]) {
                j += 2;
            } else {
                return None;
            }
        } else {
            break ;
        }
    }
    if j > i {
        Some((string_of(chars, i, j), j))
    } else {
        None
    }
}

/// Reads a symbol at `i`: its name and the place behind it.
pub fn read_symbol(chars: &Vec<char>, i: usize) -> (r: Option<(String, usize)>)
    requires
        i <= chars.len(),
    ensures
        word_read(r) == symbol_at(chars@, i as int),
        r matches Some((_, j)) ==> i < j <= chars.len(),
{
    if i < chars.len() && chars[i] == '<' {
        let j = find_stop(chars, i + 1, '>');
        if i + 1 < j && j < chars.len() {
            Some((string_of(chars, i + 1, j), j + 1))
        } else {
            None
        }
    } else {
        None
    }
}

/// Reads a shell command in braces at `i`: its text and the place behind
/// it.
pub fn read_command(chars: &Vec<char>, i: usize) -> (r: Option<(String, usize)>)
    requires
        i <= chars.len(),
    ensures
        word_read(r) == command_at(chars@, i as int),
        r matches Some((_, j)) ==> i < j <= chars.len(),
{
    if i < chars.len() && chars[i] == '{' {
        let j = find_stop(chars, i + 1, '}');
        let a = skip_white(chars, i + 1);
        if j < chars.len() && a < j {
            let b = trim_back(chars, a, j);
            if a < b {
                Some((string_of(chars, a, b), j + 1))
            } else {
                None
            }
        } else {
            proof {
                if j < chars.len() {
                    assert(trim_end(chars@, a as int, j as int) == j);
                }
            }
            None
        }
    } else {
        None
    }
}

/// Reads a description in double quotes from `i` on: its text and the
/// place behind it.
pub fn read_description(chars: &Vec<char>, i: usize) -> (r: Option<(String, usize)>)
    requires
        i <= chars.len(),
    ensures
        word_read(r) == description_at(chars@, i as int),
        r matches Some((_, j)) ==> i < j <= chars.len(),
{
    let k = skip_white(chars, i);
    if k < chars.len() && chars[k] == '"' {
        let m = find_stop(chars, k + 1, '"');
        if m < chars.len() {
            Some((string_of(chars, k + 1, m), m + 1))
        } else {
            None
        }
    } else {
        None
    }
}

/// The place behind the characters `a`, `b` and `c` from `i` on, white space
/// allowed before them.
pub fn read_mark(chars: &Vec<char>, i: usize, a: char, b: char, c: char) -> (r: Option<usize>)
    requires
        i <= chars.len(),
    ensures
        r matches Some(j) ==> has_at(chars@, skip_spaces(chars@, i as int), seq![a, b, c]) && j
            == skip_spaces(chars@, i as int) + 3 && i < j <= chars.len(),
        r is None ==> !has_at(chars@, skip_spaces(chars@, i as int), seq![a, b, c]),
{
    let k = skip_white(chars, i);
    if chars.len() - k >= 3 && chars[k] == a && chars[k + 1] == b && chars[k + 2] == c {
        assert(chars@.subrange(k as int, k + 3) =~= seq![a, b, c]);
        Some(k + 3)
    } else {
        proof {
            if has_at(chars@, k as int, seq![a, b, c]) {
                let w = chars@.subrange(k as int, k + 3);
                assert(w[0] == a && w[1] == b && w[2] == c);
            }
        }
        None
    }
}

/// The place behind `close` from `i` on, white space allowed before it.
pub fn read_closing(chars: &Vec<char>, i: usize, close: char) -> (r: Option<usize>)
    requires
        i <= chars.len(),
    ensures
        r matches Some(j) ==> closing_at(chars@, i as int, close) == Some(j as int) && i < j
            <= chars.len(),
        r is None ==> closing_at(chars@, i as int, close) is None,
{
    let k = skip_white(chars, i);
    if k < chars.len() && chars[k] == close {
        Some(k + 1)
    } else {
        None
    }
}

/// Reads an expression at `i`: its value and the place behind it.
pub fn read_expr(chars: &Vec<char>, i: usize) -> (r: Option<(Expr, usize)>)
    requires
        i <= chars.len(),
    ensures
        expr_read(r) == expr_at(chars@, i as int),
        r matches Some((_, j)) ==> i < j <= chars.len(),
    decreases chars.len() - i, 6int,
{
    read_alternative(chars, i)
}

/// Reads a sequence at `i` and as many `| sequence` behind it as there are.
pub fn read_alternative(chars: &Vec<char>, i: usize) -> (r: Option<(Expr, usize)>)
    requires
        i <= chars.len(),
    ensures
        expr_read(r) == alternative_at(chars@, i as int),
        r matches Some((_, j)) ==> i < j <= chars.len(),
    decreases chars.len() - i, 5int,
{
    let (left, first_end) = match read_sequence(chars, i) {
        None => { return None; },
        Some(p) => p,
    };
    let mut rest: Vec<Rc<Expr>> = Vec::new();
    let mut end: usize = first_end;
    loop
        invariant
            i < first_end <= end <= chars.len(),
            rest.len() == 0 ==> end == first_end,
            alternatives_from(chars@, first_end as int) == (
                views_of(rest@) + alternatives_from(chars@, end as int).0,
                alternatives_from(chars@, end as int).1,
            ),
        ensures
            alternatives_from(chars@, first_end as int) == (views_of(rest@), end as int),
            i < first_end <= end <= chars.len(),
            rest.len() == 0 ==> end == first_end,
        decreases chars.len() - end,
    {
        let k = skip_white(chars, end);
        if !(k < chars.len() && chars[k] == '|') {
            assert(views_of(rest@) + Seq::<ExprView>::empty() =~= views_of(rest@));
            break ;
        }
        let m = skip_white(chars, k + 1);
        match read_sequence(chars, m) {
            None => {
                assert(views_of(rest@) + Seq::<ExprView>::empty() =~= views_of(rest@));
                break ;
            },
            Some((e, n)) => {
                proof {
                    let tail = alternatives_from(chars@, n as int);
                    assert(alternatives_from(chars@, end as int) == (seq![e@] + tail.0, tail.1));
                    assert(views_of(rest@.push(Rc::new(e))) =~= views_of(rest@) + seq![e@]);
                    assert(views_of(rest@) + (seq![e@] + tail.0) =~= (views_of(rest@) + seq![e@])
                        + tail.0);
                }
                rest.push(Rc::new(e));
                end = n;
            },
        }
    }
    if rest.len() == 0 {
        Some((left, first_end))
    } else {
        let ghost tail = views_of(rest@);
        let ghost left_view = left@;
        rest.insert(0, Rc::new(left));
        let e = Expr::Alternative(rest);
        assert(e@ == ExprView::Alternative(seq![left_view] + tail)) by {
            assert(e@->Alternative_0 =~= seq![left_view] + tail);
        }
        Some((e, end))
    }
}

/// Reads an atom at `i` and as many atoms behind it as there are.
pub fn read_sequence(chars: &Vec<char>, i: usize) -> (r: Option<(Expr, usize)>)
    requires
        i <= chars.len(),
    ensures
        expr_read(r) == sequence_at(chars@, i as int),
        r matches Some((_, j)) ==> i < j <= chars.len(),
    decreases chars.len() - i, 3int,
{
    let (left, first_end) = match read_atom(chars, i) {
        None => { return None; },
        Some(p) => p,
    };
    let mut rest: Vec<Rc<Expr>> = Vec::new();
    let mut end: usize = first_end;
    loop
        invariant
            i < first_end <= end <= chars.len(),
            rest.len() == 0 ==> end == first_end,
            atoms_from(chars@, first_end as int) == (
                views_of(rest@) + atoms_from(chars@, end as int).0,
                atoms_from(chars@, end as int).1,
            ),
        ensures
            atoms_from(chars@, first_end as int) == (views_of(rest@), end as int),
            i < first_end <= end <= chars.len(),
            rest.len() == 0 ==> end == first_end,
        decreases chars.len() - end,
    {
        let k = skip_white(chars, end);
        match read_atom(chars, k) {
            None => {
                assert(views_of(rest@) + Seq::<ExprView>::empty() =~= views_of(rest@));
                break ;
            },
            Some((e, n)) => {
                proof {
                    let tail = atoms_from(chars@, n as int);
                    assert(atoms_from(chars@, end as int) == (seq![e@] + tail.0, tail.1));
                    assert(views_of(rest@.push(Rc::new(e))) =~= views_of(rest@) + seq![e@]);
                    assert(views_of(rest@) + (seq![e@] + tail.0) =~= (views_of(rest@) + seq![e@])
                        + tail.0);
                }
                rest.push(Rc::new(e));
                end = n;
            },
        }
    }
    if rest.len() == 0 {
        Some((left, first_end))
    } else {
        let ghost tail = views_of(rest@);
        let ghost left_view = left@;
        rest.insert(0, Rc::new(left));
        let e = Expr::Sequence(rest);
        assert(e@ == ExprView::Sequence(seq![left_view] + tail)) by {
            assert(e@->Sequence_0 =~= seq![left_view] + tail);
        }
        Some((e, end))
    }
}

/// Reads a simple expression at `i`, repeated where `...` follows it.
pub fn read_atom(chars: &Vec<char>, i: usize) -> (r: Option<(Expr, usize)>)
    requires
        i <= chars.len(),
    ensures
        expr_read(r) == atom_at(chars@, i as int),
        r matches Some((_, j)) ==> i < j <= chars.len(),
    decreases chars.len() - i, 1int,
{
    match read_simple(chars, i) {
        None => None,
        Some((e, j)) => match read_mark(chars, j, '.', '.', '.') {
            Some(k) => Some((Expr::Many1(Rc::new(e)), k)),
            None => Some((e, j)),
        },
    }
}

/// Reads a symbol, an expression in brackets, a shell command or a terminal
/// with or without a description at `i`.
pub fn read_simple(chars: &Vec<char>, i: usize) -> (r: Option<(Expr, usize)>)
    requires
        i <= chars.len(),
    ensures
        expr_read(r) == simple_at(chars@, i as int),
        r matches Some((_, j)) ==> i < j <= chars.len(),
    decreases chars.len() - i, 0int,
{
    if i >= chars.len() {
        return None;
    }
    match read_symbol(chars, i) {
        Some((name, j)) => {
            return Some((Expr::Variable(name), j));
        },
        None => {},
    }
    let c = chars[i];
    if c == '[' || c == '(' {
        let a = skip_white(chars, i + 1);
        match read_expr(chars, a) {
            None => None,
            Some((e, j)) => {
                let close = if c == '[' { ']' } else { ')' };
                match read_closing(chars, j, close) {
                    None => None,
                    Some(k) => if c == '[' {
                        Some((Expr::Optional(Rc::new(e)), k))
                    } else {
                        Some((e, k))
                    },
                }
            },
        }
    } else if c == '{' {
        match read_command(chars, i) {
            Some((text, j)) => Some((Expr::Command(text), j)),
            None => None,
        }
    } else {
        match read_terminal(chars, i) {
            Some((word, j)) => match read_description(chars, j) {
                Some((text, k)) => Some((Expr::Described(word, text), k)),
                None => Some((Expr::Literal(word), j)),
            },
            None => None,
        }
    }
}

/// Reads a call variant at `i`.
pub fn read_call_variant(chars: &Vec<char>, i: usize) -> (r: Option<(Statement, usize)>)
    requires
        i <= chars.len(),
    ensures
        statement_read(r) == call_variant_at(chars@, i as int),
        r matches Some((_, j)) ==> i < j <= chars.len(),
{
    match read_terminal(chars, i) {
        None => None,
        Some((name, j)) => {
            let k = skip_white(chars, j);
            if k > j {
                match read_expr(chars, k) {
                    None => None,
                    Some((e, m)) => match read_closing(chars, m, ';') {
                        None => None,
                        Some(n) => Some((Statement::CallVariant { lhs: name, rhs: Rc::new(e) }, n)),
                    },
                }
            } else {
                None
            }
        },
    }
}

/// Reads a definition of a nonterminal at `i`.
pub fn read_variable_definition(chars: &Vec<char>, i: usize) -> (r: Option<(Statement, usize)>)
    requires
        i <= chars.len(),
    ensures
        statement_read(r) == variable_definition_at(chars@, i as int),
        r matches Some((_, j)) ==> i < j <= chars.len(),
{
    match read_symbol(chars, i) {
        None => None,
        Some((name, j)) => match read_mark(chars, j, ':', ':', '=') {
            None => None,
            Some(k) => {
                let a = skip_white(chars, k);
                match read_expr(chars, a) {
                    None => None,
                    Some((e, m)) => match read_closing(chars, m, ';') {
                        None => None,
                        Some(n) => Some(
                            (Statement::VariableDefinition { symbol: name, rhs: Rc::new(e) }, n),
                        ),
                    },
                }
            },
        },
    }
}

/// Reads a call variant or else a definition at `i`, and the white space
/// behind it.
pub fn read_statement(chars: &Vec<char>, i: usize) -> (r: Option<(Statement, usize)>)
    requires
        i <= chars.len(),
    ensures
        statement_read(r) == statement_at(chars@, i as int),
        r matches Some((_, j)) ==> i < j <= chars.len(),
{
    match read_call_variant(chars, i) {
        Some((st, j)) => Some((st, skip_white(chars, j))),
        None => match read_variable_definition(chars, i) {
            Some((st, j)) => Some((st, skip_white(chars, j))),
            None => None,
        },
    }
}

/// The statements of a grammar's text and the place up to which it was read.
pub fn read_grammar(chars: &Vec<char>) -> (r: (Vec<Statement>, usize))
    ensures
        (statement_views(r.0@), r.1 as int) == grammar_of(chars@),
        r.1 <= chars.len(),
{
    let start = skip_white(chars, 0);
    let mut statements: Vec<Statement> = Vec::new();
    let mut end: usize = start;
    loop
        invariant
            end <= chars.len(),
            statements_from(chars@, start as int) == (
                statement_views(statements@) + statements_from(chars@, end as int).0,
                statements_from(chars@, end as int).1,
            ),
        ensures
            statements_from(chars@, start as int) == (statement_views(statements@), end as int),
            end <= chars.len(),
        decreases chars.len() - end,
    {
        match read_statement(chars, end) {
            None => {
                assert(statement_views(statements@) + Seq::<StatementView>::empty()
                    =~= statement_views(statements@));
                break ;
            },
            Some((st, n)) => {
                proof {
                    let tail = statements_from(chars@, n as int);
                    assert(statements_from(chars@, end as int) == (seq![st@] + tail.0, tail.1));
                    assert(statement_views(statements@.push(st)) =~= statement_views(statements@)
                        + seq![st@]);
                    assert(statement_views(statements@) + (seq![st@] + tail.0) =~= (
                    statement_views(statements@) + seq![st@]) + tail.0);
                }
                statements.push(st);
                end = n;
            },
        }
    }
    (statements, end)
}

} // verus!
