//! Writing expressions down as grammar text, and that reading gives back
//! what was written.

use crate::grammar::{views_of, Expr, ExprView};
use crate::resolve::{lemma_view_alternative, lemma_view_sequence};
use crate::text::{next_stop, push_char};
use std::rc::Rc;
use crate::syntax::{
    alternatives_from, atom_at, atoms_from, closing_at, command_at, description_at, dots_at,
    expr_at, has_at, is_escapable, is_space, is_terminal_char, sequence_at, simple_at,
    skip_spaces, symbol_at, terminal_at, terminal_end, trim_end,
};
use vstd::prelude::*;
use vstd::string::StringExecFns;

verus! {

/// Whether `e` stands in round brackets where it is a member of a sequence
/// or of an alternative.
pub open spec fn is_list(e: ExprView) -> bool {
    e is Sequence || e is Alternative
}

/// `e` as a text of the grammar.
pub open spec fn format(e: ExprView) -> Seq<char>
    decreases e, 1nat,
{
    match e {
        ExprView::Literal(t) => t,
        ExprView::Described(t, d) => t + seq![' ', '"'] + d + seq!['"'],
        ExprView::Variable(n) => seq!['<'] + n + seq!['>'],
        ExprView::Command(c) => seq!['{'] + c + seq!['}'],
        ExprView::Optional(c) => seq!['['] + format(*c) + seq![']'],
        ExprView::Many1(c) => if is_list(*c) || *c is Many1 {
            seq!['('] + format(*c) + seq![')'] + seq!['.', '.', '.']
        } else {
            format(*c) + seq!['.', '.', '.']
        },
        ExprView::Sequence(cs) => if cs.len() == 0 {
            Seq::empty()
        } else {
            member(cs[0]) + and_more(cs, 1)
        },
        ExprView::Alternative(cs) => if cs.len() == 0 {
            Seq::empty()
        } else {
            member(cs[0]) + or_more(cs, 1)
        },
    }
}

/// `e` as a member of a sequence or of an alternative.
pub open spec fn member(e: ExprView) -> Seq<char>
    decreases e, 2nat,
{
    if is_list(e) {
        seq!['('] + format(e) + seq![')']
    } else {
        format(e)
    }
}

/// The members `cs[j..]`, each behind a blank.
pub open spec fn and_more(cs: Seq<ExprView>, j: nat) -> Seq<char>
    decreases cs, cs.len() - j,
{
    if j >= cs.len() {
        Seq::empty()
    } else {
        seq![' '] + member(cs[j as int]) + and_more(cs, j + 1)
    }
}

/// The members `cs[j..]`, each behind a `|`.
pub open spec fn or_more(cs: Seq<ExprView>, j: nat) -> Seq<char>
    decreases cs, cs.len() - j,
{
    if j >= cs.len() {
        Seq::empty()
    } else {
        seq![' ', '|', ' '] + member(cs[j as int]) + or_more(cs, j + 1)
    }
}

/// `e` as what `...` can stand behind.
pub open spec fn operand(e: ExprView) -> Seq<char> {
    if is_list(e) || e is Many1 {
        seq!['('] + format(e) + seq![')']
    } else {
        format(e)
    }
}

/// A text that reads as one terminal.
pub open spec fn is_terminal(t: Seq<char>) -> bool {
    t.len() > 0 && terminal_end(t, 0) == Some(t.len() as int)
}

/// Whether `e` can be written down: its literals are terminals, its names
/// are not empty and hold no `>`, its descriptions hold no `"`, its commands
/// are not empty, hold no `}` and neither begin nor end with white space,
/// and its sequences and alternatives have two members or more.
pub open spec fn writable(e: ExprView) -> bool
    decreases e,
{
    match e {
        ExprView::Literal(t) => is_terminal(t),
        ExprView::Described(t, d) => is_terminal(t) && !d.contains('"'),
        ExprView::Variable(n) => n.len() > 0 && !n.contains('>'),
        ExprView::Command(c) => c.len() > 0 && !c.contains('}') && !is_space(c[0]) && !is_space(c.last()),
        ExprView::Optional(c) => writable(*c),
        ExprView::Many1(c) => writable(*c),
        ExprView::Sequence(cs) => cs.len() >= 2 && forall|i: int|
            0 <= i < cs.len() ==> writable(#[trigger] cs[i]),
        ExprView::Alternative(cs) => cs.len() >= 2 && forall|i: int|
            0 <= i < cs.len() ==> writable(#[trigger] cs[i]),
    }
}

/// Whether the text `w` stands in `s` at `i`.
pub open spec fn occurs(s: Seq<char>, i: int, w: Seq<char>) -> bool {
    0 <= i && i + w.len() <= s.len() && forall|k: int| 0 <= k < w.len() ==> s[i + k] == #[trigger] w[k]
}

/// The first character from `i` on that is no white space, if there is one.
pub open spec fn next_char(s: Seq<char>, i: int) -> Option<char> {
    let k = skip_spaces(s, i);
    if 0 <= k < s.len() {
        Some(s[k])
    } else {
        None
    }
}

/// Whether a terminal that ends before `i` ends there: the text ends, or a
/// character stands there that no terminal holds.
pub open spec fn delimits(s: Seq<char>, i: int) -> bool {
    i == s.len() || (0 <= i < s.len() && (s[i] == ' ' || s[i] == ')' || s[i] == ']' || s[i] == '.' || s[i] == ';'))
}

/// Whether what stands at `i` is neither `...` nor a description, white
/// space left aside.
pub open spec fn goes_on(s: Seq<char>, i: int) -> bool {
    next_char(s, i) != Some('.') && next_char(s, i) != Some('"')
}

/// Whether a sequence that ends before `i` ends there: what follows, white
/// space left aside, is the end of the text, a closing bracket, `;` or `|`.
pub open spec fn stops(s: Seq<char>, i: int) -> bool {
    next_char(s, i) is None || next_char(s, i) == Some(')') || next_char(s, i) == Some(']') || next_char(
        s,
        i,
    ) == Some(';') || next_char(s, i) == Some('|')
}

/// Whether an expression that ends before `i` ends there: as [`stops`], but
/// for `|`.
pub open spec fn closes(s: Seq<char>, i: int) -> bool {
    stops(s, i) && next_char(s, i) != Some('|')
}

/// A character with which the text of an expression can begin.
pub open spec fn starts(c: char) -> bool {
    is_terminal_char(c) || c == '\\' || c == '<' || c == '[' || c == '(' || c == '{'
}

/// White space ends where no white space stands.
pub proof fn lemma_skip_here(s: Seq<char>, i: int)
    requires
        0 <= i <= s.len(),
        i < s.len() ==> !is_space(s[i]),
    ensures
        skip_spaces(s, i) == i,
{
}

/// White space ends at `j` where it stands from `i` up to `j` and not at
/// `j`.
pub proof fn lemma_skip_to(s: Seq<char>, i: int, j: int)
    requires
        0 <= i <= j <= s.len(),
        forall|k: int| i <= k < j ==> is_space(#[trigger] s[k]),
        j < s.len() ==> !is_space(s[j]),
    ensures
        skip_spaces(s, i) == j,
    decreases j - i,
{
    if i < j {
        lemma_skip_to(s, i + 1, j);
    }
}

/// The run up to `stop` ends at `j` where `stop` stands at `j` and not
/// before.
pub proof fn lemma_run_to(s: Seq<char>, i: int, j: int, stop: char)
    requires
        0 <= i <= j <= s.len(),
        forall|k: int| i <= k < j ==> #[trigger] s[k] != stop,
        j < s.len() ==> s[j] == stop,
    ensures
        next_stop(s, i, stop) == j,
    decreases j - i,
{
    if i < j {
        lemma_run_to(s, i + 1, j, stop);
    }
}

/// A terminal begins with a character of terminals or with a backslash.
pub proof fn lemma_terminal_starts(t: Seq<char>)
    requires
        is_terminal(t),
    ensures
        is_terminal_char(t[0]) || t[0] == '\\',
{
}

/// A terminal that stands in a text is read there as it is read alone.
pub proof fn lemma_terminal_within(t: Seq<char>, k: int, s: Seq<char>, i: int)
    requires
        0 <= k <= t.len(),
        terminal_end(t, k) == Some(t.len() as int),
        occurs(s, i, t),
        delimits(s, i + t.len()),
    ensures
        terminal_end(s, i + k) == Some(i + t.len()),
    decreases t.len() - k,
{
    if k < t.len() {
        assert(s[i + k] == t[k]);
        if is_terminal_char(t[k]) {
            lemma_terminal_within(t, k + 1, s, i);
        } else {
            assert(t[k] == '\\');
            assert(k + 1 < t.len() && is_escapable(t[k + 1]));
            assert(s[i + (k + 1)] == t[k + 1]);
            lemma_terminal_within(t, k + 2, s, i);
        }
    }
}

/// A terminal that stands in a text is read.
pub proof fn lemma_read_terminal(t: Seq<char>, s: Seq<char>, i: int)
    requires
        is_terminal(t),
        occurs(s, i, t),
        delimits(s, i + t.len()),
    ensures
        terminal_at(s, i) == Some((t, i + t.len())),
{
    lemma_terminal_within(t, 0, s, i);
    assert(s.subrange(i, i + t.len()) =~= t);
}

/// White space ends at or behind the place from which it is looked for.
pub proof fn lemma_skip_bounds(s: Seq<char>, i: int)
    requires
        0 <= i <= s.len(),
    ensures
        i <= skip_spaces(s, i) <= s.len(),
    decreases s.len() - i,
{
    if i < s.len() && is_space(s[i]) {
        lemma_skip_bounds(s, i + 1);
    }
}

/// Nothing is read where the text ends or a closing bracket, `;` or `|`
/// stands.
pub proof fn lemma_read_nothing(s: Seq<char>, k: int)
    requires
        0 <= k <= s.len(),
        k < s.len() ==> s[k] == ')' || s[k] == ']' || s[k] == ';' || s[k] == '|',
    ensures
        simple_at(s, k) is None,
        atom_at(s, k) is None,
        sequence_at(s, k) is None,
{
}

/// The written form of an expression begins with a character with which an
/// expression can begin.
pub proof fn lemma_format_starts(e: ExprView)
    requires
        writable(e),
    ensures
        format(e).len() > 0,
        starts(format(e)[0]),
        member(e).len() > 0,
        starts(member(e)[0]),
        operand(e).len() > 0,
        starts(operand(e)[0]),
    decreases e,
{
    match e {
        ExprView::Literal(t) => {
            lemma_terminal_starts(t);
        },
        ExprView::Described(t, d) => {
            lemma_terminal_starts(t);
            assert(format(e)[0] == t[0]);
        },
        ExprView::Variable(n) => {
            assert(format(e)[0] == '<');
        },
        ExprView::Command(c) => {
            assert(format(e)[0] == '{');
        },
        ExprView::Optional(c) => {
            assert(format(e)[0] == '[');
        },
        ExprView::Many1(c) => {
            lemma_format_starts(*c);
            if is_list(*c) || *c is Many1 {
                assert(format(e)[0] == '(');
            } else {
                assert(format(e)[0] == format(*c)[0]);
            }
        },
        ExprView::Sequence(cs) => {
            lemma_format_starts(cs[0]);
            assert(writable(cs[0]));
            assert(format(e)[0] == member(cs[0])[0]);
        },
        ExprView::Alternative(cs) => {
            lemma_format_starts(cs[0]);
            assert(writable(cs[0]));
            assert(format(e)[0] == member(cs[0])[0]);
        },
    }
    if is_list(e) {
        assert(member(e)[0] == '(');
    }
    if is_list(e) || e is Many1 {
        assert(operand(e)[0] == '(');
    }
}

/// The two parts of a text that stands in `s` stand in `s`.
pub proof fn lemma_occurs_parts(s: Seq<char>, i: int, a: Seq<char>, b: Seq<char>)
    requires
        occurs(s, i, a + b),
    ensures
        occurs(s, i, a),
        occurs(s, i + a.len(), b),
{
    let w = a + b;
    assert forall|k: int| 0 <= k < a.len() implies s[i + k] == #[trigger] a[k] by {
        assert(w[k] == a[k]);
    }
    assert forall|k: int| 0 <= k < b.len() implies s[i + a.len() + k] == #[trigger] b[k] by {
        assert(w[a.len() + k] == b[k]);
    }
}

/// The rank of the lemma on operands among the lemmas on one expression:
/// each of them leans on those of lower rank only, or on lemmas on smaller
/// expressions.
pub open spec fn rank_operand(e: ExprView) -> nat {
    if is_list(e) {
        3
    } else if e is Many1 {
        4
    } else {
        1
    }
}

/// The rank of the lemma on atoms among the lemmas on one expression.
pub open spec fn rank_atom(e: ExprView) -> nat {
    if is_list(e) {
        4
    } else if e is Many1 {
        1
    } else {
        2
    }
}

/// The rank of the lemma on members among the lemmas on one expression.
pub open spec fn rank_member(e: ExprView) -> nat {
    if is_list(e) {
        5
    } else if e is Many1 {
        2
    } else {
        3
    }
}

/// The rank of the lemma on expressions among the lemmas on one expression.
pub open spec fn rank_expr(e: ExprView) -> nat {
    if is_list(e) {
        2
    } else if e is Many1 {
        3
    } else {
        4
    }
}

/// An expression that stands in a text as what `...` can stand behind is
/// read there.
pub proof fn lemma_read_operand(e: ExprView, s: Seq<char>, i: int)
    requires
        writable(e),
        occurs(s, i, operand(e)),
        delimits(s, i + operand(e).len()),
        next_char(s, i + operand(e).len()) != Some('"'),
    ensures
        simple_at(s, i) == Some((e, i + operand(e).len())),
    decreases e, rank_operand(e),
{
    let end = i + operand(e).len();
    lemma_format_starts(e);
    assert(s[i] == operand(e)[0]);
    if is_list(e) || e is Many1 {
        let inner = format(e);
        lemma_occurs_parts(s, i, seq!['('] + inner, seq![')']);
        lemma_occurs_parts(s, i, seq!['('], inner);
        assert(s[i] == '(');
        assert(s[i + 1 + inner.len()] == seq![')'][0]);
        lemma_skip_here(s, i + 1);
        lemma_read_expr(e, s, i + 1);
        lemma_skip_here(s, i + 1 + inner.len());
        assert(closing_at(s, i + 1 + inner.len(), ')') == Some(end));
        assert(symbol_at(s, i) is None);
    } else {
        match e {
            ExprView::Literal(t) => {
                lemma_terminal_starts(t);
                lemma_read_terminal(t, s, i);
                assert(description_at(s, end) is None);
            },
            ExprView::Described(t, d) => {
                lemma_terminal_starts(t);
                lemma_occurs_parts(s, i, t + seq![' ', '"'] + d, seq!['"']);
                lemma_occurs_parts(s, i, t + seq![' ', '"'], d);
                lemma_occurs_parts(s, i, t, seq![' ', '"']);
                let j = i + t.len();
                assert(s[j] == seq![' ', '"'][0]);
                assert(s[j + 1] == seq![' ', '"'][1]);
                assert(s[j + 2 + d.len()] == seq!['"'][0]);
                lemma_read_terminal(t, s, i);
                lemma_skip_to(s, j, j + 1);
                assert forall|k: int| j + 2 <= k < j + 2 + d.len() implies #[trigger] s[k] != '"' by {
                    assert(s[j + 2 + (k - j - 2)] == d[k - j - 2]);
                    assert(d.contains(d[k - j - 2]));
                }
                lemma_run_to(s, j + 2, j + 2 + d.len(), '"');
                assert(s.subrange(j + 2, j + 2 + d.len()) =~= d);
                assert(description_at(s, j) == Some((d, end)));
            },
            ExprView::Variable(n) => {
                lemma_occurs_parts(s, i, seq!['<'] + n, seq!['>']);
                lemma_occurs_parts(s, i, seq!['<'], n);
                assert(s[i] == seq!['<'][0]);
                assert(s[i + 1 + n.len()] == seq!['>'][0]);
                assert forall|k: int| i + 1 <= k < i + 1 + n.len() implies #[trigger] s[k] != '>' by {
                    assert(s[i + 1 + (k - i - 1)] == n[k - i - 1]);
                    assert(n.contains(n[k - i - 1]));
                }
                lemma_run_to(s, i + 1, i + 1 + n.len(), '>');
                assert(s.subrange(i + 1, i + 1 + n.len()) =~= n);
            },
            ExprView::Command(c) => {
                lemma_occurs_parts(s, i, seq!['{'] + c, seq!['}']);
                lemma_occurs_parts(s, i, seq!['{'], c);
                assert(s[i] == seq!['{'][0]);
                let j = i + 1 + c.len();
                assert(s[j] == seq!['}'][0]);
                assert forall|k: int| i + 1 <= k < j implies #[trigger] s[k] != '}' by {
                    assert(s[i + 1 + (k - i - 1)] == c[k - i - 1]);
                    assert(c.contains(c[k - i - 1]));
                }
                lemma_run_to(s, i + 1, j, '}');
                assert(s[i + 1 + 0] == c[0]);
                lemma_skip_here(s, i + 1);
                assert(s[i + 1 + (c.len() - 1)] == c[c.len() - 1]);
                assert(trim_end(s, i + 1, j) == j);
                assert(s.subrange(i + 1, j) =~= c);
                assert(symbol_at(s, i) is None);
                assert(command_at(s, i) == Some((c, end)));
            },
            ExprView::Optional(c) => {
                let inner = format(*c);
                lemma_format_starts(*c);
                lemma_occurs_parts(s, i, seq!['['] + inner, seq![']']);
                lemma_occurs_parts(s, i, seq!['['], inner);
                assert(s[i] == seq!['['][0]);
                assert(s[i + 1 + inner.len()] == seq![']'][0]);
                assert(s[i + 1 + 0] == inner[0]);
                lemma_skip_here(s, i + 1);
                lemma_read_expr(*c, s, i + 1);
                lemma_skip_here(s, i + 1 + inner.len());
                assert(closing_at(s, i + 1 + inner.len(), ']') == Some(end));
                assert(symbol_at(s, i) is None);
            },
            _ => {},
        }
    }
}

/// An expression that stands in a text as a member is read there as an
/// atom.
pub proof fn lemma_read_atom(e: ExprView, s: Seq<char>, i: int)
    requires
        writable(e),
        occurs(s, i, member(e)),
        delimits(s, i + member(e).len()),
        goes_on(s, i + member(e).len()),
    ensures
        atom_at(s, i) == Some((e, i + member(e).len())),
    decreases e, rank_atom(e),
{
    let end = i + member(e).len();
    match e {
        ExprView::Many1(c) => {
            let inner = operand(*c);
            let dots = seq!['.', '.', '.'];
            assert(member(e) =~= inner + dots);
            lemma_occurs_parts(s, i, inner, dots);
            let j = i + inner.len();
            assert(s[j] == dots[0]);
            assert(s[j + 1] == dots[1]);
            assert(s[j + 2] == dots[2]);
            lemma_skip_here(s, j);
            lemma_read_operand(*c, s, i);
            assert(s.subrange(j, j + 3) =~= dots);
            assert(has_at(s, j, dots));
            assert(dots_at(s, j) == Some(j + 3));
        },
        _ => {
            assert(member(e) == operand(e));
            lemma_read_operand(e, s, i);
            lemma_skip_bounds(s, end);
            let k = skip_spaces(s, end);
            if has_at(s, k, seq!['.', '.', '.']) {
                assert(s.subrange(k, k + 3)[0] == '.');
            }
            assert(dots_at(s, end) is None);
        },
    }
}

/// An expression that stands in a text as a member, with nothing behind it
/// that goes on, is read there as a sequence of one.
pub proof fn lemma_read_member(e: ExprView, s: Seq<char>, i: int)
    requires
        writable(e),
        occurs(s, i, member(e)),
        delimits(s, i + member(e).len()),
        stops(s, i + member(e).len()),
    ensures
        sequence_at(s, i) == Some((e, i + member(e).len())),
    decreases e, rank_member(e),
{
    let end = i + member(e).len();
    lemma_format_starts(e);
    lemma_read_atom(e, s, i);
    lemma_skip_bounds(s, end);
    lemma_read_nothing(s, skip_spaces(s, end));
}

/// The members `cs[j..]` that stand in a text, each behind a blank, are
/// read there as the further members of a sequence.
pub proof fn lemma_read_and_more(cs: Seq<ExprView>, j: nat, s: Seq<char>, i: int)
    requires
        j <= cs.len(),
        forall|k: int| 0 <= k < cs.len() ==> writable(#[trigger] cs[k]),
        occurs(s, i, and_more(cs, j)),
        delimits(s, i + and_more(cs, j).len()),
        stops(s, i + and_more(cs, j).len()),
    ensures
        atoms_from(s, i) == (cs.skip(j as int), i + and_more(cs, j).len()),
    decreases cs, cs.len() - j,
{
    if j == cs.len() {
        lemma_skip_bounds(s, i);
        lemma_read_nothing(s, skip_spaces(s, i));
        assert(cs.skip(j as int) =~= Seq::<ExprView>::empty());
    } else {
        let first = cs[j as int];
        assert(writable(first));
        lemma_format_starts(first);
        let blank = seq![' '];
        let head = member(first);
        let rest = and_more(cs, j + 1);
        assert(and_more(cs, j) == blank + head + rest);
        lemma_occurs_parts(s, i, blank + head, rest);
        lemma_occurs_parts(s, i, blank, head);
        assert(s[i] == blank[0]);
        assert(s[i + 1 + 0] == head[0]);
        lemma_skip_to(s, i, i + 1);
        let e1 = i + 1 + head.len();
        if j + 1 == cs.len() {
            assert(rest =~= Seq::<char>::empty());
        } else {
            let next = cs[(j + 1) as int];
            assert(writable(next));
            lemma_format_starts(next);
            assert(rest == blank + member(next) + and_more(cs, j + 2));
            assert(s[e1 + 0] == rest[0]);
            assert(s[e1 + 1] == rest[1]);
            assert(rest[1] == member(next)[0]);
            lemma_skip_to(s, e1, e1 + 1);
        }
        lemma_read_atom(first, s, i + 1);
        lemma_read_and_more(cs, j + 1, s, e1);
        assert(cs.skip(j as int) =~= seq![first] + cs.skip((j + 1) as int));
    }
}

/// The members `cs[j..]` that stand in a text, each behind a `|`, are read
/// there as the further members of an alternative.
pub proof fn lemma_read_or_more(cs: Seq<ExprView>, j: nat, s: Seq<char>, i: int)
    requires
        j <= cs.len(),
        forall|k: int| 0 <= k < cs.len() ==> writable(#[trigger] cs[k]),
        occurs(s, i, or_more(cs, j)),
        delimits(s, i + or_more(cs, j).len()),
        closes(s, i + or_more(cs, j).len()),
    ensures
        alternatives_from(s, i) == (cs.skip(j as int), i + or_more(cs, j).len()),
    decreases cs, cs.len() - j,
{
    if j == cs.len() {
        lemma_skip_bounds(s, i);
        assert(cs.skip(j as int) =~= Seq::<ExprView>::empty());
    } else {
        let first = cs[j as int];
        assert(writable(first));
        lemma_format_starts(first);
        let bar = seq![' ', '|', ' '];
        let head = member(first);
        let rest = or_more(cs, j + 1);
        assert(or_more(cs, j) == bar + head + rest);
        lemma_occurs_parts(s, i, bar + head, rest);
        lemma_occurs_parts(s, i, bar, head);
        assert(s[i] == bar[0]);
        assert(s[i + 1] == bar[1]);
        assert(s[i + 2] == bar[2]);
        assert(s[i + 3 + 0] == head[0]);
        lemma_skip_to(s, i, i + 1);
        lemma_skip_to(s, i + 2, i + 3);
        let e1 = i + 3 + head.len();
        if j + 1 == cs.len() {
            assert(rest =~= Seq::<char>::empty());
        } else {
            assert(rest == bar + member(cs[(j + 1) as int]) + or_more(cs, j + 2));
            assert(s[e1 + 0] == rest[0]);
            assert(s[e1 + 1] == rest[1]);
            lemma_skip_to(s, e1, e1 + 1);
        }
        lemma_read_member(first, s, i + 3);
        lemma_read_or_more(cs, j + 1, s, e1);
        assert(cs.skip(j as int) =~= seq![first] + cs.skip((j + 1) as int));
    }
}

/// An expression that stands in a text, with nothing behind it that goes
/// on, is read there.
pub proof fn lemma_read_expr(e: ExprView, s: Seq<char>, i: int)
    requires
        writable(e),
        occurs(s, i, format(e)),
        delimits(s, i + format(e).len()),
        closes(s, i + format(e).len()),
    ensures
        expr_at(s, i) == Some((e, i + format(e).len())),
    decreases e, rank_expr(e),
{
    let end = i + format(e).len();
    lemma_format_starts(e);
    lemma_skip_bounds(s, end);
    match e {
        ExprView::Sequence(cs) => {
            let first = cs[0];
            assert(writable(first));
            lemma_format_starts(first);
            let head = member(first);
            let rest = and_more(cs, 1);
            lemma_occurs_parts(s, i, head, rest);
            let e1 = i + head.len();
            let blank = seq![' '];
            let next = cs[1];
            assert(writable(next));
            lemma_format_starts(next);
            assert(rest == blank + member(next) + and_more(cs, 2));
            assert(s[e1 + 0] == rest[0]);
            assert(s[e1 + 1] == rest[1]);
            assert(rest[1] == member(next)[0]);
            lemma_skip_to(s, e1, e1 + 1);
            lemma_read_atom(first, s, i);
            lemma_read_and_more(cs, 1, s, e1);
            assert(cs.skip(1).len() > 0);
            assert(seq![first] + cs.skip(1) =~= cs);
            assert(sequence_at(s, i) == Some((e, end)));
            assert(alternatives_from(s, end) == (Seq::<ExprView>::empty(), end));
        },
        ExprView::Alternative(cs) => {
            let first = cs[0];
            assert(writable(first));
            lemma_format_starts(first);
            let head = member(first);
            let rest = or_more(cs, 1);
            lemma_occurs_parts(s, i, head, rest);
            let e1 = i + head.len();
            let bar = seq![' ', '|', ' '];
            assert(rest == bar + member(cs[1]) + or_more(cs, 2));
            assert(s[e1 + 0] == rest[0]);
            assert(s[e1 + 1] == rest[1]);
            lemma_skip_to(s, e1, e1 + 1);
            lemma_read_member(first, s, i);
            lemma_read_or_more(cs, 1, s, e1);
            assert(cs.skip(1).len() > 0);
            assert(seq![first] + cs.skip(1) =~= cs);
        },
        _ => {
            lemma_read_member(e, s, i);
            assert(alternatives_from(s, end) == (Seq::<ExprView>::empty(), end));
        },
    }
}

/// Writing an expression down and reading what was written gives the
/// expression back.
pub proof fn lemma_round_trip(e: ExprView)
    requires
        writable(e),
    ensures
        expr_at(format(e), 0) == Some((e, format(e).len() as int)),
{
    let s = format(e);
    assert(occurs(s, 0, s));
    lemma_read_expr(e, s, 0);
}

/// Whether `e` is a sequence or an alternative.
fn is_a_list(e: &Expr) -> (r: bool)
    ensures
        r == is_list(e@),
{
    match e {
        Expr::Sequence(_) => true,
        Expr::Alternative(_) => true,
        _ => false,
    }
}

/// Whether `e` is a repetition.
fn is_many1(e: &Expr) -> (r: bool)
    ensures
        r == (e@ is Many1),
{
    match e {
        Expr::Many1(_) => true,
        _ => false,
    }
}

/// Appends `e`, as a member of a sequence or of an alternative, to `out`.
fn write_member(e: &Expr, out: &mut String)
    ensures
        final(out)@ == old(out)@ + member(e@),
    decreases e, 2nat,
{
    if is_a_list(e) {
        push_char(out, '(');
        write_expr(e, out);
        push_char(out, ')');
        assert(out@ =~= old(out)@ + (seq!['('] + format(e@) + seq![')']));
    } else {
        write_expr(e, out);
    }
}

/// Appends the members `children[j..]`, each behind a blank, to `out`.
fn write_and_more(children: &Vec<Rc<Expr>>, j: usize, out: &mut String)
    requires
        j <= children@.len(),
    ensures
        final(out)@ == old(out)@ + and_more(views_of(children@), j as nat),
    decreases children, children@.len() - j,
{
    let ghost cs = views_of(children@);
    if j >= children.len() {
        assert(out@ =~= old(out)@ + and_more(cs, j as nat));
    } else {
        push_char(out, ' ');
        write_member(&children[j], out);
        write_and_more(children, j + 1, out);
        assert(out@ =~= old(out)@ + (seq![' '] + member(cs[j as int]) + and_more(cs, (j + 1) as nat)));
    }
}

/// Appends the members `children[j..]`, each behind a `|`, to `out`.
fn write_or_more(children: &Vec<Rc<Expr>>, j: usize, out: &mut String)
    requires
        j <= children@.len(),
    ensures
        final(out)@ == old(out)@ + or_more(views_of(children@), j as nat),
    decreases children, children@.len() - j,
{
    let ghost cs = views_of(children@);
    if j >= children.len() {
        assert(out@ =~= old(out)@ + or_more(cs, j as nat));
    } else {
        out.append(" | ");
        proof {
            reveal_strlit(" | ");
            assert(" | "@ =~= seq![' ', '|', ' ']);
        }
        write_member(&children[j], out);
        write_or_more(children, j + 1, out);
        assert(out@ =~= old(out)@ + (seq![' ', '|', ' '] + member(cs[j as int]) + or_more(
            cs,
            (j + 1) as nat,
        )));
    }
}

/// Appends `e`, as a text of the grammar, to `out`.
fn write_expr(e: &Expr, out: &mut String)
    ensures
        final(out)@ == old(out)@ + format(e@),
    decreases e, 1nat,
{
    match e {
        Expr::Literal(t) => {
            out.append(t.as_str());
        },
        Expr::Described(t, d) => {
            out.append(t.as_str());
            push_char(out, ' ');
            push_char(out, '"');
            out.append(d.as_str());
            push_char(out, '"');
            assert(out@ =~= old(out)@ + (t@ + seq![' ', '"'] + d@ + seq!['"']));
        },
        Expr::Variable(n) => {
            push_char(out, '<');
            out.append(n.as_str());
            push_char(out, '>');
            assert(out@ =~= old(out)@ + (seq!['<'] + n@ + seq!['>']));
        },
        Expr::Command(c) => {
            push_char(out, '{');
            out.append(c.as_str());
            push_char(out, '}');
            assert(out@ =~= old(out)@ + (seq!['{'] + c@ + seq!['}']));
        },
        Expr::Optional(c) => {
            push_char(out, '[');
            write_expr(c, out);
            push_char(out, ']');
            assert(out@ =~= old(out)@ + (seq!['['] + format(c@) + seq![']']));
        },
        Expr::Many1(c) => {
            if is_a_list(c) || is_many1(c) {
                push_char(out, '(');
                write_expr(c, out);
                push_char(out, ')');
                push_char(out, '.');
                push_char(out, '.');
                push_char(out, '.');
                assert(out@ =~= old(out)@ + (seq!['('] + format(c@) + seq![')'] + seq!['.', '.', '.']));
            } else {
                write_expr(c, out);
                push_char(out, '.');
                push_char(out, '.');
                push_char(out, '.');
                assert(out@ =~= old(out)@ + (format(c@) + seq!['.', '.', '.']));
            }
        },
        Expr::Sequence(children) => {
            proof {
                lemma_view_sequence(*children);
            }
            if children.len() == 0 {
                assert(out@ =~= old(out)@ + format(e@));
            } else {
                write_member(&children[0], out);
                write_and_more(children, 1, out);
                assert(out@ =~= old(out)@ + (member(views_of(children@)[0]) + and_more(views_of(children@), 1)));
            }
        },
        Expr::Alternative(children) => {
            proof {
                lemma_view_alternative(*children);
            }
            if children.len() == 0 {
                assert(out@ =~= old(out)@ + format(e@));
            } else {
                write_member(&children[0], out);
                write_or_more(children, 1, out);
                assert(out@ =~= old(out)@ + (member(views_of(children@)[0]) + or_more(views_of(children@), 1)));
            }
        },
    }
}

/// `e` as a text of the grammar.
pub fn format_expr(e: &Expr) -> (r: String)
    ensures
        r@ == format(e@),
{
    let mut out = String::new();
    write_expr(e, &mut out);
    assert(out@ =~= format(e@));
    out
}

} // verus!
