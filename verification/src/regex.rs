//! The labels of transitions, and regular expressions whose leaves are
//! numbered, with their position sets.

use crate::grammar::ExprView;
use crate::Position;
use vstd::prelude::*;

pub use crate::augment::AugmentedRegex;

verus! {

/// What stands behind a transition that any word can take.
#[derive(Debug, Clone, PartialEq, Eq)]
pub enum MatchAnythingInput {
    /// A shell command; its output lists the words to offer.
    Command(String),
    /// A nonterminal without a definition. `PATH` and `DIRECTORY` are known
    /// to the shell; any other name offers nothing.
    Nonterminal(String),
}

/// The mathematical value of a [`MatchAnythingInput`].
pub enum MatchAnythingView {
    Command(Seq<char>),
    Nonterminal(Seq<char>),
}

impl View for MatchAnythingInput {
    type V = MatchAnythingView;

    open spec fn view(&self) -> MatchAnythingView {
        match self {
            MatchAnythingInput::Command(c) => MatchAnythingView::Command(c@),
            MatchAnythingInput::Nonterminal(n) => MatchAnythingView::Nonterminal(n@),
        }
    }
}

/// The label of a transition.
#[derive(Debug, Clone, PartialEq, Eq)]
pub enum Input {
    /// Taken by the word that equals the token; the description, if any, is
    /// for the user.
    Literal(String, Option<String>),
    /// Taken by any word.
    Any(MatchAnythingInput),
}

/// The mathematical value of an [`Input`].
pub enum InputView {
    Literal(Seq<char>, Option<Seq<char>>),
    Any(MatchAnythingView),
}

/// The mathematical value of an optional string.
pub open spec fn optional_text(d: Option<String>) -> Option<Seq<char>> {
    match d {
        Some(s) => Some(s@),
        None => None,
    }
}

impl View for Input {
    type V = InputView;

    open spec fn view(&self) -> InputView {
        match self {
            Input::Literal(t, d) => InputView::Literal(t@, optional_text(*d)),
            Input::Any(m) => InputView::Any(m@),
        }
    }
}

/// The values of a list of inputs.
pub open spec fn input_views(v: Seq<Input>) -> Seq<InputView> {
    Seq::new(v.len(), |i: int| v[i]@)
}

/// Whether two inputs are the same label: literals with the same token,
/// whatever their descriptions, or the same thing that matches any word.
pub open spec fn same_label(a: InputView, b: InputView) -> bool {
    match (a, b) {
        (InputView::Literal(x, _), InputView::Literal(y, _)) => x == y,
        (InputView::Any(p), InputView::Any(q)) => p == q,
        _ => false,
    }
}

/// Whether a transition with the label `a` is taken by `word`.
pub open spec fn takes(a: InputView, word: Seq<char>) -> bool {
    match a {
        InputView::Literal(t, _) => t == word,
        InputView::Any(_) => true,
    }
}

impl MatchAnythingInput {
    /// A copy.
    pub fn duplicate(&self) -> (r: MatchAnythingInput)
        ensures
            r@ == self@,
    {
        match self {
            MatchAnythingInput::Command(c) => MatchAnythingInput::Command(c.clone()),
            MatchAnythingInput::Nonterminal(n) => MatchAnythingInput::Nonterminal(n.clone()),
        }
    }

    /// Whether the two are the same.
    pub fn same_as(&self, other: &MatchAnythingInput) -> (r: bool)
        ensures
            r == (self@ == other@),
    {
        match (self, other) {
            (MatchAnythingInput::Command(a), MatchAnythingInput::Command(b)) => *a == *b,
            (MatchAnythingInput::Nonterminal(a), MatchAnythingInput::Nonterminal(b)) => *a == *b,
            _ => false,
        }
    }
}

impl Input {
    /// Whether any word takes a transition with this label.
    pub fn matches_anything(&self) -> (r: bool)
        ensures
            r == (self@ is Any),
    {
        match self {
            Input::Literal(_, _) => false,
            Input::Any(_) => true,
        }
    }

    /// Whether the two are the same label.
    pub fn same_label(&self, other: &Input) -> (r: bool)
        ensures
            r == same_label(self@, other@),
    {
        match (self, other) {
            (Input::Literal(a, _), Input::Literal(b, _)) => *a == *b,
            (Input::Any(a), Input::Any(b)) => a.same_as(b),
            _ => false,
        }
    }

    /// A copy.
    pub fn duplicate(&self) -> (r: Input)
        ensures
            r@ == self@,
    {
        match self {
            Input::Literal(t, d) => {
                let description = match d {
                    Some(s) => Some(s.clone()),
                    None => None,
                };
                Input::Literal(t.clone(), description)
            },
            Input::Any(m) => Input::Any(m.duplicate()),
        }
    }
}

/// A regular expression whose leaves are numbered.
#[derive(Debug, PartialEq, Eq)]
pub enum Regex {
    Leaf(Position),
    Sequence(Vec<Regex>),
    Alternative(Vec<Regex>),
    Optional(Box<Regex>),
    Many1(Box<Regex>),
}

/// The mathematical value of a [`Regex`].
pub enum RegexView {
    Leaf(int),
    Sequence(Seq<RegexView>),
    Alternative(Seq<RegexView>),
    Optional(Box<RegexView>),
    Many1(Box<RegexView>),
}

/// The mathematical value of a numbered regular expression.
pub open spec fn regex_view(r: Regex) -> RegexView
    decreases r,
{
    match r {
        Regex::Leaf(p) => RegexView::Leaf(p as int),
        Regex::Sequence(v) => RegexView::Sequence(
            Seq::new(v@.len(), |i: int| if 0 <= i < v@.len() { regex_view(v@[i]) } else { arbitrary() }),
        ),
        Regex::Alternative(v) => RegexView::Alternative(
            Seq::new(v@.len(), |i: int| if 0 <= i < v@.len() { regex_view(v@[i]) } else { arbitrary() }),
        ),
        Regex::Optional(c) => RegexView::Optional(Box::new(regex_view(*c))),
        Regex::Many1(c) => RegexView::Many1(Box::new(regex_view(*c))),
    }
}

impl View for Regex {
    type V = RegexView;

    open spec fn view(&self) -> RegexView {
        regex_view(*self)
    }
}

/// The values of a list of numbered regular expressions.
pub open spec fn regex_views(v: Seq<Regex>) -> Seq<RegexView> {
    Seq::new(v.len(), |i: int| v[i]@)
}

/// The inputs of the leaves of `e`, from left to right.
pub open spec fn leaves(e: ExprView) -> Seq<InputView>
    decreases e, 0nat,
{
    match e {
        ExprView::Literal(t) => seq![InputView::Literal(t, None)],
        ExprView::Described(t, d) => seq![InputView::Literal(t, Some(d))],
        ExprView::Variable(n) => seq![InputView::Any(MatchAnythingView::Nonterminal(n))],
        ExprView::Command(c) => seq![InputView::Any(MatchAnythingView::Command(c))],
        ExprView::Sequence(cs) => leaves_of(cs, cs.len()),
        ExprView::Alternative(cs) => leaves_of(cs, cs.len()),
        ExprView::Optional(c) => leaves(*c),
        ExprView::Many1(c) => leaves(*c),
    }
}

/// The inputs of the leaves of the first `n` of `cs`, from left to right.
pub open spec fn leaves_of(cs: Seq<ExprView>, n: nat) -> Seq<InputView>
    decreases cs, n,
{
    if n == 0 || n > cs.len() {
        Seq::empty()
    } else {
        leaves_of(cs, (n - 1) as nat) + leaves(cs[n - 1])
    }
}

/// `e` as a regular expression whose leaves are numbered from left to
/// right, the first of them `first`.
pub open spec fn numbered(e: ExprView, first: int) -> RegexView
    decreases e,
{
    match e {
        ExprView::Sequence(cs) => RegexView::Sequence(
            Seq::new(
                cs.len(),
                |i: int|
                    if 0 <= i < cs.len() {
                        numbered(cs[i], first + leaves_of(cs, i as nat).len())
                    } else {
                        arbitrary()
                    },
            ),
        ),
        ExprView::Alternative(cs) => RegexView::Alternative(
            Seq::new(
                cs.len(),
                |i: int|
                    if 0 <= i < cs.len() {
                        numbered(cs[i], first + leaves_of(cs, i as nat).len())
                    } else {
                        arbitrary()
                    },
            ),
        ),
        ExprView::Optional(c) => RegexView::Optional(Box::new(numbered(*c, first))),
        ExprView::Many1(c) => RegexView::Many1(Box::new(numbered(*c, first))),
        _ => RegexView::Leaf(first),
    }
}

/// Whether every leaf of `r` has a number from `low` up to, not including,
/// `high`.
pub open spec fn positions_within(r: RegexView, low: int, high: int) -> bool
    decreases r,
{
    match r {
        RegexView::Leaf(p) => low <= p < high,
        RegexView::Sequence(cs) => forall|i: int|
            0 <= i < cs.len() ==> positions_within(#[trigger] cs[i], low, high),
        RegexView::Alternative(cs) => forall|i: int|
            0 <= i < cs.len() ==> positions_within(#[trigger] cs[i], low, high),
        RegexView::Optional(c) => positions_within(*c, low, high),
        RegexView::Many1(c) => positions_within(*c, low, high),
    }
}

/// Whether `r` matches the empty line.
pub open spec fn nullable(r: RegexView) -> bool
    decreases r,
{
    match r {
        RegexView::Leaf(_) => false,
        RegexView::Sequence(cs) => forall|i: int| 0 <= i < cs.len() ==> nullable(#[trigger] cs[i]),
        RegexView::Alternative(cs) => exists|i: int| 0 <= i < cs.len() && nullable(#[trigger] cs[i]),
        RegexView::Optional(_) => true,
        RegexView::Many1(c) => nullable(*c),
    }
}

/// The positions that can match the first word of a line that `r` matches.
pub open spec fn firstpos(r: RegexView) -> Set<int>
    decreases r, 0nat,
{
    match r {
        RegexView::Leaf(p) => set![p],
        RegexView::Sequence(cs) => first_from(cs, 0),
        RegexView::Alternative(cs) => first_among(cs, cs.len()),
        RegexView::Optional(c) => firstpos(*c),
        RegexView::Many1(c) => firstpos(*c),
    }
}

/// The positions that can match the first word of a line that the
/// expressions `cs[j..]`, one after the other, match.
pub open spec fn first_from(cs: Seq<RegexView>, j: nat) -> Set<int>
    decreases cs, cs.len() - j,
{
    if j >= cs.len() {
        Set::empty()
    } else if nullable(cs[j as int]) {
        firstpos(cs[j as int]).union(first_from(cs, j + 1))
    } else {
        firstpos(cs[j as int])
    }
}

/// The first positions of the first `n` of `cs`, taken together.
pub open spec fn first_among(cs: Seq<RegexView>, n: nat) -> Set<int>
    decreases cs, n,
{
    if n == 0 || n > cs.len() {
        Set::empty()
    } else {
        first_among(cs, (n - 1) as nat).union(firstpos(cs[n - 1]))
    }
}

/// The positions that can match the last word of a line that `r` matches.
pub open spec fn lastpos(r: RegexView) -> Set<int>
    decreases r, 0nat,
{
    match r {
        RegexView::Leaf(p) => set![p],
        RegexView::Sequence(cs) => last_upto(cs, cs.len()),
        RegexView::Alternative(cs) => last_among(cs, cs.len()),
        RegexView::Optional(c) => lastpos(*c),
        RegexView::Many1(c) => lastpos(*c),
    }
}

/// The positions that can match the last word of a line that the
/// expressions `cs[..n]`, one after the other, match.
pub open spec fn last_upto(cs: Seq<RegexView>, n: nat) -> Set<int>
    decreases cs, n,
{
    if n == 0 || n > cs.len() {
        Set::empty()
    } else if nullable(cs[n - 1]) {
        lastpos(cs[n - 1]).union(last_upto(cs, (n - 1) as nat))
    } else {
        lastpos(cs[n - 1])
    }
}

/// The last positions of the first `n` of `cs`, taken together.
pub open spec fn last_among(cs: Seq<RegexView>, n: nat) -> Set<int>
    decreases cs, n,
{
    if n == 0 || n > cs.len() {
        Set::empty()
    } else {
        last_among(cs, (n - 1) as nat).union(lastpos(cs[n - 1]))
    }
}

/// The positions that can match the word after the one that `p` matched, in
/// a line that `r` matches.
pub open spec fn followpos(r: RegexView, p: int) -> Set<int>
    decreases r, 0nat,
{
    match r {
        RegexView::Leaf(_) => Set::empty(),
        RegexView::Sequence(cs) => follow_in_sequence(cs, cs.len(), p),
        RegexView::Alternative(cs) => follow_among(cs, cs.len(), p),
        RegexView::Optional(c) => followpos(*c, p),
        RegexView::Many1(c) => if lastpos(*c).contains(p) {
            followpos(*c, p).union(firstpos(*c))
        } else {
            followpos(*c, p)
        },
    }
}

/// What follows `p` inside the first `n` of the expressions `cs`, which
/// stand one after the other, and between them: after a last position of one
/// comes a first position of what stands behind it.
pub open spec fn follow_in_sequence(cs: Seq<RegexView>, n: nat, p: int) -> Set<int>
    decreases cs, n,
{
    if n == 0 || n > cs.len() {
        Set::empty()
    } else if lastpos(cs[n - 1]).contains(p) {
        follow_in_sequence(cs, (n - 1) as nat, p).union(followpos(cs[n - 1], p)).union(first_from(cs, n))
    } else {
        follow_in_sequence(cs, (n - 1) as nat, p).union(followpos(cs[n - 1], p))
    }
}

/// What follows `p` inside the first `n` of `cs`, taken together.
pub open spec fn follow_among(cs: Seq<RegexView>, n: nat, p: int) -> Set<int>
    decreases cs, n,
{
    if n == 0 || n > cs.len() {
        Set::empty()
    } else {
        follow_among(cs, (n - 1) as nat, p).union(followpos(cs[n - 1], p))
    }
}

} // verus!
