//! Expressions with numbered leaves and an end marker: the input of the
//! automaton's construction.

use crate::follow::{is_table, lemma_view_children, lemma_within_children};
use crate::posset::PositionSet;
use crate::grammar::{views_of, Expr, ExprView};
use crate::regex::{
    firstpos, followpos, input_views, lastpos, leaves, leaves_of, nullable, numbered, positions_within,
    regex_views, Input, InputView, MatchAnythingInput, Regex, RegexView,
};
use crate::resolve::{lemma_view_alternative, lemma_view_sequence};
use crate::Position;
use std::rc::Rc;
use vstd::prelude::*;

verus! {

/// An expression with its leaves numbered from left to right and with one
/// more leaf behind it, the end marker, which stands for the end of the
/// command line.
pub struct AugmentedRegex {
    root: Regex,
    inputs: Vec<Input>,
    endmarker: Position,
}

/// The mathematical value of an [`AugmentedRegex`].
pub struct AugmentedRegexView {
    /// The expression and, behind it, the end marker.
    pub root: RegexView,
    /// The input of each leaf but the end marker, by the leaf's number.
    pub inputs: Seq<InputView>,
    /// The number of the end marker, which is the number of the other leaves.
    pub endmarker: int,
}

/// `e` with the end marker behind it.
pub open spec fn augmented(e: ExprView) -> AugmentedRegexView {
    AugmentedRegexView {
        root: RegexView::Sequence(seq![numbered(e, 0), RegexView::Leaf(leaves(e).len() as int)]),
        inputs: leaves(e),
        endmarker: leaves(e).len() as int,
    }
}

impl AugmentedRegexView {
    /// The leaves are numbered up to the end marker, and each but the end
    /// marker has its input.
    pub open spec fn well_formed(self) -> bool {
        &&& positions_within(self.root, 0, self.endmarker + 1)
        &&& self.inputs.len() == self.endmarker
    }
}

impl View for AugmentedRegex {
    type V = AugmentedRegexView;

    closed spec fn view(&self) -> AugmentedRegexView {
        AugmentedRegexView {
            root: self.root@,
            inputs: input_views(self.inputs@),
            endmarker: self.endmarker as int,
        }
    }
}

/// Leaves within bounds are within wider bounds.
pub proof fn lemma_within_wider(r: RegexView, low: int, high: int, lower: int, higher: int)
    requires
        positions_within(r, low, high),
        lower <= low,
        high <= higher,
    ensures
        positions_within(r, lower, higher),
    decreases r,
{
    match r {
        RegexView::Leaf(_) => {},
        RegexView::Sequence(cs) => {
            assert forall|i: int| 0 <= i < cs.len() implies positions_within(
                #[trigger] cs[i],
                lower,
                higher,
            ) by {
                lemma_within_wider(cs[i], low, high, lower, higher);
            }
        },
        RegexView::Alternative(cs) => {
            assert forall|i: int| 0 <= i < cs.len() implies positions_within(
                #[trigger] cs[i],
                lower,
                higher,
            ) by {
                lemma_within_wider(cs[i], low, high, lower, higher);
            }
        },
        RegexView::Optional(c) => {
            lemma_within_wider(*c, low, high, lower, higher);
        },
        RegexView::Many1(c) => {
            lemma_within_wider(*c, low, high, lower, higher);
        },
    }
}

/// The leaves of the first `n` members are among those of more members.
pub proof fn lemma_leaves_grow(cs: Seq<ExprView>, n: nat, m: nat)
    requires
        n <= m <= cs.len(),
    ensures
        leaves_of(cs, n).len() <= leaves_of(cs, m).len(),
    decreases m,
{
    if n < m {
        lemma_leaves_grow(cs, n, (m - 1) as nat);
    }
}

/// The members of `children` with their leaves numbered on from where
/// `inputs` ends; the leaves' inputs are put behind `inputs`.
fn number_all(children: &Vec<Rc<Expr>>, inputs: &mut Vec<Input>) -> (r: Vec<Regex>)
    ensures
        input_views(final(inputs)@) == input_views(old(inputs)@) + leaves_of(
            views_of(children@),
            children@.len(),
        ),
        r@.len() == children@.len(),
        forall|i: int|
            0 <= i < r@.len() ==> (#[trigger] r@[i])@ == numbered(
                views_of(children@)[i],
                (old(inputs)@.len() + leaves_of(views_of(children@), i as nat).len()) as int,
            ),
        forall|i: int|
            0 <= i < r@.len() ==> positions_within(
                (#[trigger] r@[i])@,
                old(inputs)@.len() as int,
                final(inputs)@.len() as int,
            ),
    decreases children, 0nat,
{
    let ghost cs = views_of(children@);
    let ghost start = inputs@.len();
    let mut out: Vec<Regex> = Vec::new();
    let mut i: usize = 0;
    assert(input_views(inputs@) + leaves_of(cs, 0) =~= input_views(inputs@));
    while i < children.len()
        invariant
            i <= children@.len(),
            cs == views_of(children@),
            start == old(inputs)@.len(),
            out@.len() == i,
            inputs@.len() == start + leaves_of(cs, i as nat).len(),
            input_views(inputs@) == input_views(old(inputs)@) + leaves_of(cs, i as nat),
            forall|k: int|
                0 <= k < i ==> (#[trigger] out@[k])@ == numbered(
                    cs[k],
                    (start + leaves_of(cs, k as nat).len()) as int,
                ),
            forall|k: int|
                0 <= k < i ==> positions_within((#[trigger] out@[k])@, start as int, inputs@.len() as int),
        decreases children@.len() - i,
    {
        let ghost before = inputs@;
        let ghost out_before = out@;
        let r = number(&children[i], inputs);
        proof {
            assert(input_views(inputs@) =~= input_views(old(inputs)@) + leaves_of(cs, (i + 1) as nat));
            assert(input_views(inputs@).len() == inputs@.len());
            assert(input_views(before).len() == before.len());
            lemma_within_wider(r@, before.len() as int, inputs@.len() as int, start as int, inputs@.len() as int);
            assert forall|k: int| 0 <= k < i implies positions_within(
                (#[trigger] out_before[k])@,
                start as int,
                inputs@.len() as int,
            ) by {
                lemma_within_wider(
                    out_before[k]@,
                    start as int,
                    before.len() as int,
                    start as int,
                    inputs@.len() as int,
                );
            }
        }
        out.push(r);
        i += 1;
    }
    out
}

/// `e` with its leaves numbered on from where `inputs` ends; the leaves'
/// inputs are put behind `inputs`.
fn number(e: &Expr, inputs: &mut Vec<Input>) -> (r: Regex)
    ensures
        input_views(final(inputs)@) == input_views(old(inputs)@) + leaves(e@),
        r@ == numbered(e@, old(inputs)@.len() as int),
        positions_within(r@, old(inputs)@.len() as int, final(inputs)@.len() as int),
    decreases e, 1nat,
{
    let ghost before = input_views(inputs@);
    let p = inputs.len();
    match e {
        Expr::Literal(t) => {
            inputs.push(Input::Literal(t.clone(), None));
            assert(input_views(inputs@) =~= before + leaves(e@));
            Regex::Leaf(p)
        },
        Expr::Described(t, d) => {
            inputs.push(Input::Literal(t.clone(), Some(d.clone())));
            assert(input_views(inputs@) =~= before + leaves(e@));
            Regex::Leaf(p)
        },
        Expr::Variable(n) => {
            inputs.push(Input::Any(MatchAnythingInput::Nonterminal(n.clone())));
            assert(input_views(inputs@) =~= before + leaves(e@));
            Regex::Leaf(p)
        },
        Expr::Command(c) => {
            inputs.push(Input::Any(MatchAnythingInput::Command(c.clone())));
            assert(input_views(inputs@) =~= before + leaves(e@));
            Regex::Leaf(p)
        },
        Expr::Sequence(children) => {
            let out = number_all(children, inputs);
            proof {
                lemma_view_sequence(*children);
                lemma_view_children(out);
                lemma_within_children(regex_views(out@), p as int, inputs@.len() as int);
                assert(regex_views(out@) =~= numbered(e@, p as int)->Sequence_0);
            }
            Regex::Sequence(out)
        },
        Expr::Alternative(children) => {
            let out = number_all(children, inputs);
            proof {
                lemma_view_alternative(*children);
                lemma_view_children(out);
                lemma_within_children(regex_views(out@), p as int, inputs@.len() as int);
                assert(regex_views(out@) =~= numbered(e@, p as int)->Alternative_0);
            }
            Regex::Alternative(out)
        },
        Expr::Optional(child) => Regex::Optional(Box::new(number(child, inputs))),
        Expr::Many1(child) => Regex::Many1(Box::new(number(child, inputs))),
    }
}

/// The number of leaves of the first `n` of `children`, or `None` where it
/// is too large a number.
fn leaf_count_of(children: &Vec<Rc<Expr>>) -> (r: Option<usize>)
    ensures
        r matches Some(n) ==> n == leaves_of(views_of(children@), children@.len()).len(),
        r is None ==> leaves_of(views_of(children@), children@.len()).len() > usize::MAX,
    decreases children, 0nat,
{
    let ghost cs = views_of(children@);
    let mut total: usize = 0;
    let mut i: usize = 0;
    while i < children.len()
        invariant
            i <= children@.len(),
            cs == views_of(children@),
            total == leaves_of(cs, i as nat).len(),
        decreases children@.len() - i,
    {
        proof {
            lemma_leaves_grow(cs, (i + 1) as nat, cs.len());
        }
        match leaf_count(&children[i]) {
            None => {
                return None;
            },
            Some(n) => {
                if n > usize::MAX - total {
                    return None;
                }
                total = total + n;
            },
        }
        i += 1;
    }
    Some(total)
}

/// The number of leaves of `e`, or `None` where it is too large a number.
pub fn leaf_count(e: &Expr) -> (r: Option<usize>)
    ensures
        r matches Some(n) ==> n == leaves(e@).len(),
        r is None ==> leaves(e@).len() > usize::MAX,
    decreases e, 1nat,
{
    match e {
        Expr::Sequence(children) => {
            proof {
                lemma_view_sequence(*children);
            }
            leaf_count_of(children)
        },
        Expr::Alternative(children) => {
            proof {
                lemma_view_alternative(*children);
            }
            leaf_count_of(children)
        },
        Expr::Optional(child) => leaf_count(child),
        Expr::Many1(child) => leaf_count(child),
        _ => Some(1),
    }
}

impl AugmentedRegex {
    #[verifier::type_invariant]
    spec fn inv(&self) -> bool {
        self@.well_formed() && self.endmarker < usize::MAX
    }

    /// Numbers the leaves of `expr` from left to right, from `0` on, and
    /// puts the end marker behind it.
    pub fn from_expr(expr: &Expr) -> (r: AugmentedRegex)
        requires
            leaves(expr@).len() < usize::MAX,
        ensures
            r@ == augmented(expr@),
            r@.well_formed(),
    {
        let mut inputs: Vec<Input> = Vec::new();
        let body = number(expr, &mut inputs);
        let n = inputs.len();
        proof {
            assert(input_views(inputs@) =~= leaves(expr@));
            assert(input_views(inputs@).len() == inputs@.len());
            lemma_within_wider(body@, 0, n as int, 0, n + 1);
        }
        let ghost body_view = body@;
        let mut both: Vec<Regex> = Vec::new();
        both.push(body);
        both.push(Regex::Leaf(n));
        proof {
            lemma_view_children(both);
            assert(regex_views(both@) =~= seq![body_view, RegexView::Leaf(n as int)]);
            lemma_within_children(regex_views(both@), 0, n + 1);
        }
        AugmentedRegex { root: Regex::Sequence(both), inputs, endmarker: n }
    }

    /// The expression and, behind it, the end marker.
    pub fn root(&self) -> (r: &Regex)
        ensures
            r@ == self@.root,
    {
        &self.root
    }

    /// The input of each leaf but the end marker, by the leaf's number.
    pub fn inputs(&self) -> (r: &Vec<Input>)
        ensures
            input_views(r@) == self@.inputs,
    {
        &self.inputs
    }

    /// Whether the expression with its end marker matches the empty line,
    /// which it never does.
    pub fn nullable(&self) -> (r: bool)
        ensures
            r == nullable(self@.root),
    {
        self.root.nullable()
    }

    /// The positions that can match the first word of a command line: the
    /// end marker among them where the command line may be empty.
    pub fn firstpos(&self) -> (r: PositionSet)
        ensures
            r@ == firstpos(self@.root),
            r.bound() == self@.endmarker + 1,
    {
        proof {
            use_type_invariant(self);
        }
        self.root.firstpos(self.endmarker + 1)
    }

    /// The positions that can match the last word of a command line with its
    /// end: the end marker.
    pub fn lastpos(&self) -> (r: PositionSet)
        ensures
            r@ == lastpos(self@.root),
            r.bound() == self@.endmarker + 1,
    {
        proof {
            use_type_invariant(self);
        }
        self.root.lastpos(self.endmarker + 1)
    }

    /// For each position, the end marker included, the positions that can
    /// match the word after the one that it matched.
    pub fn followpos(&self) -> (table: Vec<PositionSet>)
        ensures
            is_table(table@, self@.endmarker + 1),
            forall|p: int| 0 <= p <= self@.endmarker ==> (#[trigger] table@[p])@ == followpos(self@.root, p),
    {
        proof {
            use_type_invariant(self);
        }
        self.root.followpos(self.endmarker + 1)
    }

    /// The number of the end marker.
    pub fn endmarker(&self) -> (r: Position)
        ensures
            r == self@.endmarker,
            self@.well_formed(),
            r < usize::MAX,
    {
        proof {
            use_type_invariant(self);
        }
        self.endmarker
    }
}

} // verus!
