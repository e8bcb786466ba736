//! From an expression to the automaton that accepts what it allows.

use crate::augment::{augmented, leaf_count, AugmentedRegex};
use crate::construct::built_from;
use crate::dfa::{DfaView, DFA};
use crate::grammar::{Expr, ExprView};
use crate::meaning::{allows, lemma_automaton_meaning};
use crate::minimize::{irreducible, minimizes};
use crate::regex::leaves;
use vstd::prelude::*;

verus! {

/// Whether `d` is the automaton of the expression `e` with the states that
/// behave alike made one.
pub open spec fn compiled(d: DfaView, e: ExprView) -> bool {
    exists|full: DfaView| #[trigger]
        built_from(full, augmented(e)) && full.well_formed() && full.all_reachable() && minimizes(d, full)
}

/// The automaton that accepts the command lines which `expr` allows, with no
/// two states that behave alike. `None` where the expression has `usize::MAX`
/// leaves or more.
pub fn compile(expr: &Expr) -> (r: Option<DFA>)
    ensures
        r is None <==> leaves(expr@).len() >= usize::MAX,
        r matches Some(d) ==> compiled(d@, expr@) && d@.well_formed() && d@.all_reachable() && irreducible(d@),
        r matches Some(d) ==> forall|words: Seq<Seq<char>>| #[trigger] d@.accepts(words) <==> allows(expr@, words),
{
    match leaf_count(expr) {
        Some(n) => {
            if n == usize::MAX {
                return None;
            }
            let regex = AugmentedRegex::from_expr(expr);
            let full = DFA::from_regex(&regex);
            let small = full.minimize();
            proof {
                assert(built_from(full@, augmented(expr@)));
                assert forall|words: Seq<Seq<char>>| #[trigger] small@.accepts(words) <==> allows(expr@, words) by {
                    lemma_automaton_meaning(full@, expr@, words);
                    assert(small@.accepts(words) == full@.accepts(words));
                }
            }
            Some(small)
        },
        None => None,
    }
}

} // verus!
