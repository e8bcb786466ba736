//! The positions that can come first, last and next in an expression.

use crate::posset::PositionSet;
use crate::regex::{
    first_among, first_from, firstpos, follow_among, follow_in_sequence, followpos, last_among,
    last_upto, lastpos, nullable, positions_within, regex_views, Regex, RegexView,
};
use vstd::prelude::*;

verus! {

/// The value of a sequence is the sequence of its members' values, and so
/// for an alternative.
pub proof fn lemma_view_children(v: Vec<Regex>)
    ensures
        Regex::Sequence(v)@ == RegexView::Sequence(regex_views(v@)),
        Regex::Alternative(v)@ == RegexView::Alternative(regex_views(v@)),
{
    assert(Regex::Sequence(v)@->Sequence_0 =~= regex_views(v@));
    assert(Regex::Alternative(v)@->Alternative_0 =~= regex_views(v@));
}

/// A sequence matches the empty line where all its members do, an
/// alternative where one of them does.
pub proof fn lemma_nullable_children(cs: Seq<RegexView>)
    ensures
        nullable(RegexView::Sequence(cs)) <==> forall|i: int|
            0 <= i < cs.len() ==> nullable(#[trigger] cs[i]),
        nullable(RegexView::Alternative(cs)) <==> exists|i: int|
            0 <= i < cs.len() && nullable(#[trigger] cs[i]),
{
    let s = RegexView::Sequence(cs);
    let a = RegexView::Alternative(cs);
    assert(s->Sequence_0 == cs);
    assert(a->Alternative_0 == cs);
    if forall|i: int| 0 <= i < cs.len() ==> nullable(#[trigger] cs[i]) {
        assert forall|i: int| 0 <= i < s->Sequence_0.len() implies nullable(
            #[trigger] s->Sequence_0[i],
        ) by {
            assert(nullable(cs[i]));
        }
    }
    if nullable(s) {
        assert forall|i: int| 0 <= i < cs.len() implies nullable(#[trigger] cs[i]) by {
            assert(nullable(s->Sequence_0[i]));
        }
    }
    if exists|i: int| 0 <= i < cs.len() && nullable(#[trigger] cs[i]) {
        let i = choose|i: int| 0 <= i < cs.len() && nullable(#[trigger] cs[i]);
        assert(nullable(a->Alternative_0[i]));
    }
    if nullable(a) {
        let i = choose|i: int|
            0 <= i < a->Alternative_0.len() && nullable(#[trigger] a->Alternative_0[i]);
        assert(nullable(cs[i]));
    }
}

/// The leaves of a sequence or an alternative are within bounds where those
/// of its members are.
pub proof fn lemma_within_children(cs: Seq<RegexView>, low: int, high: int)
    ensures
        positions_within(RegexView::Sequence(cs), low, high) <==> forall|i: int|
            0 <= i < cs.len() ==> positions_within(#[trigger] cs[i], low, high),
        positions_within(RegexView::Alternative(cs), low, high) <==> forall|i: int|
            0 <= i < cs.len() ==> positions_within(#[trigger] cs[i], low, high),
{
    let s = RegexView::Sequence(cs);
    let a = RegexView::Alternative(cs);
    assert(s->Sequence_0 == cs);
    assert(a->Alternative_0 == cs);
    if forall|i: int| 0 <= i < cs.len() ==> positions_within(#[trigger] cs[i], low, high) {
        assert forall|i: int| 0 <= i < s->Sequence_0.len() implies positions_within(
            #[trigger] s->Sequence_0[i],
            low,
            high,
        ) by {
            assert(positions_within(cs[i], low, high));
        }
        assert forall|i: int| 0 <= i < a->Alternative_0.len() implies positions_within(
            #[trigger] a->Alternative_0[i],
            low,
            high,
        ) by {
            assert(positions_within(cs[i], low, high));
        }
    }
    if positions_within(s, low, high) {
        assert forall|i: int| 0 <= i < cs.len() implies positions_within(#[trigger] cs[i], low, high) by {
            assert(positions_within(s->Sequence_0[i], low, high));
        }
    }
    if positions_within(a, low, high) {
        assert forall|i: int| 0 <= i < cs.len() implies positions_within(#[trigger] cs[i], low, high) by {
            assert(positions_within(a->Alternative_0[i], low, high));
        }
    }
}

/// Where the leaves of a sequence or an alternative are below `bound`, those
/// of its members are.
pub proof fn lemma_all_within(v: Vec<Regex>, bound: int)
    ensures
        positions_within(Regex::Sequence(v)@, 0, bound) ==> all_within(v@, bound),
        positions_within(Regex::Alternative(v)@, 0, bound) ==> all_within(v@, bound),
{
    lemma_view_children(v);
    lemma_within_children(regex_views(v@), 0, bound);
    if positions_within(Regex::Sequence(v)@, 0, bound) || positions_within(
        Regex::Alternative(v)@,
        0,
        bound,
    ) {
        assert forall|i: int| 0 <= i < v@.len() implies positions_within((#[trigger] v@[i])@, 0, bound) by {
            assert(positions_within(regex_views(v@)[i], 0, bound));
        }
    }
}

/// Whether all of `children` have their leaves below `bound`.
pub open spec fn all_within(children: Seq<Regex>, bound: int) -> bool {
    forall|i: int| 0 <= i < children.len() ==> positions_within((#[trigger] children[i])@, 0, bound)
}

/// What holds of a table of sets, one for each position below `bound`.
pub open spec fn is_table(table: Seq<PositionSet>, bound: int) -> bool {
    table.len() == bound && forall|p: int| 0 <= p < bound ==> (#[trigger] table[p]).bound() == bound
}

/// The positions that can match the first word of a line that
/// `children[j..]`, one after the other, match.
fn first_behind(children: &Vec<Regex>, j: usize, bound: usize) -> (r: PositionSet)
    requires
        all_within(children@, bound as int),
        j <= children@.len(),
    ensures
        r@ == first_from(regex_views(children@), j as nat),
        r.bound() == bound,
    decreases children, 0nat,
{
    let ghost cs = regex_views(children@);
    let mut acc = PositionSet::empty(bound);
    let mut k: usize = j;
    while k < children.len()
        invariant
            j <= k <= children@.len(),
            cs == regex_views(children@),
            all_within(children@, bound as int),
            acc.bound() == bound,
            first_from(cs, j as nat) == acc@.union(first_from(cs, k as nat)),
        ensures
            first_from(cs, j as nat) == acc@,
            acc.bound() == bound,
        decreases children@.len() - k,
    {
        let f = children[k].firstpos(bound);
        acc.union_with(&f);
        if !children[k].nullable() {
            assert(first_from(cs, j as nat) =~= acc@);
            break ;
        }
        assert(first_from(cs, j as nat) =~= acc@.union(first_from(cs, (k + 1) as nat)));
        k += 1;
    }
    assert(first_from(cs, j as nat) =~= acc@);
    acc
}

/// The positions that can match the last word of a line that `children`,
/// one after the other, match.
fn last_of_all(children: &Vec<Regex>, bound: usize) -> (r: PositionSet)
    requires
        all_within(children@, bound as int),
    ensures
        r@ == last_upto(regex_views(children@), children@.len()),
        r.bound() == bound,
    decreases children, 0nat,
{
    let ghost cs = regex_views(children@);
    let mut acc = PositionSet::empty(bound);
    let mut k: usize = children.len();
    while k > 0
        invariant
            k <= children@.len(),
            cs == regex_views(children@),
            all_within(children@, bound as int),
            acc.bound() == bound,
            last_upto(cs, cs.len()) == acc@.union(last_upto(cs, k as nat)),
        ensures
            last_upto(cs, cs.len()) == acc@,
            acc.bound() == bound,
        decreases k,
    {
        let l = children[k - 1].lastpos(bound);
        acc.union_with(&l);
        if !children[k - 1].nullable() {
            assert(last_upto(cs, cs.len()) =~= acc@);
            break ;
        }
        assert(last_upto(cs, cs.len()) =~= acc@.union(last_upto(cs, (k - 1) as nat)));
        k -= 1;
    }
    assert(last_upto(cs, cs.len()) =~= acc@);
    acc
}

/// Puts the positions of `extra` into the set of each position of `members`.
fn add_to_each(table: &mut Vec<PositionSet>, members: &PositionSet, extra: &PositionSet, bound: usize)
    requires
        is_table(old(table)@, bound as int),
        members.bound() == bound,
        extra.bound() == bound,
    ensures
        is_table(final(table)@, bound as int),
        forall|p: int|
            0 <= p < bound ==> (#[trigger] final(table)@[p])@ == if members@.contains(p) {
                old(table)@[p]@.union(extra@)
            } else {
                old(table)@[p]@
            },
{
    let mut p: usize = 0;
    while p < bound
        invariant
            p <= bound,
            is_table(table@, bound as int),
            members.bound() == bound,
            extra.bound() == bound,
            forall|q: int|
                0 <= q < p ==> (#[trigger] table@[q])@ == if members@.contains(q) {
                    old(table)@[q]@.union(extra@)
                } else {
                    old(table)@[q]@
                },
            forall|q: int| p <= q < bound ==> #[trigger] table@[q] == old(table)@[q],
        decreases bound - p,
    {
        if members.contains(p) {
            let mut s = table[p].duplicate();
            s.union_with(extra);
            table.set(p, s);
        }
        p += 1;
    }
}

/// Whether all of `children` match the empty line.
fn all_nullable(children: &Vec<Regex>) -> (r: bool)
    ensures
        r == nullable(RegexView::Sequence(regex_views(children@))),
    decreases children, 0nat,
{
    let mut i: usize = 0;
    while i < children.len()
        invariant
            i <= children@.len(),
            forall|k: int| 0 <= k < i ==> nullable(#[trigger] regex_views(children@)[k]),
        decreases children@.len() - i,
    {
        if !children[i].nullable() {
            proof {
                lemma_nullable_children(regex_views(children@));
                assert(!nullable(regex_views(children@)[i as int]));
            }
            return false;
        }
        i += 1;
    }
    proof {
        lemma_nullable_children(regex_views(children@));
    }
    true
}

/// Whether one of `children` matches the empty line.
fn any_nullable(children: &Vec<Regex>) -> (r: bool)
    ensures
        r == nullable(RegexView::Alternative(regex_views(children@))),
    decreases children, 0nat,
{
    let mut i: usize = 0;
    while i < children.len()
        invariant
            i <= children@.len(),
            forall|k: int| 0 <= k < i ==> !nullable(#[trigger] regex_views(children@)[k]),
        decreases children@.len() - i,
    {
        if children[i].nullable() {
            proof {
                lemma_nullable_children(regex_views(children@));
                assert(nullable(regex_views(children@)[i as int]));
            }
            return true;
        }
        i += 1;
    }
    proof {
        lemma_nullable_children(regex_views(children@));
    }
    false
}

/// The first positions of `children`, taken together.
fn first_of_any(children: &Vec<Regex>, bound: usize) -> (r: PositionSet)
    requires
        all_within(children@, bound as int),
    ensures
        r@ == first_among(regex_views(children@), children@.len()),
        r.bound() == bound,
    decreases children, 0nat,
{
    let ghost cs = regex_views(children@);
    let mut acc = PositionSet::empty(bound);
    let mut i: usize = 0;
    while i < children.len()
        invariant
            i <= children@.len(),
            cs == regex_views(children@),
            all_within(children@, bound as int),
            acc.bound() == bound,
            acc@ == first_among(cs, i as nat),
        decreases children@.len() - i,
    {
        let f = children[i].firstpos(bound);
        acc.union_with(&f);
        i += 1;
    }
    acc
}

/// The last positions of `children`, taken together.
fn last_of_any(children: &Vec<Regex>, bound: usize) -> (r: PositionSet)
    requires
        all_within(children@, bound as int),
    ensures
        r@ == last_among(regex_views(children@), children@.len()),
        r.bound() == bound,
    decreases children, 0nat,
{
    let ghost cs = regex_views(children@);
    let mut acc = PositionSet::empty(bound);
    let mut i: usize = 0;
    while i < children.len()
        invariant
            i <= children@.len(),
            cs == regex_views(children@),
            all_within(children@, bound as int),
            acc.bound() == bound,
            acc@ == last_among(cs, i as nat),
        decreases children@.len() - i,
    {
        let l = children[i].lastpos(bound);
        acc.union_with(&l);
        i += 1;
    }
    acc
}

/// Puts, for each position, what follows it in the sequence `children` into
/// its set in `table`.
fn add_follow_in_sequence(children: &Vec<Regex>, bound: usize, table: &mut Vec<PositionSet>)
    requires
        all_within(children@, bound as int),
        is_table(old(table)@, bound as int),
    ensures
        is_table(final(table)@, bound as int),
        forall|p: int|
            0 <= p < bound ==> (#[trigger] final(table)@[p])@ == old(table)@[p]@.union(
                follow_in_sequence(regex_views(children@), children@.len(), p),
            ),
    decreases children, 0nat,
{
    let ghost cs = regex_views(children@);
    let mut i: usize = 0;
    assert forall|p: int| 0 <= p < bound implies (#[trigger] table@[p])@ == old(table)@[p]@.union(
        follow_in_sequence(cs, 0, p),
    ) by {
        assert(table@[p]@ =~= table@[p]@.union(Set::<int>::empty()));
    }
    while i < children.len()
        invariant
            i <= children@.len(),
            cs == regex_views(children@),
            all_within(children@, bound as int),
            is_table(table@, bound as int),
            is_table(old(table)@, bound as int),
            forall|p: int|
                0 <= p < bound ==> (#[trigger] table@[p])@ == old(table)@[p]@.union(
                    follow_in_sequence(cs, i as nat, p),
                ),
        decreases children@.len() - i,
    {
        let ghost before = table@;
        children[i].add_followpos(bound, table);
        let ghost between = table@;
        let last = children[i].lastpos(bound);
        let first = first_behind(children, i + 1, bound);
        add_to_each(table, &last, &first, bound);
        proof {
            assert forall|p: int| 0 <= p < bound implies (#[trigger] table@[p])@ == old(table)@[p]@.union(
                follow_in_sequence(cs, (i + 1) as nat, p),
            ) by {
                assert(between[p]@ == before[p]@.union(followpos(cs[i as int], p)));
                assert(before[p]@ == old(table)@[p]@.union(follow_in_sequence(cs, i as nat, p)));
                assert(table@[p]@ =~= old(table)@[p]@.union(follow_in_sequence(cs, (i + 1) as nat, p)));
            }
        }
        i += 1;
    }
}

/// Puts, for each position, what follows it in one of `children` into its
/// set in `table`.
fn add_follow_among(children: &Vec<Regex>, bound: usize, table: &mut Vec<PositionSet>)
    requires
        all_within(children@, bound as int),
        is_table(old(table)@, bound as int),
    ensures
        is_table(final(table)@, bound as int),
        forall|p: int|
            0 <= p < bound ==> (#[trigger] final(table)@[p])@ == old(table)@[p]@.union(
                follow_among(regex_views(children@), children@.len(), p),
            ),
    decreases children, 0nat,
{
    let ghost cs = regex_views(children@);
    let mut i: usize = 0;
    assert forall|p: int| 0 <= p < bound implies (#[trigger] table@[p])@ == old(table)@[p]@.union(
        follow_among(cs, 0, p),
    ) by {
        assert(table@[p]@ =~= table@[p]@.union(Set::<int>::empty()));
    }
    while i < children.len()
        invariant
            i <= children@.len(),
            cs == regex_views(children@),
            all_within(children@, bound as int),
            is_table(table@, bound as int),
            is_table(old(table)@, bound as int),
            forall|p: int|
                0 <= p < bound ==> (#[trigger] table@[p])@ == old(table)@[p]@.union(
                    follow_among(cs, i as nat, p),
                ),
        decreases children@.len() - i,
    {
        let ghost before = table@;
        children[i].add_followpos(bound, table);
        proof {
            assert forall|p: int| 0 <= p < bound implies (#[trigger] table@[p])@ == old(table)@[p]@.union(
                follow_among(cs, (i + 1) as nat, p),
            ) by {
                assert(table@[p]@ == before[p]@.union(followpos(cs[i as int], p)));
                assert(before[p]@ == old(table)@[p]@.union(follow_among(cs, i as nat, p)));
                assert(table@[p]@ =~= old(table)@[p]@.union(follow_among(cs, (i + 1) as nat, p)));
            }
        }
        i += 1;
    }
}

impl Regex {
    /// Whether the expression matches the empty line.
    pub fn nullable(&self) -> (r: bool)
        ensures
            r == nullable(self@),
        decreases self, 1nat,
    {
        match self {
            Regex::Leaf(_) => false,
            Regex::Sequence(children) => {
                proof {
                    lemma_view_children(*children);
                }
                all_nullable(children)
            },
            Regex::Alternative(children) => {
                proof {
                    lemma_view_children(*children);
                }
                any_nullable(children)
            },
            Regex::Optional(_) => true,
            Regex::Many1(child) => child.nullable(),
        }
    }

    /// The positions that can match the first word of a line that the
    /// expression matches.
    pub fn firstpos(&self, bound: usize) -> (r: PositionSet)
        requires
            positions_within(self@, 0, bound as int),
        ensures
            r@ == firstpos(self@),
            r.bound() == bound,
        decreases self, 1nat,
    {
        match self {
            Regex::Leaf(p) => {
                let mut s = PositionSet::empty(bound);
                s.insert(*p);
                assert(s@ =~= set![*p as int]);
                s
            },
            Regex::Sequence(children) => {
                proof {
                    lemma_view_children(*children);
                    lemma_all_within(*children, bound as int);
                }
                first_behind(children, 0, bound)
            },
            Regex::Alternative(children) => {
                proof {
                    lemma_view_children(*children);
                    lemma_all_within(*children, bound as int);
                }
                first_of_any(children, bound)
            },
            Regex::Optional(child) => child.firstpos(bound),
            Regex::Many1(child) => child.firstpos(bound),
        }
    }

    /// The positions that can match the last word of a line that the
    /// expression matches.
    pub fn lastpos(&self, bound: usize) -> (r: PositionSet)
        requires
            positions_within(self@, 0, bound as int),
        ensures
            r@ == lastpos(self@),
            r.bound() == bound,
        decreases self, 1nat,
    {
        match self {
            Regex::Leaf(p) => {
                let mut s = PositionSet::empty(bound);
                s.insert(*p);
                assert(s@ =~= set![*p as int]);
                s
            },
            Regex::Sequence(children) => {
                proof {
                    lemma_view_children(*children);
                    lemma_all_within(*children, bound as int);
                }
                last_of_all(children, bound)
            },
            Regex::Alternative(children) => {
                proof {
                    lemma_view_children(*children);
                    lemma_all_within(*children, bound as int);
                }
                last_of_any(children, bound)
            },
            Regex::Optional(child) => child.lastpos(bound),
            Regex::Many1(child) => child.lastpos(bound),
        }
    }

    /// Puts, for each position, what follows it in the expression into its
    /// set in `table`.
    pub fn add_followpos(&self, bound: usize, table: &mut Vec<PositionSet>)
        requires
            positions_within(self@, 0, bound as int),
            is_table(old(table)@, bound as int),
        ensures
            is_table(final(table)@, bound as int),
            forall|p: int|
                0 <= p < bound ==> (#[trigger] final(table)@[p])@ == old(table)@[p]@.union(
                    followpos(self@, p),
                ),
        decreases self, 1nat,
    {
        match self {
            Regex::Leaf(_) => {
                assert forall|p: int| 0 <= p < bound implies (#[trigger] table@[p])@ == old(table)@[p]@.union(
                    followpos(self@, p),
                ) by {
                    assert(table@[p]@ =~= table@[p]@.union(Set::<int>::empty()));
                }
            },
            Regex::Sequence(children) => {
                proof {
                    lemma_view_children(*children);
                    lemma_all_within(*children, bound as int);
                }
                add_follow_in_sequence(children, bound, table);
            },
            Regex::Alternative(children) => {
                proof {
                    lemma_view_children(*children);
                    lemma_all_within(*children, bound as int);
                }
                add_follow_among(children, bound, table);
            },
            Regex::Optional(child) => {
                child.add_followpos(bound, table);
            },
            Regex::Many1(child) => {
                child.add_followpos(bound, table);
                let ghost between = table@;
                let last = child.lastpos(bound);
                let first = child.firstpos(bound);
                add_to_each(table, &last, &first, bound);
                proof {
                    assert forall|p: int| 0 <= p < bound implies (#[trigger] table@[p])@ == old(table)@[p]@.union(
                        followpos(self@, p),
                    ) by {
                        assert(between[p]@ == old(table)@[p]@.union(followpos(child@, p)));
                        assert(table@[p]@ =~= old(table)@[p]@.union(followpos(self@, p)));
                    }
                }
            },
        }
    }

    /// For each position below `bound`, what follows it in the expression.
    pub fn followpos(&self, bound: usize) -> (table: Vec<PositionSet>)
        requires
            positions_within(self@, 0, bound as int),
        ensures
            is_table(table@, bound as int),
            forall|p: int| 0 <= p < bound ==> (#[trigger] table@[p])@ == followpos(self@, p),
    {
        let mut table: Vec<PositionSet> = Vec::new();
        let mut p: usize = 0;
        while p < bound
            invariant
                p <= bound,
                table@.len() == p,
                forall|q: int|
                    0 <= q < p ==> (#[trigger] table@[q]).bound() == bound && table@[q]@ == Set::<int>::empty(),
            decreases bound - p,
        {
            table.push(PositionSet::empty(bound));
            p += 1;
        }
        let ghost empty = table@;
        self.add_followpos(bound, &mut table);
        proof {
            assert forall|p: int| 0 <= p < bound implies (#[trigger] table@[p])@ == followpos(self@, p) by {
                assert(table@[p]@ == empty[p]@.union(followpos(self@, p)));
                assert(table@[p]@ =~= followpos(self@, p));
            }
        }
        table
    }
}

} // verus!
