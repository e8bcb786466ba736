//! The leaves that a matched line goes through, and that they are the
//! paths from first positions along following positions to last positions.

use crate::regex::{
    first_among, first_from, firstpos, follow_among, follow_in_sequence, followpos, last_among,
    last_upto, lastpos, nullable, RegexView,
};
use crate::follow::lemma_nullable_children;
use vstd::prelude::*;

verus! {

/// The number of leaves of `r`.
pub open spec fn size(r: RegexView) -> nat
    decreases r, 0nat,
{
    match r {
        RegexView::Leaf(_) => 1,
        RegexView::Sequence(cs) => sizes(cs, cs.len()),
        RegexView::Alternative(cs) => sizes(cs, cs.len()),
        RegexView::Optional(c) => size(*c),
        RegexView::Many1(c) => size(*c),
    }
}

/// The number of leaves of the first `n` of `cs`.
pub open spec fn sizes(cs: Seq<RegexView>, n: nat) -> nat
    decreases cs, n,
{
    if n == 0 || n > cs.len() {
        0
    } else {
        sizes(cs, (n - 1) as nat) + size(cs[n - 1])
    }
}

/// Whether the leaves of `r` are numbered from left to right, from `lo` on.
pub open spec fn laid(r: RegexView, lo: int) -> bool
    decreases r,
{
    match r {
        RegexView::Leaf(p) => p == lo,
        RegexView::Sequence(cs) => forall|j: int|
            0 <= j < cs.len() ==> laid(#[trigger] cs[j], lo + sizes(cs, j as nat)),
        RegexView::Alternative(cs) => forall|j: int|
            0 <= j < cs.len() ==> laid(#[trigger] cs[j], lo + sizes(cs, j as nat)),
        RegexView::Optional(c) => laid(*c, lo),
        RegexView::Many1(c) => laid(*c, lo),
    }
}

/// Whether the positions `ps` are the leaves that a line which `r` matches
/// goes through, in their order.
pub open spec fn trace(r: RegexView, ps: Seq<int>) -> bool
    decreases r, 0nat,
{
    match r {
        RegexView::Leaf(p) => ps.len() == 1 && ps[0] == p,
        RegexView::Sequence(cs) => sequence_trace(cs, 0, ps),
        RegexView::Alternative(cs) => exists|i: int| 0 <= i < cs.len() && trace(#[trigger] cs[i], ps),
        RegexView::Optional(c) => ps.len() == 0 || trace(*c, ps),
        RegexView::Many1(c) => repeated_trace(*c, ps),
    }
}

/// Whether `ps` is made of the leaves that lines which `cs[j..]` match, one
/// after the other, go through.
pub open spec fn sequence_trace(cs: Seq<RegexView>, j: nat, ps: Seq<int>) -> bool
    decreases cs, cs.len() - j + 1,
{
    if j >= cs.len() {
        ps.len() == 0
    } else {
        exists|k: int|
            0 <= k <= ps.len() && trace(cs[j as int], #[trigger] ps.take(k)) && sequence_trace(
                cs,
                j + 1,
                ps.skip(k),
            )
    }
}

/// Whether `ps` is made of the leaves that one line or more which `c`
/// matches go through.
pub open spec fn repeated_trace(c: RegexView, ps: Seq<int>) -> bool
    decreases c, ps.len() + 1,
{
    trace(c, ps) || exists|k: int|
        0 < k < ps.len() && trace(c, #[trigger] ps.take(k)) && repeated_trace(c, ps.skip(k))
}

/// Whether the positions `ps` begin with a first position of `r`, end with a
/// last position and go from each position to one that follows it; for no
/// positions, whether `r` matches the empty line.
pub open spec fn local(r: RegexView, ps: Seq<int>) -> bool {
    if ps.len() == 0 {
        nullable(r)
    } else {
        &&& firstpos(r).contains(ps[0])
        &&& lastpos(r).contains(ps.last())
        &&& forall|i: int| 0 <= i < ps.len() - 1 ==> followpos(r, #[trigger] ps[i]).contains(ps[i + 1])
    }
}

/// The leaves of the first `n` members are among those of more members.
pub proof fn lemma_sizes_grow(cs: Seq<RegexView>, n: nat, m: nat)
    requires
        n <= m <= cs.len(),
    ensures
        sizes(cs, n) <= sizes(cs, m),
        n < m ==> sizes(cs, n) + size(cs[n as int]) <= sizes(cs, m),
    decreases m,
{
    if n < m {
        lemma_sizes_grow(cs, n, (m - 1) as nat);
        if n < m - 1 {
        }
    }
}

/// The first, the last and the following positions of an expression are
/// leaves of the expression, and nothing follows what is no leaf of it.
pub proof fn lemma_positions_inside(r: RegexView, lo: int, p: int, q: int)
    requires
        laid(r, lo),
    ensures
        firstpos(r).contains(q) ==> lo <= q < lo + size(r),
        lastpos(r).contains(q) ==> lo <= q < lo + size(r),
        followpos(r, p).contains(q) ==> lo <= q < lo + size(r) && lo <= p < lo + size(r),
    decreases r, 1nat,
{
    match r {
        RegexView::Leaf(_) => {},
        RegexView::Sequence(cs) => {
            if firstpos(r).contains(q) {
                lemma_first_from_inside(cs, lo, 0, q);
            }
            if lastpos(r).contains(q) {
                lemma_last_upto_inside(cs, lo, cs.len(), q);
            }
            if followpos(r, p).contains(q) {
                lemma_follow_in_sequence_inside(cs, lo, cs.len(), p, q);
            }
        },
        RegexView::Alternative(cs) => {
            lemma_among_inside(cs, lo, cs.len(), p, q);
        },
        RegexView::Optional(c) => {
            lemma_positions_inside(*c, lo, p, q);
        },
        RegexView::Many1(c) => {
            lemma_positions_inside(*c, lo, p, q);
            lemma_positions_inside(*c, lo, q, p);
        },
    }
}

/// The first positions of the members from the `j`th on are leaves of those
/// members.
pub proof fn lemma_first_from_inside(cs: Seq<RegexView>, lo: int, j: nat, q: int)
    requires
        forall|k: int| 0 <= k < cs.len() ==> laid(#[trigger] cs[k], lo + sizes(cs, k as nat)),
        j <= cs.len(),
        first_from(cs, j).contains(q),
    ensures
        lo + sizes(cs, j) <= q < lo + sizes(cs, cs.len()),
    decreases cs, 0nat, cs.len() - j,
{
    if j < cs.len() {
        let c = cs[j as int];
        lemma_sizes_grow(cs, j, cs.len());
        if firstpos(c).contains(q) {
            lemma_positions_inside(c, lo + sizes(cs, j), q, q);
        } else {
            lemma_first_from_inside(cs, lo, j + 1, q);
            lemma_sizes_grow(cs, j, j + 1);
        }
    }
}

/// The last positions of the first `n` members are leaves of those members.
pub proof fn lemma_last_upto_inside(cs: Seq<RegexView>, lo: int, n: nat, q: int)
    requires
        forall|k: int| 0 <= k < cs.len() ==> laid(#[trigger] cs[k], lo + sizes(cs, k as nat)),
        n <= cs.len(),
        last_upto(cs, n).contains(q),
    ensures
        lo <= q < lo + sizes(cs, n),
    decreases cs, 0nat, n,
{
    if n > 0 {
        let c = cs[n - 1];
        if lastpos(c).contains(q) {
            lemma_positions_inside(c, lo + sizes(cs, (n - 1) as nat), q, q);
        } else {
            lemma_last_upto_inside(cs, lo, (n - 1) as nat, q);
        }
    }
}

/// What follows a position inside the first `n` members of a sequence, and
/// between them, is a leaf of the sequence, as is the position; the
/// position is a leaf of the first `n` members.
pub proof fn lemma_follow_in_sequence_inside(cs: Seq<RegexView>, lo: int, n: nat, p: int, q: int)
    requires
        forall|k: int| 0 <= k < cs.len() ==> laid(#[trigger] cs[k], lo + sizes(cs, k as nat)),
        n <= cs.len(),
        follow_in_sequence(cs, n, p).contains(q),
    ensures
        lo <= q < lo + sizes(cs, cs.len()),
        lo <= p < lo + sizes(cs, n),
    decreases cs, 1nat, n,
{
    if n > 0 {
        let c = cs[n - 1];
        let at = lo + sizes(cs, (n - 1) as nat);
        lemma_sizes_grow(cs, (n - 1) as nat, cs.len());
        if follow_in_sequence(cs, (n - 1) as nat, p).contains(q) {
            lemma_follow_in_sequence_inside(cs, lo, (n - 1) as nat, p, q);
        } else if followpos(c, p).contains(q) {
            lemma_positions_inside(c, at, p, q);
        } else {
            lemma_positions_inside(c, at, p, p);
            lemma_first_from_inside(cs, lo, n, q);
        }
    }
}

/// The first, last and following positions of the first `n` members of an
/// alternative are leaves of those members.
pub proof fn lemma_among_inside(cs: Seq<RegexView>, lo: int, n: nat, p: int, q: int)
    requires
        forall|k: int| 0 <= k < cs.len() ==> laid(#[trigger] cs[k], lo + sizes(cs, k as nat)),
        n <= cs.len(),
    ensures
        first_among(cs, n).contains(q) ==> lo <= q < lo + sizes(cs, n),
        last_among(cs, n).contains(q) ==> lo <= q < lo + sizes(cs, n),
        follow_among(cs, n, p).contains(q) ==> lo <= q < lo + sizes(cs, n) && lo <= p < lo + sizes(cs, n),
    decreases cs, 0nat, n,
{
    if n > 0 {
        let c = cs[n - 1];
        lemma_among_inside(cs, lo, (n - 1) as nat, p, q);
        lemma_positions_inside(c, lo + sizes(cs, (n - 1) as nat), p, q);
    }
}

/// Whether all of `cs[j..]` match the empty line.
pub open spec fn nullable_from(cs: Seq<RegexView>, j: nat) -> bool {
    forall|i: int| j <= i < cs.len() ==> nullable(#[trigger] cs[i])
}

/// An expression matches the empty line where a line without words goes
/// through no leaves of it.
pub proof fn lemma_trace_empty(r: RegexView)
    ensures
        trace(r, Seq::empty()) <==> nullable(r),
    decreases r, 1nat,
{
    let none = Seq::<int>::empty();
    match r {
        RegexView::Leaf(_) => {
            assert(!trace(r, none));
        },
        RegexView::Sequence(cs) => {
            lemma_sequence_trace_empty(cs, 0);
            lemma_nullable_children(cs);
            assert(nullable_from(cs, 0) <==> nullable(r)) by {
                if nullable(r) {
                    assert forall|i: int| 0 <= i < cs.len() implies nullable(#[trigger] cs[i]) by {}
                }
                if nullable_from(cs, 0) {
                    assert forall|i: int| 0 <= i < cs.len() implies nullable(#[trigger] cs[i]) by {}
                }
            }
            assert(trace(r, none) <==> nullable(r));
        },
        RegexView::Alternative(cs) => {
            lemma_nullable_children(cs);
            if trace(r, none) {
                let i = choose|i: int| 0 <= i < cs.len() && trace(#[trigger] cs[i], none);
                lemma_trace_empty(cs[i]);
                assert(nullable(cs[i]));
            }
            if nullable(r) {
                let i = choose|i: int| 0 <= i < cs.len() && nullable(#[trigger] cs[i]);
                lemma_trace_empty(cs[i]);
                assert(trace(cs[i], none));
            }
            assert(trace(r, none) <==> nullable(r));
        },
        RegexView::Optional(_) => {
            assert(trace(r, none));
        },
        RegexView::Many1(c) => {
            lemma_trace_empty(*c);
            assert(repeated_trace(*c, none) <==> trace(*c, none));
            assert(trace(r, none) <==> nullable(r));
        },
    }
}

/// The members from the `j`th on all match the empty line where a line
/// without words goes through no leaves of them.
pub proof fn lemma_sequence_trace_empty(cs: Seq<RegexView>, j: nat)
    requires
        j <= cs.len(),
    ensures
        sequence_trace(cs, j, Seq::empty()) <==> nullable_from(cs, j),
    decreases cs, 0nat, cs.len() - j,
{
    let none = Seq::<int>::empty();
    if j < cs.len() {
        lemma_trace_empty(cs[j as int]);
        lemma_sequence_trace_empty(cs, j + 1);
        assert(none.take(0) =~= none);
        assert(none.skip(0) =~= none);
        if sequence_trace(cs, j, none) {
            let k = choose|k: int|
                0 <= k <= none.len() && trace(cs[j as int], #[trigger] none.take(k)) && sequence_trace(
                    cs,
                    j + 1,
                    none.skip(k),
                );
            assert(k == 0);
            assert forall|i: int| j <= i < cs.len() implies nullable(#[trigger] cs[i]) by {
                if i > j {
                    assert(nullable_from(cs, j + 1));
                }
            }
        }
        if nullable_from(cs, j) {
            assert(nullable(cs[j as int]));
            assert(nullable_from(cs, j + 1));
            assert(trace(cs[j as int], none.take(0)) && sequence_trace(cs, j + 1, none.skip(0)));
        }
    }
}

/// What a member of an alternative has as first, last and following
/// positions, the alternative has.
pub proof fn lemma_among_member(cs: Seq<RegexView>, n: nat, i: int, p: int, q: int)
    requires
        0 <= i < n <= cs.len(),
    ensures
        firstpos(cs[i]).contains(q) ==> first_among(cs, n).contains(q),
        lastpos(cs[i]).contains(q) ==> last_among(cs, n).contains(q),
        followpos(cs[i], p).contains(q) ==> follow_among(cs, n, p).contains(q),
    decreases n,
{
    if i < n - 1 {
        lemma_among_member(cs, (n - 1) as nat, i, p, q);
    }
}

/// What follows a position in a member of a sequence follows it in the
/// sequence, and so does what comes first behind the member, where the
/// position is a last one of the member.
pub proof fn lemma_follow_in_sequence_member(cs: Seq<RegexView>, n: nat, i: int, p: int, q: int)
    requires
        0 <= i < n <= cs.len(),
    ensures
        followpos(cs[i], p).contains(q) ==> follow_in_sequence(cs, n, p).contains(q),
        lastpos(cs[i]).contains(p) && first_from(cs, (i + 1) as nat).contains(q) ==> follow_in_sequence(
            cs,
            n,
            p,
        ).contains(q),
    decreases n,
{
    if i < n - 1 {
        lemma_follow_in_sequence_member(cs, (n - 1) as nat, i, p, q);
    }
}

/// A first position of a member is a first position of the members from
/// the `j`th on, where the members between match the empty line.
pub proof fn lemma_first_from_member(cs: Seq<RegexView>, j: nat, i: int, q: int)
    requires
        j <= i < cs.len(),
        forall|k: int| j <= k < i ==> nullable(#[trigger] cs[k]),
        firstpos(cs[i]).contains(q),
    ensures
        first_from(cs, j).contains(q),
    decreases i - j,
{
    if j < i {
        assert(nullable(cs[j as int]));
        lemma_first_from_member(cs, j + 1, i, q);
    }
}

/// A last position of a member is a last position of the first `n` members,
/// where the members behind it match the empty line.
pub proof fn lemma_last_upto_member(cs: Seq<RegexView>, n: nat, i: int, q: int)
    requires
        0 <= i < n <= cs.len(),
        forall|k: int| i < k < n ==> nullable(#[trigger] cs[k]),
        lastpos(cs[i]).contains(q),
    ensures
        last_upto(cs, n).contains(q),
    decreases n,
{
    if i < n - 1 {
        assert(nullable(cs[n - 1]));
        lemma_last_upto_member(cs, (n - 1) as nat, i, q);
    }
}

/// Whether the positions `ps` begin with a first position of the members
/// `cs[j..]`, end with a last position of the sequence `cs` and go from
/// each position to one that follows it in the sequence; for no positions,
/// whether all of `cs[j..]` match the empty line.
pub open spec fn local_from(cs: Seq<RegexView>, j: nat, ps: Seq<int>) -> bool {
    if ps.len() == 0 {
        nullable_from(cs, j)
    } else {
        &&& first_from(cs, j).contains(ps[0])
        &&& last_upto(cs, cs.len()).contains(ps.last())
        &&& forall|i: int|
            0 <= i < ps.len() - 1 ==> follow_in_sequence(cs, cs.len(), #[trigger] ps[i]).contains(ps[i + 1])
    }
}

/// The leaves that a line goes through begin with a first position, end
/// with a last position and go from each to one that follows it.
pub proof fn lemma_trace_local(r: RegexView, ps: Seq<int>)
    requires
        trace(r, ps),
    ensures
        local(r, ps),
    decreases r, 2nat, 0nat,
{
    if ps.len() == 0 {
        assert(ps =~= Seq::<int>::empty());
        lemma_trace_empty(r);
    } else {
        match r {
            RegexView::Leaf(p) => {},
            RegexView::Sequence(cs) => {
                lemma_sequence_trace_local(cs, 0, ps);
            },
            RegexView::Alternative(cs) => {
                let i = choose|i: int| 0 <= i < cs.len() && trace(#[trigger] cs[i], ps);
                lemma_trace_local(cs[i], ps);
                lemma_among_member(cs, cs.len(), i, 0, ps[0]);
                lemma_among_member(cs, cs.len(), i, 0, ps.last());
                assert forall|t: int| 0 <= t < ps.len() - 1 implies followpos(r, #[trigger] ps[t]).contains(
                    ps[t + 1],
                ) by {
                    lemma_among_member(cs, cs.len(), i, ps[t], ps[t + 1]);
                }
            },
            RegexView::Optional(c) => {
                lemma_trace_local(*c, ps);
            },
            RegexView::Many1(c) => {
                lemma_repeated_trace_local(*c, ps);
            },
        }
    }
}

/// As [`lemma_trace_local`], for one line or more that `c` matches.
pub proof fn lemma_repeated_trace_local(c: RegexView, ps: Seq<int>)
    requires
        repeated_trace(c, ps),
        ps.len() > 0,
    ensures
        local(RegexView::Many1(Box::new(c)), ps),
    decreases c, 3nat, ps.len(),
{
    let r = RegexView::Many1(Box::new(c));
    if trace(c, ps) {
        lemma_trace_local(c, ps);
    } else {
        let k = choose|k: int|
            0 < k < ps.len() && trace(c, #[trigger] ps.take(k)) && repeated_trace(c, ps.skip(k));
        let head = ps.take(k);
        let tail = ps.skip(k);
        lemma_trace_local(c, head);
        lemma_repeated_trace_local(c, tail);
        assert(head[0] == ps[0]);
        assert(tail.last() == ps.last());
        assert forall|t: int| 0 <= t < ps.len() - 1 implies followpos(r, #[trigger] ps[t]).contains(
            ps[t + 1],
        ) by {
            if t < k - 1 {
                assert(head[t] == ps[t] && head[t + 1] == ps[t + 1]);
                assert(followpos(c, head[t]).contains(head[t + 1]));
            } else if t == k - 1 {
                assert(head.last() == ps[t]);
                assert(tail[0] == ps[t + 1]);
            } else {
                assert(tail[t - k] == ps[t] && tail[t - k + 1] == ps[t + 1]);
                assert(followpos(r, tail[t - k]).contains(tail[t - k + 1]));
            }
        }
    }
}

/// As [`lemma_trace_local`], for the members of a sequence from the `j`th
/// on.
pub proof fn lemma_sequence_trace_local(cs: Seq<RegexView>, j: nat, ps: Seq<int>)
    requires
        j <= cs.len(),
        sequence_trace(cs, j, ps),
    ensures
        local_from(cs, j, ps),
    decreases cs, 0nat, cs.len() - j,
{
    if ps.len() == 0 {
        assert(ps =~= Seq::<int>::empty());
        lemma_sequence_trace_empty(cs, j);
    } else {
        let n = cs.len();
        let k = choose|k: int|
            0 <= k <= ps.len() && trace(cs[j as int], #[trigger] ps.take(k)) && sequence_trace(
                cs,
                j + 1,
                ps.skip(k),
            );
        let c = cs[j as int];
        let head = ps.take(k);
        let tail = ps.skip(k);
        lemma_trace_local(c, head);
        lemma_sequence_trace_local(cs, j + 1, tail);
        if k == 0 {
            assert(tail =~= ps);
        } else {
            assert(head[0] == ps[0]);
            lemma_first_from_member(cs, j, j as int, ps[0]);
            if k == ps.len() {
                assert(head =~= ps);
                assert(nullable_from(cs, j + 1));
                lemma_last_upto_member(cs, n, j as int, ps.last());
            } else {
                assert(tail.last() == ps.last());
            }
            assert forall|t: int| 0 <= t < ps.len() - 1 implies follow_in_sequence(cs, n, #[trigger] ps[t]).contains(
                ps[t + 1],
            ) by {
                if t < k - 1 {
                    assert(head[t] == ps[t] && head[t + 1] == ps[t + 1]);
                    assert(followpos(c, head[t]).contains(head[t + 1]));
                    lemma_follow_in_sequence_member(cs, n, j as int, ps[t], ps[t + 1]);
                } else if t == k - 1 {
                    assert(head.last() == ps[t]);
                    assert(tail[0] == ps[t + 1]);
                    lemma_follow_in_sequence_member(cs, n, j as int, ps[t], ps[t + 1]);
                } else {
                    assert(tail[t - k] == ps[t] && tail[t - k + 1] == ps[t + 1]);
                    assert(follow_in_sequence(cs, n, tail[t - k]).contains(tail[t - k + 1]));
                }
            }
        }
    }
}

/// Whether `cs` are laid out one after the other from `lo` on.
pub open spec fn laid_in_row(cs: Seq<RegexView>, lo: int) -> bool {
    forall|k: int| 0 <= k < cs.len() ==> laid(#[trigger] cs[k], lo + sizes(cs, k as nat))
}

/// Whether `q` is a leaf of the `i`th of `cs`.
pub open spec fn in_member(cs: Seq<RegexView>, lo: int, i: int, q: int) -> bool {
    lo + sizes(cs, i as nat) <= q < lo + sizes(cs, i as nat) + size(cs[i])
}

/// A leaf is a leaf of one member only.
pub proof fn lemma_one_member(cs: Seq<RegexView>, lo: int, i: int, j: int, q: int)
    requires
        0 <= i < cs.len(),
        0 <= j < cs.len(),
        in_member(cs, lo, i, q),
        in_member(cs, lo, j, q),
    ensures
        i == j,
{
    if i < j {
        lemma_sizes_grow(cs, i as nat, j as nat);
    } else if j < i {
        lemma_sizes_grow(cs, j as nat, i as nat);
    }
}

/// A first position of the members from the `j`th on is a first position of
/// one of them, before which the others match the empty line.
pub proof fn lemma_first_from_cases(cs: Seq<RegexView>, j: nat, q: int) -> (i: int)
    requires
        j <= cs.len(),
        first_from(cs, j).contains(q),
    ensures
        j <= i < cs.len(),
        firstpos(cs[i]).contains(q),
        forall|k: int| j <= k < i ==> nullable(#[trigger] cs[k]),
    decreases cs.len() - j,
{
    if firstpos(cs[j as int]).contains(q) {
        j as int
    } else {
        lemma_first_from_cases(cs, j + 1, q)
    }
}

/// A last position of the first `n` members is a last position of one of
/// them, behind which the others match the empty line.
pub proof fn lemma_last_upto_cases(cs: Seq<RegexView>, n: nat, q: int) -> (i: int)
    requires
        n <= cs.len(),
        last_upto(cs, n).contains(q),
    ensures
        0 <= i < n,
        lastpos(cs[i]).contains(q),
        forall|k: int| i < k < n ==> nullable(#[trigger] cs[k]),
    decreases n,
{
    if lastpos(cs[n - 1]).contains(q) {
        n - 1
    } else {
        lemma_last_upto_cases(cs, (n - 1) as nat, q)
    }
}

/// What follows a position in a sequence follows it in a member, or comes
/// first behind a member of which the position is a last one.
pub proof fn lemma_follow_in_sequence_cases(cs: Seq<RegexView>, n: nat, p: int, q: int) -> (i: int)
    requires
        n <= cs.len(),
        follow_in_sequence(cs, n, p).contains(q),
    ensures
        0 <= i < n,
        followpos(cs[i], p).contains(q) || (lastpos(cs[i]).contains(p) && first_from(cs, (i + 1) as nat).contains(
            q,
        )),
    decreases n,
{
    if follow_in_sequence(cs, (n - 1) as nat, p).contains(q) {
        lemma_follow_in_sequence_cases(cs, (n - 1) as nat, p, q)
    } else {
        n - 1
    }
}

/// A first position of an alternative is one of a member.
pub proof fn lemma_first_among_cases(cs: Seq<RegexView>, n: nat, q: int) -> (i: int)
    requires
        n <= cs.len(),
        first_among(cs, n).contains(q),
    ensures
        0 <= i < n,
        firstpos(cs[i]).contains(q),
    decreases n,
{
    if firstpos(cs[n - 1]).contains(q) {
        n - 1
    } else {
        lemma_first_among_cases(cs, (n - 1) as nat, q)
    }
}

/// A last position of an alternative is one of a member.
pub proof fn lemma_last_among_cases(cs: Seq<RegexView>, n: nat, q: int) -> (i: int)
    requires
        n <= cs.len(),
        last_among(cs, n).contains(q),
    ensures
        0 <= i < n,
        lastpos(cs[i]).contains(q),
    decreases n,
{
    if lastpos(cs[n - 1]).contains(q) {
        n - 1
    } else {
        lemma_last_among_cases(cs, (n - 1) as nat, q)
    }
}

/// What follows a position in an alternative follows it in a member.
pub proof fn lemma_follow_among_cases(cs: Seq<RegexView>, n: nat, p: int, q: int) -> (i: int)
    requires
        n <= cs.len(),
        follow_among(cs, n, p).contains(q),
    ensures
        0 <= i < n,
        followpos(cs[i], p).contains(q),
    decreases n,
{
    if followpos(cs[n - 1], p).contains(q) {
        n - 1
    } else {
        lemma_follow_among_cases(cs, (n - 1) as nat, p, q)
    }
}

/// The leaves of a member lie where the member is laid.
pub proof fn lemma_member_inside(cs: Seq<RegexView>, lo: int, i: int, p: int, q: int)
    requires
        laid_in_row(cs, lo),
        0 <= i < cs.len(),
    ensures
        firstpos(cs[i]).contains(q) ==> in_member(cs, lo, i, q),
        lastpos(cs[i]).contains(q) ==> in_member(cs, lo, i, q),
        followpos(cs[i], p).contains(q) ==> in_member(cs, lo, i, q) && in_member(cs, lo, i, p),
{
    lemma_positions_inside(cs[i], lo + sizes(cs, i as nat), p, q);
}

/// Positions that begin with a first position of a member of an alternative
/// and go from each to one that follows it in the alternative stay in the
/// member and go from each to one that follows it in the member.
pub proof fn lemma_alternative_stays(cs: Seq<RegexView>, lo: int, i: int, ps: Seq<int>, t: int)
    requires
        laid_in_row(cs, lo),
        0 <= i < cs.len(),
        ps.len() > 0,
        firstpos(cs[i]).contains(ps[0]),
        forall|u: int| 0 <= u < ps.len() - 1 ==> follow_among(cs, cs.len(), #[trigger] ps[u]).contains(ps[u + 1]),
        0 <= t < ps.len(),
    ensures
        in_member(cs, lo, i, ps[t]),
        t < ps.len() - 1 ==> followpos(cs[i], ps[t]).contains(ps[t + 1]),
    decreases t,
{
    if t == 0 {
        lemma_member_inside(cs, lo, i, 0, ps[0]);
    } else {
        lemma_alternative_stays(cs, lo, i, ps, t - 1);
        lemma_member_inside(cs, lo, i, ps[t - 1], ps[t]);
    }
    if t < ps.len() - 1 {
        let k = lemma_follow_among_cases(cs, cs.len(), ps[t], ps[t + 1]);
        lemma_member_inside(cs, lo, k, ps[t], ps[t + 1]);
        lemma_one_member(cs, lo, i, k, ps[t]);
    }
}

/// Positions that begin with a first position, end with a last position and
/// go from each to one that follows it are the leaves that a line goes
/// through, where the leaves are numbered from left to right.
pub proof fn lemma_local_trace(r: RegexView, lo: int, ps: Seq<int>)
    requires
        laid(r, lo),
        local(r, ps),
    ensures
        trace(r, ps),
    decreases r, 2nat, 0nat, 0nat, 0nat,
{
    if ps.len() == 0 {
        assert(ps =~= Seq::<int>::empty());
        lemma_trace_empty(r);
    } else {
        match r {
            RegexView::Leaf(p) => {
                if ps.len() > 1 {
                    assert(followpos(r, ps[0]).contains(ps[1]));
                }
            },
            RegexView::Sequence(cs) => {
                lemma_nullable_children(cs);
                lemma_local_sequence_trace(cs, lo, 0, ps);
            },
            RegexView::Alternative(cs) => {
                let i = lemma_first_among_cases(cs, cs.len(), ps[0]);
                let l = lemma_last_among_cases(cs, cs.len(), ps.last());
                lemma_member_inside(cs, lo, l, 0, ps.last());
                lemma_alternative_stays(cs, lo, i, ps, ps.len() - 1);
                lemma_one_member(cs, lo, i, l, ps.last());
                assert forall|t: int| 0 <= t < ps.len() - 1 implies followpos(cs[i], #[trigger] ps[t]).contains(
                    ps[t + 1],
                ) by {
                    lemma_alternative_stays(cs, lo, i, ps, t);
                }
                lemma_local_trace(cs[i], lo + sizes(cs, i as nat), ps);
            },
            RegexView::Optional(c) => {
                lemma_local_trace(*c, lo, ps);
            },
            RegexView::Many1(c) => {
                lemma_local_repeated_trace(*c, lo, ps, 0);
            },
        }
    }
}

/// As [`lemma_local_trace`], for one line or more that `c` matches; the
/// positions up to the `i`th go from each to one that follows it in `c`.
pub proof fn lemma_local_repeated_trace(c: RegexView, lo: int, ps: Seq<int>, i: int)
    requires
        laid(c, lo),
        ps.len() > 0,
        local(RegexView::Many1(Box::new(c)), ps),
        0 <= i < ps.len(),
        forall|t: int| 0 <= t < i ==> followpos(c, #[trigger] ps[t]).contains(ps[t + 1]),
    ensures
        repeated_trace(c, ps),
    decreases c, 3nat, ps.len(), ps.len() - i, 0nat,
{
    let r = RegexView::Many1(Box::new(c));
    if i == ps.len() - 1 {
        lemma_local_trace(c, lo, ps);
    } else if followpos(c, ps[i]).contains(ps[i + 1]) {
        lemma_local_repeated_trace(c, lo, ps, i + 1);
    } else {
        let k = i + 1;
        let head = ps.take(k);
        let tail = ps.skip(k);
        assert(followpos(r, ps[i]).contains(ps[i + 1]));
        assert(lastpos(c).contains(ps[i]) && firstpos(c).contains(ps[i + 1]));
        assert(head[0] == ps[0] && head.last() == ps[i]);
        assert forall|t: int| 0 <= t < head.len() - 1 implies followpos(c, #[trigger] head[t]).contains(
            head[t + 1],
        ) by {
            assert(head[t] == ps[t] && head[t + 1] == ps[t + 1]);
            assert(followpos(c, ps[t]).contains(ps[t + 1]));
        }
        lemma_local_trace(c, lo, head);
        assert(tail[0] == ps[k] && tail.last() == ps.last());
        assert forall|t: int| 0 <= t < tail.len() - 1 implies followpos(r, #[trigger] tail[t]).contains(
            tail[t + 1],
        ) by {
            assert(tail[t] == ps[k + t] && tail[t + 1] == ps[k + t + 1]);
            assert(followpos(r, ps[k + t]).contains(ps[k + t + 1]));
        }
        lemma_local_repeated_trace(c, lo, tail, 0);
        assert(0 < k < ps.len() && trace(c, ps.take(k)) && repeated_trace(c, ps.skip(k)));
    }
}

/// Positions that begin with a first position of the members `cs[j..]`
/// begin with a first position of the `j`th member, or that member matches
/// the empty line and they begin with a first position of the members
/// behind it.
pub proof fn lemma_scan_start(cs: Seq<RegexView>, lo: int, j: nat, ps: Seq<int>)
    requires
        laid_in_row(cs, lo),
        j < cs.len(),
        ps.len() > 0,
        local_from(cs, j, ps),
    ensures
        begins_in(cs, lo, j, ps, 1) || (nullable(cs[j as int]) && local_from(cs, j + 1, ps)),
{
    let i = lemma_first_from_cases(cs, j, ps[0]);
    if i > j {
        assert(nullable(cs[j as int]));
        lemma_first_from_member(cs, j + 1, i, ps[0]);
    } else {
        lemma_member_inside(cs, lo, j as int, 0, ps[0]);
    }
}

/// As [`lemma_local_trace`], for the members of a sequence from the `j`th
/// on.
pub proof fn lemma_local_sequence_trace(cs: Seq<RegexView>, lo: int, j: nat, ps: Seq<int>)
    requires
        laid_in_row(cs, lo),
        j <= cs.len(),
        local_from(cs, j, ps),
    ensures
        sequence_trace(cs, j, ps),
    decreases cs, 1nat, cs.len() - j, 1nat, 0nat,
{
    if ps.len() == 0 {
        assert(ps =~= Seq::<int>::empty());
        lemma_sequence_trace_empty(cs, j);
    } else {
        assert(j < cs.len());
        lemma_scan_start(cs, lo, j, ps);
        if begins_in(cs, lo, j, ps, 1) {
            lemma_local_sequence_scan(cs, lo, j, ps, 1);
        } else {
            lemma_trace_empty(cs[j as int]);
            lemma_local_sequence_trace(cs, lo, j + 1, ps);
            assert(ps.take(0) =~= Seq::<int>::empty());
            assert(ps.skip(0) =~= ps);
            assert(trace(cs[j as int], ps.take(0)) && sequence_trace(cs, j + 1, ps.skip(0)));
        }
    }
}

/// Whether the first `m` of the positions `ps` are leaves of the `j`th
/// member, begin with a first position of it and go from each to one that
/// follows it in that member.
pub open spec fn begins_in(cs: Seq<RegexView>, lo: int, j: nat, ps: Seq<int>, m: int) -> bool {
    &&& 1 <= m <= ps.len()
    &&& firstpos(cs[j as int]).contains(ps[0])
    &&& forall|t: int| 0 <= t < m ==> in_member(cs, lo, j as int, #[trigger] ps[t])
    &&& forall|t: int| 0 <= t < m - 1 ==> followpos(cs[j as int], #[trigger] ps[t]).contains(ps[t + 1])
}

/// Positions that are all leaves of the `j`th member are positions that
/// begin with a first position of it, end with a last position of it and go
/// from each to one that follows it; the members behind it match the empty
/// line.
pub proof fn lemma_scan_end(cs: Seq<RegexView>, lo: int, j: nat, ps: Seq<int>)
    requires
        laid_in_row(cs, lo),
        j < cs.len(),
        local_from(cs, j, ps),
        begins_in(cs, lo, j, ps, ps.len() as int),
    ensures
        local(cs[j as int], ps),
        nullable_from(cs, j + 1),
{
    let n = cs.len();
    let l = lemma_last_upto_cases(cs, n, ps.last());
    lemma_member_inside(cs, lo, l, 0, ps.last());
    assert(in_member(cs, lo, j as int, ps[ps.len() - 1]));
    lemma_one_member(cs, lo, j as int, l, ps.last());
}

/// Where the step behind the first `m` positions leaves the `j`th member,
/// those positions are positions of that member as in [`lemma_scan_end`],
/// and the others begin with a first position of the members behind it.
pub proof fn lemma_scan_split(cs: Seq<RegexView>, lo: int, j: nat, ps: Seq<int>, m: int)
    requires
        laid_in_row(cs, lo),
        j < cs.len(),
        local_from(cs, j, ps),
        begins_in(cs, lo, j, ps, m),
        m < ps.len(),
        !followpos(cs[j as int], ps[m - 1]).contains(ps[m]),
    ensures
        local(cs[j as int], ps.take(m)),
        local_from(cs, j + 1, ps.skip(m)),
{
    let n = cs.len();
    let c = cs[j as int];
    let p = ps[m - 1];
    let q = ps[m];
    assert(follow_in_sequence(cs, n, p).contains(q));
    let i = lemma_follow_in_sequence_cases(cs, n, p, q);
    lemma_member_inside(cs, lo, i, p, q);
    lemma_member_inside(cs, lo, i, 0, p);
    assert(in_member(cs, lo, j as int, ps[m - 1]));
    lemma_one_member(cs, lo, j as int, i, p);
    let head = ps.take(m);
    let tail = ps.skip(m);
    assert(head[0] == ps[0] && head.last() == p);
    assert forall|t: int| 0 <= t < head.len() - 1 implies followpos(c, #[trigger] head[t]).contains(
        head[t + 1],
    ) by {
        assert(head[t] == ps[t] && head[t + 1] == ps[t + 1]);
        assert(followpos(c, ps[t]).contains(ps[t + 1]));
    }
    assert(tail[0] == q && tail.last() == ps.last());
    assert forall|t: int| 0 <= t < tail.len() - 1 implies follow_in_sequence(cs, n, #[trigger] tail[t]).contains(
        tail[t + 1],
    ) by {
        assert(tail[t] == ps[m + t] && tail[t + 1] == ps[m + t + 1]);
        assert(follow_in_sequence(cs, n, ps[m + t]).contains(ps[m + t + 1]));
    }
}

/// Where the step behind the first `m` positions stays in the `j`th member,
/// the first `m + 1` positions are leaves of it.
pub proof fn lemma_scan_on(cs: Seq<RegexView>, lo: int, j: nat, ps: Seq<int>, m: int)
    requires
        laid_in_row(cs, lo),
        j < cs.len(),
        begins_in(cs, lo, j, ps, m),
        m < ps.len(),
        followpos(cs[j as int], ps[m - 1]).contains(ps[m]),
    ensures
        begins_in(cs, lo, j, ps, m + 1),
{
    lemma_member_inside(cs, lo, j as int, ps[m - 1], ps[m]);
    assert forall|t: int| 0 <= t < m + 1 implies in_member(cs, lo, j as int, #[trigger] ps[t]) by {
        if t < m {
        }
    }
    assert forall|t: int| 0 <= t < m implies followpos(cs[j as int], #[trigger] ps[t]).contains(ps[t + 1]) by {
        if t < m - 1 {
        }
    }
}

/// As [`lemma_local_sequence_trace`], where the first `m` positions are
/// leaves of the `j`th member and go from each to one that follows it in
/// that member.
pub proof fn lemma_local_sequence_scan(cs: Seq<RegexView>, lo: int, j: nat, ps: Seq<int>, m: int)
    requires
        laid_in_row(cs, lo),
        j < cs.len(),
        ps.len() > 0,
        local_from(cs, j, ps),
        begins_in(cs, lo, j, ps, m),
    ensures
        sequence_trace(cs, j, ps),
    decreases cs, 1nat, cs.len() - j, 0nat, ps.len() - m,
{
    let c = cs[j as int];
    let at = lo + sizes(cs, j);
    if m == ps.len() {
        lemma_scan_end(cs, lo, j, ps);
        lemma_local_trace(c, at, ps);
        lemma_sequence_trace_empty(cs, j + 1);
        assert(ps.take(m) =~= ps);
        assert(ps.skip(m) =~= Seq::<int>::empty());
        assert(trace(c, ps.take(m)) && sequence_trace(cs, j + 1, ps.skip(m)));
    } else if followpos(c, ps[m - 1]).contains(ps[m]) {
        lemma_scan_on(cs, lo, j, ps, m);
        lemma_local_sequence_scan(cs, lo, j, ps, m + 1);
    } else {
        lemma_scan_split(cs, lo, j, ps, m);
        lemma_local_trace(c, at, ps.take(m));
        lemma_local_sequence_trace(cs, lo, j + 1, ps.skip(m));
        assert(trace(c, ps.take(m)) && sequence_trace(cs, j + 1, ps.skip(m)));
    }
}

/// The leaves that the lines which an expression matches go through are the
/// positions that begin with a first position, end with a last position and
/// go from each to one that follows it.
pub proof fn lemma_traces_are_local(r: RegexView, lo: int, ps: Seq<int>)
    requires
        laid(r, lo),
    ensures
        trace(r, ps) <==> local(r, ps),
{
    if trace(r, ps) {
        lemma_trace_local(r, ps);
    }
    if local(r, ps) {
        lemma_local_trace(r, lo, ps);
    }
}

} // verus!
