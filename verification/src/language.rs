//! The command lines that an automaton accepts, as walks through the
//! expression that it was built from.

use crate::augment::AugmentedRegexView;
use crate::construct::{alphabet_of, built_from, has_label, moved, moves};
use crate::dfa::{follow, lemma_follow_push, DfaView};
use crate::regex::{firstpos, followpos, same_label, takes, InputView};
use crate::StateId;
use vstd::prelude::*;

verus! {

/// Whether the positions `ps` are a walk through the expression `a` that
/// the words `words` take: it begins at a first position, goes from each
/// position to one that follows it, and each position but the last has an
/// input that the word of its place takes. The last position is where the
/// walk stands after the words.
pub open spec fn walks(a: AugmentedRegexView, ps: Seq<int>, words: Seq<Seq<char>>) -> bool {
    &&& ps.len() == words.len() + 1
    &&& firstpos(a.root).contains(ps[0])
    &&& forall|i: int|
        0 <= i < words.len() ==> 0 <= #[trigger] ps[i] < a.endmarker && takes(a.inputs[ps[i]], words[i])
            && followpos(a.root, ps[i]).contains(ps[i + 1])
}

/// Whether the words `words` can be taken through the expression `a` up to
/// its end marker.
pub open spec fn walks_through(a: AugmentedRegexView, words: Seq<Seq<char>>) -> bool {
    exists|ps: Seq<int>| walks(a, ps, words) && #[trigger] ps.last() == a.endmarker
}

/// Whether the positions `ps` are a walk through the expression `a` under
/// the labels `labels`: as [`walks`], with each position's input being the
/// label of its place.
pub open spec fn walks_under(a: AugmentedRegexView, ps: Seq<int>, labels: Seq<InputView>) -> bool {
    &&& ps.len() == labels.len() + 1
    &&& firstpos(a.root).contains(ps[0])
    &&& forall|i: int|
        0 <= i < labels.len() ==> 0 <= #[trigger] ps[i] < a.endmarker && same_label(
            a.inputs[ps[i]],
            labels[i],
        ) && followpos(a.root, ps[i]).contains(ps[i + 1])
}

/// The labels of `d` with the numbers `path`.
pub open spec fn labels_of(d: DfaView, path: Seq<usize>) -> Seq<InputView> {
    Seq::new(path.len(), |i: int| d.inputs[path[i] as int])
}

/// A word takes two inputs that are the same label alike.
pub proof fn lemma_takes_label(x: InputView, y: InputView, word: Seq<char>)
    requires
        same_label(x, y),
    ensures
        takes(x, word) == takes(y, word),
{
}

/// Every input has its label among the labels.
pub proof fn lemma_alphabet_covers(inputs: Seq<InputView>, p: int)
    requires
        0 <= p < inputs.len(),
    ensures
        has_label(alphabet_of(inputs), inputs[p]),
    decreases inputs.len(),
{
    let before = alphabet_of(inputs.drop_last());
    if p < inputs.len() - 1 {
        lemma_alphabet_covers(inputs.drop_last(), p);
        let k = choose|k: int| 0 <= k < before.len() && same_label(#[trigger] before[k], inputs[p]);
        assert(same_label(alphabet_of(inputs)[k], inputs[p]));
    } else {
        if has_label(before, inputs.last()) {
        } else {
            assert(same_label(alphabet_of(inputs)[before.len() as int], inputs[p]));
        }
    }
}

/// A path with one more label leads to where the path leads and the
/// transition under the label leads on.
pub proof fn lemma_follow_last(
    transitions: Map<(StateId, usize), StateId>,
    from: StateId,
    path: Seq<usize>,
    to: StateId,
) -> (s: StateId)
    requires
        path.len() > 0,
        follow(transitions, from, path) == Some(to),
    ensures
        follow(transitions, from, path.drop_last()) == Some(s),
        transitions.contains_key((s, path.last())),
        transitions[(s, path.last())] == to,
    decreases path.len(),
{
    if path.len() == 1 {
        assert(path.drop_first() =~= Seq::<usize>::empty());
        assert(path.drop_last() =~= Seq::<usize>::empty());
        from
    } else {
        let s = lemma_follow_last(transitions, transitions[(from, path[0])], path.drop_first(), to);
        assert(path.drop_last().drop_first() =~= path.drop_first().drop_last());
        assert(path.drop_last()[0] == path[0]);
        s
    }
}

/// The positions of the state to which a path leads are the positions at
/// which the walks under the labels of the path stand.
pub proof fn lemma_state_positions(d: DfaView, a: AugmentedRegexView, path: Seq<usize>, s: StateId, q: int)
    requires
        d.well_formed(),
        built_from(d, a),
        d.follow(d.starting_state, path) == Some(s),
    ensures
        s < d.states(),
        d.positions[s as int].contains(q) <==> exists|ps: Seq<int>|
            walks_under(a, ps, labels_of(d, path)) && #[trigger] ps.last() == q,
    decreases path.len(),
{
    let labels = labels_of(d, path);
    if path.len() == 0 {
        if d.positions[s as int].contains(q) {
            let ps = seq![q];
            assert(walks_under(a, ps, labels) && ps.last() == q);
        }
        if exists|ps: Seq<int>| walks_under(a, ps, labels) && #[trigger] ps.last() == q {
            let ps = choose|ps: Seq<int>| walks_under(a, ps, labels) && #[trigger] ps.last() == q;
            assert(ps[0] == ps.last());
        }
    } else {
        let before = path.drop_last();
        let x = path.last();
        let s0 = lemma_follow_last(d.transitions, d.starting_state, path, s);
        assert(d.has(s0, x));
        let label = d.inputs[x as int];
        let from = d.positions[s0 as int];
        assert(d.positions[s as int] == moved(a, from, label));
        assert(labels_of(d, before) =~= labels.drop_last());
        if d.positions[s as int].contains(q) {
            let p = choose|p: int|
                #[trigger] from.contains(p) && 0 <= p < a.endmarker && same_label(a.inputs[p], label)
                    && followpos(a.root, p).contains(q);
            lemma_state_positions(d, a, before, s0, p);
            let ps0 = choose|ps: Seq<int>|
                walks_under(a, ps, labels_of(d, before)) && #[trigger] ps.last() == p;
            let ps = ps0.push(q);
            assert forall|i: int| 0 <= i < labels.len() implies 0 <= #[trigger] ps[i] < a.endmarker && same_label(
                a.inputs[ps[i]],
                labels[i],
            ) && followpos(a.root, ps[i]).contains(ps[i + 1]) by {
                if i < labels.len() - 1 {
                    assert(0 <= ps0[i] < a.endmarker);
                    assert(labels_of(d, before)[i] == labels[i]);
                }
            }
            assert(walks_under(a, ps, labels) && ps.last() == q);
        }
        if exists|ps: Seq<int>| walks_under(a, ps, labels) && #[trigger] ps.last() == q {
            let ps = choose|ps: Seq<int>| walks_under(a, ps, labels) && #[trigger] ps.last() == q;
            let ps0 = ps.drop_last();
            let p = ps0.last();
            assert(p == ps[labels.len() - 1]);
            assert forall|i: int| 0 <= i < labels.len() - 1 implies 0 <= #[trigger] ps0[i] < a.endmarker
                && same_label(a.inputs[ps0[i]], labels_of(d, before)[i]) && followpos(a.root, ps0[i]).contains(
                ps0[i + 1],
            ) by {
                assert(0 <= ps[i] < a.endmarker);
                assert(labels_of(d, before)[i] == labels[i]);
            }
            assert(walks_under(a, ps0, labels_of(d, before)) && ps0.last() == p);
            lemma_state_positions(d, a, before, s0, p);
            assert(from.contains(p));
            assert(0 <= ps[labels.len() - 1] < a.endmarker);
            assert(same_label(a.inputs[p], label));
            assert(followpos(a.root, p).contains(q));
        }
    }
}

/// From a state that holds a position there is a transition under the
/// label of the position, to a state that holds what follows the position.
pub proof fn lemma_position_moves(d: DfaView, a: AugmentedRegexView, s: StateId, p: int, q: int) -> (x: usize)
    requires
        d.well_formed(),
        a.inputs.len() == a.endmarker,
        a.endmarker < usize::MAX,
        built_from(d, a),
        s < d.states(),
        d.positions[s as int].contains(p),
        0 <= p < a.endmarker,
        followpos(a.root, p).contains(q),
    ensures
        x < d.inputs.len(),
        same_label(d.inputs[x as int], a.inputs[p]),
        d.has(s, x),
        d.next(s, x) < d.states(),
        d.positions[d.next(s, x) as int].contains(q),
{
    lemma_alphabet_covers(a.inputs, p);
    lemma_alphabet_short(a.inputs);
    let k = choose|k: int| 0 <= k < d.inputs.len() && same_label(#[trigger] d.inputs[k], a.inputs[p]);
    let x = k as usize;
    let label = d.inputs[x as int];
    let from = d.positions[s as int];
    assert(from.contains(p) && 0 <= p < a.endmarker && same_label(a.inputs[p], label));
    assert(moves(a, from, label));
    assert(d.has(s, x) <==> moves(a, from, label));
    assert(d.has(s, x));
    assert(d.positions[d.next(s, x) as int] == moved(a, from, label));
    assert(from.contains(p) && 0 <= p < a.endmarker && same_label(a.inputs[p], label) && followpos(
        a.root,
        p,
    ).contains(q));
    x
}

/// A walk that words take is followed by the automaton under the labels of
/// its inputs, and the position at which it stands is among those of the
/// state to which they lead.
pub proof fn lemma_walk_is_followed(d: DfaView, a: AugmentedRegexView, ps: Seq<int>, words: Seq<Seq<char>>) -> (r:
    (Seq<usize>, StateId))
    requires
        d.well_formed(),
        a.inputs.len() == a.endmarker,
        a.endmarker < usize::MAX,
        built_from(d, a),
        walks(a, ps, words),
    ensures
        d.spells(r.0, words),
        d.follow(d.starting_state, r.0) == Some(r.1),
        r.1 < d.states(),
        d.positions[r.1 as int].contains(ps.last()),
    decreases words.len(),
{
    if words.len() == 0 {
        let path = Seq::<usize>::empty();
        assert(ps.last() == ps[0]);
        (path, d.starting_state)
    } else {
        let ps0 = ps.drop_last();
        let words0 = words.drop_last();
        assert forall|i: int| 0 <= i < words0.len() implies 0 <= #[trigger] ps0[i] < a.endmarker && takes(
            a.inputs[ps0[i]],
            words0[i],
        ) && followpos(a.root, ps0[i]).contains(ps0[i + 1]) by {
            assert(0 <= ps[i] < a.endmarker);
        }
        let (path0, s0) = lemma_walk_is_followed(d, a, ps0, words0);
        let p = ps0.last();
        let k = words.len() - 1;
        assert(p == ps[k]);
        assert(0 <= ps[k] < a.endmarker);
        let x = lemma_position_moves(d, a, s0, p, ps.last());
        let s = d.next(s0, x);
        let path = path0.push(x);
        lemma_follow_push(d.transitions, d.starting_state, path0, s0, x);
        lemma_takes_label(d.inputs[x as int], a.inputs[p], words[k]);
        assert forall|i: int| 0 <= i < path.len() implies (#[trigger] path[i]) < d.inputs.len() && takes(
            d.inputs[path[i] as int],
            words[i],
        ) by {
            if i < k {
                assert(path0[i] < d.inputs.len());
                assert(words0[i] == words[i]);
            }
        }
        (path, s)
    }
}

/// There are no more labels than inputs.
pub proof fn lemma_alphabet_short(inputs: Seq<InputView>)
    ensures
        alphabet_of(inputs).len() <= inputs.len(),
    decreases inputs.len(),
{
    if inputs.len() > 0 {
        lemma_alphabet_short(inputs.drop_last());
    }
}

/// The automaton of an expression accepts the command lines that can be
/// taken through the expression up to its end marker, and no others.
pub proof fn lemma_accepts_walks(d: DfaView, a: AugmentedRegexView, words: Seq<Seq<char>>)
    requires
        d.well_formed(),
        a.inputs.len() == a.endmarker,
        a.endmarker < usize::MAX,
        built_from(d, a),
    ensures
        d.accepts(words) <==> walks_through(a, words),
{
    if d.accepts(words) {
        let path = choose|path: Seq<usize>| d.spells(path, words) && d.accepts_path(path);
        let s = d.follow(d.starting_state, path)->Some_0;
        lemma_state_positions(d, a, path, s, a.endmarker);
        let labels = labels_of(d, path);
        let ps = choose|ps: Seq<int>| walks_under(a, ps, labels) && #[trigger] ps.last() == a.endmarker;
        assert forall|i: int| 0 <= i < words.len() implies 0 <= #[trigger] ps[i] < a.endmarker && takes(
            a.inputs[ps[i]],
            words[i],
        ) && followpos(a.root, ps[i]).contains(ps[i + 1]) by {
            assert(path[i] < d.inputs.len());
            lemma_takes_label(a.inputs[ps[i]], labels[i], words[i]);
        }
        assert(walks(a, ps, words) && ps.last() == a.endmarker);
    }
    if walks_through(a, words) {
        let ps = choose|ps: Seq<int>| walks(a, ps, words) && #[trigger] ps.last() == a.endmarker;
        let (path, s) = lemma_walk_is_followed(d, a, ps, words);
        assert(d.spells(path, words) && d.accepts_path(path));
    }
}

} // verus!
