//! The automaton of an expression: its states are the sets of positions
//! that can be reached together.

use crate::augment::{AugmentedRegex, AugmentedRegexView};
use crate::counting::{code, lemma_code_below, lemma_code_same, lemma_distinct_bounded, two_to};
use crate::dfa::{follow, lemma_follow_more, lemma_follow_push, set_views, DfaView, DFA};
use crate::follow::is_table;
use crate::posset::PositionSet;
use crate::regex::{firstpos, followpos, input_views, same_label, Input, InputView};
use crate::table::TransitionTable;
use crate::StateId;
use vstd::prelude::*;

verus! {

/// Whether one of `labels` is the same label as `x`.
pub open spec fn has_label(labels: Seq<InputView>, x: InputView) -> bool {
    exists|k: int| 0 <= k < labels.len() && same_label(#[trigger] labels[k], x)
}

/// The labels among `inputs`: of the inputs that are the same label, the
/// first; in the order in which they come first.
pub open spec fn alphabet_of(inputs: Seq<InputView>) -> Seq<InputView>
    decreases inputs.len(),
{
    if inputs.len() == 0 {
        Seq::empty()
    } else {
        let before = alphabet_of(inputs.drop_last());
        if has_label(before, inputs.last()) {
            before
        } else {
            before.push(inputs.last())
        }
    }
}

/// Whether a position of `from`, other than the end marker, has `label`.
pub open spec fn moves(a: AugmentedRegexView, from: Set<int>, label: InputView) -> bool {
    exists|p: int| #[trigger] from.contains(p) && 0 <= p < a.endmarker && same_label(a.inputs[p], label)
}

/// The positions that follow those positions of `from` that have `label`.
pub open spec fn moved(a: AugmentedRegexView, from: Set<int>, label: InputView) -> Set<int> {
    Set::new(
        |q: int|
            exists|p: int|
                #[trigger] from.contains(p) && 0 <= p < a.endmarker && same_label(a.inputs[p], label)
                    && followpos(a.root, p).contains(q),
    )
}

/// Whether `d` is the automaton of the expression `a`: its labels are the
/// labels of the expression; its states stand for sets of positions, no two
/// for the same set, the start state for the first positions; from a state
/// a label leads on where one of the state's positions has that label, and
/// then to the state of the positions that follow those; the accepting
/// states are those that hold the end marker.
pub open spec fn built_from(d: DfaView, a: AugmentedRegexView) -> bool {
    &&& d.inputs == alphabet_of(a.inputs)
    &&& d.positions.len() == d.states()
    &&& d.states() > 0
    &&& d.positions[0] == firstpos(a.root)
    &&& forall|s: int, t: int|
        0 <= s < t < d.states() ==> #[trigger] d.positions[s] != #[trigger] d.positions[t]
    &&& forall|s: int| 0 <= s < d.states() ==> #[trigger] d.accepting[s] == d.positions[s].contains(a.endmarker)
    &&& forall|s: StateId, x: usize|
        s < d.states() && x < d.inputs.len() ==> (#[trigger] d.has(s, x) <==> moves(
            a,
            d.positions[s as int],
            d.inputs[x as int],
        ))
    &&& forall|s: StateId, x: usize| #[trigger]
        d.has(s, x) ==> d.positions[d.next(s, x) as int] == moved(
            a,
            d.positions[s as int],
            d.inputs[x as int],
        )
    &&& numbered_as_found(d.transitions, d.states())
}

/// Whether the transition `k` comes before the transition `l`: from an
/// earlier state, or from the same state under an earlier label.
pub open spec fn before(k: (StateId, usize), l: (StateId, usize)) -> bool {
    k.0 < l.0 || (k.0 == l.0 && k.1 < l.1)
}

/// Whether the first `n` states are numbered as they are found when the
/// transitions are gone through in their order: each state but the start
/// state has a transition that leads to it while all transitions before that
/// one lead to states with smaller numbers.
pub open spec fn numbered_as_found(transitions: Map<(StateId, usize), StateId>, n: nat) -> bool {
    forall|t: StateId| 0 < t < n ==> #[trigger] found_by(transitions, t)
}

/// Whether a transition leads to `t` while all transitions before it lead to
/// states with smaller numbers.
pub open spec fn found_by(transitions: Map<(StateId, usize), StateId>, t: StateId) -> bool {
    exists|k: (StateId, usize)|
        transitions.contains_key(k) && #[trigger] transitions[k] == t && forall|l: (StateId, usize)|
            #[trigger] transitions.contains_key(l) && before(l, k) ==> transitions[l] < t
}

/// Whether no two of `labels` are the same label.
pub open spec fn distinct_labels(labels: Seq<InputView>) -> bool {
    forall|a: int, b: int|
        0 <= a < b < labels.len() ==> !same_label(#[trigger] labels[a], #[trigger] labels[b])
}

/// The labels among `inputs`, and for each input the number of its label.
pub fn classify(inputs: &Vec<Input>) -> (r: (Vec<Input>, Vec<usize>))
    ensures
        input_views(r.0@) == alphabet_of(input_views(inputs@)),
        distinct_labels(input_views(r.0@)),
        r.1@.len() == inputs@.len(),
        forall|p: int|
            0 <= p < inputs@.len() ==> (#[trigger] r.1@[p]) < r.0@.len() && same_label(
                r.0@[r.1@[p] as int]@,
                inputs@[p]@,
            ),
{
    let mut alphabet: Vec<Input> = Vec::new();
    let mut symbols: Vec<usize> = Vec::new();
    let mut p: usize = 0;
    let ghost all = input_views(inputs@);
    assert(all.take(0) =~= Seq::<InputView>::empty());
    while p < inputs.len()
        invariant
            p <= inputs@.len(),
            all == input_views(inputs@),
            input_views(alphabet@) == alphabet_of(all.take(p as int)),
            distinct_labels(input_views(alphabet@)),
            symbols@.len() == p,
            forall|q: int|
                0 <= q < p ==> (#[trigger] symbols@[q]) < alphabet@.len() && same_label(
                    alphabet@[symbols@[q] as int]@,
                    inputs@[q]@,
                ),
        decreases inputs@.len() - p,
    {
        let ghost labels = input_views(alphabet@);
        let mut k: usize = 0;
        while k < alphabet.len() && !alphabet[k].same_label(&inputs[p])
            invariant
                k <= alphabet@.len(),
                p < inputs@.len(),
                labels == input_views(alphabet@),
                forall|j: int| 0 <= j < k ==> !same_label(#[trigger] labels[j], inputs@[p as int]@),
            decreases alphabet@.len() - k,
        {
            k += 1;
        }
        proof {
            assert(all.take(p + 1).drop_last() =~= all.take(p as int));
            assert(all.take(p + 1).last() == inputs@[p as int]@);
            if k < alphabet@.len() {
                assert(same_label(labels[k as int], inputs@[p as int]@));
            }
        }
        if k == alphabet.len() {
            alphabet.push(inputs[p].duplicate());
            proof {
                assert(input_views(alphabet@) =~= labels.push(inputs@[p as int]@));
                assert(!has_label(labels, inputs@[p as int]@));
            }
        }
        symbols.push(k);
        p += 1;
    }
    assert(all.take(p as int) =~= all);
    (alphabet, symbols)
}

/// Sets of positions below one bound, no two of them the same, are no more
/// than two to the power of the bound.
pub proof fn lemma_sets_bounded(states: Seq<PositionSet>, bound: nat)
    requires
        forall|i: int| 0 <= i < states.len() ==> (#[trigger] states[i]).bound() == bound,
        forall|i: int, j: int| 0 <= i < j < states.len() ==> (#[trigger] states[i])@ != (#[trigger] states[j])@,
    ensures
        states.len() <= two_to(bound),
{
    let codes = Seq::new(states.len(), |i: int| code(states[i].bits@, bound) as int);
    assert forall|i: int| 0 <= i < codes.len() implies 0 <= #[trigger] codes[i] < two_to(bound) by {
        lemma_code_below(states[i].bits@, bound);
    }
    assert forall|i: int, j: int| 0 <= i < j < codes.len() implies #[trigger] codes[i] != #[trigger] codes[j] by {
        if codes[i] == codes[j] {
            lemma_code_same(states[i].bits@, states[j].bits@, bound);
            assert(states[i]@ =~= states[j]@);
        }
    }
    lemma_distinct_bounded(codes, two_to(bound) as int);
}

/// Whether a position of `from` has the label numbered `x`, and the
/// positions that follow those that have it.
fn step_set(
    from: &PositionSet,
    symbols: &Vec<usize>,
    x: usize,
    follow: &Vec<PositionSet>,
    bound: usize,
    Ghost(a): Ghost<AugmentedRegexView>,
    Ghost(label): Ghost<InputView>,
) -> (r: (bool, PositionSet))
    requires
        a.well_formed(),
        bound == a.endmarker + 1,
        symbols@.len() == a.endmarker,
        from.bound() == bound,
        is_table(follow@, bound as int),
        forall|p: int| 0 <= p < bound ==> (#[trigger] follow@[p])@ == followpos(a.root, p),
        forall|p: int|
            0 <= p < a.endmarker ==> (#[trigger] symbols@[p] == x <==> same_label(a.inputs[p], label)),
    ensures
        r.0 == moves(a, from@, label),
        r.1@ == moved(a, from@, label),
        r.1.bound() == bound,
{
    let n = symbols.len();
    let mut any = false;
    let mut target = PositionSet::empty(bound);
    let mut p: usize = 0;
    while p < n
        invariant
            p <= n,
            n == a.endmarker,
            bound == n + 1,
            symbols@.len() == n,
            from.bound() == bound,
            target.bound() == bound,
            is_table(follow@, bound as int),
            forall|q: int| 0 <= q < bound ==> (#[trigger] follow@[q])@ == followpos(a.root, q),
            forall|q: int| 0 <= q < n ==> (#[trigger] symbols@[q] == x <==> same_label(a.inputs[q], label)),
            any <==> exists|q: int| #[trigger] from@.contains(q) && 0 <= q < p && same_label(a.inputs[q], label),
            forall|t: int|
                target@.contains(t) <==> exists|q: int|
                    #[trigger] from@.contains(q) && 0 <= q < p && same_label(a.inputs[q], label)
                        && followpos(a.root, q).contains(t),
        decreases n - p,
    {
        let ghost before = target@;
        let ghost any_before = any;
        if from.contains(p) && symbols[p] == x {
            any = true;
            target.union_with(&follow[p]);
        }
        proof {
            let now = p as int;
            assert(symbols@[now] == x <==> same_label(a.inputs[now], label));
            assert(any <==> exists|q: int|
                #[trigger] from@.contains(q) && 0 <= q < p + 1 && same_label(a.inputs[q], label)) by {
                if any_before {
                    let q = choose|q: int|
                        #[trigger] from@.contains(q) && 0 <= q < p && same_label(a.inputs[q], label);
                    assert(from@.contains(q) && 0 <= q < p + 1 && same_label(a.inputs[q], label));
                }
                if from@.contains(now) && same_label(a.inputs[now], label) {
                    assert(from@.contains(now) && 0 <= now < p + 1 && same_label(a.inputs[now], label));
                }
                if exists|q: int|
                    #[trigger] from@.contains(q) && 0 <= q < p + 1 && same_label(a.inputs[q], label) {
                    let q = choose|q: int|
                        #[trigger] from@.contains(q) && 0 <= q < p + 1 && same_label(a.inputs[q], label);
                    if q < p {
                        assert(from@.contains(q) && 0 <= q < p && same_label(a.inputs[q], label));
                    }
                }
            }
            assert forall|t: int|
                target@.contains(t) <==> exists|q: int|
                    #[trigger] from@.contains(q) && 0 <= q < p + 1 && same_label(a.inputs[q], label)
                        && followpos(a.root, q).contains(t) by {
                if before.contains(t) {
                    let q = choose|q: int|
                        #[trigger] from@.contains(q) && 0 <= q < p && same_label(a.inputs[q], label)
                            && followpos(a.root, q).contains(t);
                    assert(from@.contains(q) && 0 <= q < p + 1 && same_label(a.inputs[q], label)
                        && followpos(a.root, q).contains(t));
                }
                if from@.contains(now) && same_label(a.inputs[now], label) && followpos(a.root, now).contains(t) {
                    assert(from@.contains(now) && 0 <= now < p + 1 && same_label(a.inputs[now], label)
                        && followpos(a.root, now).contains(t));
                }
                if exists|q: int|
                    #[trigger] from@.contains(q) && 0 <= q < p + 1 && same_label(a.inputs[q], label)
                        && followpos(a.root, q).contains(t) {
                    let q = choose|q: int|
                        #[trigger] from@.contains(q) && 0 <= q < p + 1 && same_label(a.inputs[q], label)
                            && followpos(a.root, q).contains(t);
                    if q < p {
                        assert(from@.contains(q) && 0 <= q < p && same_label(a.inputs[q], label)
                            && followpos(a.root, q).contains(t));
                    }
                }
            }
        }
        p += 1;
    }
    assert(target@ =~= moved(a, from@, label));
    (any, target)
}

/// The place among `states` of the set that holds the positions of
/// `wanted`, if one of them does.
fn find_state(states: &Vec<PositionSet>, wanted: &PositionSet) -> (r: Option<usize>)
    requires
        forall|i: int| 0 <= i < states@.len() ==> (#[trigger] states@[i]).bound() == wanted.bound(),
    ensures
        r matches Some(t) ==> t < states@.len() && states@[t as int]@ == wanted@,
        r is None ==> forall|i: int| 0 <= i < states@.len() ==> (#[trigger] states@[i])@ != wanted@,
{
    let mut t: usize = 0;
    while t < states.len()
        invariant
            t <= states@.len(),
            forall|i: int| 0 <= i < states@.len() ==> (#[trigger] states@[i]).bound() == wanted.bound(),
            forall|i: int| 0 <= i < t ==> (#[trigger] states@[i])@ != wanted@,
        decreases states@.len() - t,
    {
        if states[t].same_as(wanted) {
            return Some(t);
        }
        t += 1;
    }
    None
}

/// What holds while the automaton is built: the transitions of the states
/// before `s`, and those of `s` under the labels before `x`, are there, and
/// no others; every state is reached along its path.
#[verifier::opaque]
pub open spec fn building(
    a: AugmentedRegexView,
    labels: Seq<InputView>,
    sets: Seq<Set<int>>,
    table: Map<(StateId, usize), StateId>,
    paths: Seq<Seq<usize>>,
    s: int,
    x: int,
) -> bool {
    &&& sets.len() > 0
    &&& paths.len() == sets.len()
    &&& 0 <= s <= sets.len()
    &&& 0 <= x <= labels.len()
    &&& sets[0] == firstpos(a.root)
    &&& forall|i: int, j: int| 0 <= i < j < sets.len() ==> #[trigger] sets[i] != #[trigger] sets[j]
    &&& forall|k: (StateId, usize)| #[trigger]
        table.contains_key(k) ==> (k.0 < s || (k.0 == s && k.1 < x)) && k.0 < sets.len() && k.1
            < labels.len() && table[k] < sets.len() && sets[table[k] as int] == moved(
            a,
            sets[k.0 as int],
            labels[k.1 as int],
        )
    &&& forall|u: StateId, y: usize|
        (u < s || (u == s && y < x)) && u < sets.len() && y < labels.len() ==> (#[trigger] table.contains_key(
            (u, y),
        ) <==> moves(a, sets[u as int], labels[y as int]))
    &&& forall|t: int| 0 <= t < sets.len() ==> follow(table, 0, #[trigger] paths[t]) == Some(t as StateId)
    &&& numbered_as_found(table, sets.len())
}

/// At the start there is the start state and nothing else.
pub proof fn lemma_build_start(a: AugmentedRegexView, labels: Seq<InputView>)
    ensures
        building(
            a,
            labels,
            seq![firstpos(a.root)],
            crate::table::empty_table(),
            seq![Seq::<usize>::empty()],
            0,
            0,
        ),
{
    reveal(building);
    let paths = seq![Seq::<usize>::empty()];
    assert(follow(crate::table::empty_table(), 0, paths[0]) == Some(0usize));
}

/// A label that none of the state's positions has leads nowhere.
pub proof fn lemma_build_skip(
    a: AugmentedRegexView,
    labels: Seq<InputView>,
    sets: Seq<Set<int>>,
    table: Map<(StateId, usize), StateId>,
    paths: Seq<Seq<usize>>,
    s: StateId,
    x: usize,
)
    requires
        building(a, labels, sets, table, paths, s as int, x as int),
        s < sets.len(),
        x < labels.len(),
        !moves(a, sets[s as int], labels[x as int]),
    ensures
        building(a, labels, sets, table, paths, s as int, x + 1),
{
    reveal(building);
    assert forall|u: StateId, y: usize|
        (u < s || (u == s && y < x + 1)) && u < sets.len() && y < labels.len() implies (#[trigger] table.contains_key(
        (u, y),
    ) <==> moves(a, sets[u as int], labels[y as int])) by {
        if u == s && y == x {
            if table.contains_key((u, y)) {
                assert(false);
            }
        }
    }
}

/// A transition to a state that is there already.
pub proof fn lemma_build_old(
    a: AugmentedRegexView,
    labels: Seq<InputView>,
    sets: Seq<Set<int>>,
    table: Map<(StateId, usize), StateId>,
    paths: Seq<Seq<usize>>,
    s: StateId,
    x: usize,
    t: StateId,
)
    requires
        building(a, labels, sets, table, paths, s as int, x as int),
        s < sets.len(),
        x < labels.len(),
        moves(a, sets[s as int], labels[x as int]),
        t < sets.len(),
        sets[t as int] == moved(a, sets[s as int], labels[x as int]),
    ensures
        building(a, labels, sets, table.insert((s, x), t), paths, s as int, x + 1),
{
    reveal(building);
    let more = table.insert((s, x), t);
    assert(!table.contains_key((s, x)));
    assert forall|k: (StateId, usize)| #[trigger] more.contains_key(k) implies (k.0 < s || (k.0 == s && k.1
        < x + 1)) && k.0 < sets.len() && k.1 < labels.len() && more[k] < sets.len() && sets[more[k] as int]
        == moved(a, sets[k.0 as int], labels[k.1 as int]) by {
        if k != (s, x) {
            assert(table.contains_key(k));
        }
    }
    assert forall|u: StateId, y: usize|
        (u < s || (u == s && y < x + 1)) && u < sets.len() && y < labels.len() implies (#[trigger] more.contains_key(
        (u, y),
    ) <==> moves(a, sets[u as int], labels[y as int])) by {
        if !(u == s && y == x) {
            assert(table.contains_key((u, y)) <==> moves(a, sets[u as int], labels[y as int]));
        }
    }
    assert forall|i: int| 0 <= i < sets.len() implies follow(more, 0, #[trigger] paths[i]) == Some(
        i as StateId,
    ) by {
        lemma_follow_more(table, more, 0, paths[i]);
    }
    lemma_found_more(table, s, x, t, sets.len());
}

/// A transition to a new state, which is reached along the path to the
/// state that it comes from and the transition.
pub proof fn lemma_build_new(
    a: AugmentedRegexView,
    labels: Seq<InputView>,
    sets: Seq<Set<int>>,
    table: Map<(StateId, usize), StateId>,
    paths: Seq<Seq<usize>>,
    s: StateId,
    x: usize,
    t: StateId,
)
    requires
        building(a, labels, sets, table, paths, s as int, x as int),
        s < sets.len(),
        x < labels.len(),
        moves(a, sets[s as int], labels[x as int]),
        t == sets.len(),
        forall|i: int|
            0 <= i < sets.len() ==> #[trigger] sets[i] != moved(a, sets[s as int], labels[x as int]),
    ensures
        building(
            a,
            labels,
            sets.push(moved(a, sets[s as int], labels[x as int])),
            table.insert((s, x), t),
            paths.push(paths[s as int].push(x)),
            s as int,
            x + 1,
        ),
{
    reveal(building);
    let target = moved(a, sets[s as int], labels[x as int]);
    let sets2 = sets.push(target);
    let more = table.insert((s, x), t);
    let paths2 = paths.push(paths[s as int].push(x));
    assert(!table.contains_key((s, x)));
    assert forall|k: (StateId, usize)| #[trigger] more.contains_key(k) implies (k.0 < s || (k.0 == s && k.1
        < x + 1)) && k.0 < sets2.len() && k.1 < labels.len() && more[k] < sets2.len() && sets2[more[k] as int]
        == moved(a, sets2[k.0 as int], labels[k.1 as int]) by {
        if k != (s, x) {
            assert(table.contains_key(k));
        }
    }
    assert forall|u: StateId, y: usize|
        (u < s || (u == s && y < x + 1)) && u < sets2.len() && y < labels.len() implies (#[trigger] more.contains_key(
        (u, y),
    ) <==> moves(a, sets2[u as int], labels[y as int])) by {
        if !(u == s && y == x) {
            assert(table.contains_key((u, y)) <==> moves(a, sets[u as int], labels[y as int]));
        }
    }
    assert forall|i: int| 0 <= i < sets2.len() implies follow(more, 0, #[trigger] paths2[i]) == Some(
        i as StateId,
    ) by {
        if i < sets.len() {
            lemma_follow_more(table, more, 0, paths[i]);
        } else {
            lemma_follow_more(table, more, 0, paths[s as int]);
            lemma_follow_push(more, 0, paths[s as int], s, x);
        }
    }
    assert forall|i: int, j: int| 0 <= i < j < sets2.len() implies #[trigger] sets2[i] != #[trigger] sets2[j] by {
        if j < sets.len() {
            assert(sets[i] != sets[j]);
        } else {
            assert(sets[i] != target);
        }
    }
    lemma_found_more(table, s, x, t, sets.len());
    assert forall|u: StateId| 0 < u < sets2.len() implies #[trigger] found_by(more, u) by {
        if u == t {
            let k = (s, x);
            assert(more.contains_key(k) && more[k] == u);
            assert forall|l: (StateId, usize)| #[trigger] more.contains_key(l) && before(l, k) implies more[l]
                < u by {
                assert(table.contains_key(l));
            }
        }
    }
}

/// With all labels done, on to the next state.
pub proof fn lemma_build_next(
    a: AugmentedRegexView,
    labels: Seq<InputView>,
    sets: Seq<Set<int>>,
    table: Map<(StateId, usize), StateId>,
    paths: Seq<Seq<usize>>,
    s: StateId,
)
    requires
        building(a, labels, sets, table, paths, s as int, labels.len() as int),
        s < sets.len(),
    ensures
        building(a, labels, sets, table, paths, s + 1, 0),
{
    reveal(building);
}

/// With all states done, the automaton is the automaton of the expression.
pub proof fn lemma_build_done(
    a: AugmentedRegexView,
    labels: Seq<InputView>,
    sets: Seq<Set<int>>,
    table: Map<(StateId, usize), StateId>,
    paths: Seq<Seq<usize>>,
    accepting: Seq<bool>,
)
    requires
        building(a, labels, sets, table, paths, sets.len() as int, 0),
        labels == alphabet_of(a.inputs),
        distinct_labels(labels),
        accepting.len() == sets.len(),
        forall|i: int| 0 <= i < sets.len() ==> #[trigger] accepting[i] == sets[i].contains(a.endmarker),
    ensures
        built_from(
            DfaView { starting_state: 0, accepting, transitions: table, positions: sets, inputs: labels },
            a,
        ),
        (DfaView { starting_state: 0, accepting, transitions: table, positions: sets, inputs: labels }).well_formed(),
        (DfaView { starting_state: 0, accepting, transitions: table, positions: sets, inputs: labels }).all_reachable(),
{
    reveal(building);
    let d = DfaView { starting_state: 0, accepting, transitions: table, positions: sets, inputs: labels };
    assert forall|s: StateId, x: usize| #[trigger] d.has(s, x) implies s < d.states() && x < d.inputs.len()
        && d.next(s, x) < d.states() by {
        assert(table.contains_key((s, x)));
    }
    assert forall|s: StateId| s < d.states() implies #[trigger] d.reachable(s) by {
        assert(d.follow(d.starting_state, paths[s as int]) == Some(s));
    }
    assert forall|s: StateId, x: usize| s < d.states() && x < d.inputs.len() implies (#[trigger] d.has(s, x)
        <==> moves(a, d.positions[s as int], d.inputs[x as int])) by {
        assert(table.contains_key((s, x)) <==> moves(a, sets[s as int], labels[x as int]));
    }
    assert forall|s: StateId, x: usize| #[trigger] d.has(s, x) implies d.positions[d.next(s, x) as int]
        == moved(a, d.positions[s as int], d.inputs[x as int]) by {
        assert(table.contains_key((s, x)));
    }
}

impl DFA {
    /// Builds the automaton of an expression: its states are the sets of
    /// positions that can be reached together, numbered as they are found.
    pub fn from_regex(regex: &AugmentedRegex) -> (r: DFA)
        ensures
            built_from(r@, regex@),
            r@.well_formed(),
            r@.all_reachable(),
    {
        let n = regex.endmarker();
        let bound = n + 1;
        let ghost a = regex@;
        let first = regex.firstpos();
        let follow = regex.followpos();
        let (alphabet, symbols) = classify(regex.inputs());
        let ghost labels = input_views(alphabet@);
        let mut accepting: Vec<bool> = Vec::new();
        let mut states: Vec<PositionSet> = Vec::new();
        accepting.push(first.contains(n));
        states.push(first);
        let mut table = TransitionTable::new();
        let ghost mut paths = seq![Seq::<usize>::empty()];
        proof {
            lemma_build_start(a, labels);
            assert(set_views(states@) =~= seq![firstpos(a.root)]);
            lemma_sets_bounded(states@, bound as nat);
        }
        let mut s: usize = 0;
        while s < states.len()
            invariant
                a == regex@,
                a.well_formed(),
                n == a.endmarker,
                bound == n + 1,
                labels == input_views(alphabet@),
                labels == alphabet_of(a.inputs),
                distinct_labels(labels),
                symbols@.len() == n,
                forall|p: int|
                    0 <= p < n ==> (#[trigger] symbols@[p]) < alphabet@.len() && same_label(
                        labels[symbols@[p] as int],
                        a.inputs[p],
                    ),
                is_table(follow@, bound as int),
                forall|p: int| 0 <= p < bound ==> (#[trigger] follow@[p])@ == followpos(a.root, p),
                forall|i: int| 0 <= i < states@.len() ==> (#[trigger] states@[i]).bound() == bound,
                accepting@.len() == states@.len(),
                forall|i: int| 0 <= i < states@.len() ==> #[trigger] accepting@[i] == states@[i]@.contains(n as int),
                states@.len() <= two_to(bound as nat),
                s <= states@.len(),
                building(a, labels, set_views(states@), table@, paths, s as int, 0),
            decreases two_to(bound as nat) - states@.len(), states@.len() - s,
        {
            let ghost count = states@.len();
            let mut x: usize = 0;
            while x < alphabet.len()
                invariant
                    a == regex@,
                    a.well_formed(),
                    n == a.endmarker,
                    bound == n + 1,
                    labels == input_views(alphabet@),
                    distinct_labels(labels),
                    symbols@.len() == n,
                    forall|p: int|
                        0 <= p < n ==> (#[trigger] symbols@[p]) < alphabet@.len() && same_label(
                            labels[symbols@[p] as int],
                            a.inputs[p],
                        ),
                    is_table(follow@, bound as int),
                    forall|p: int| 0 <= p < bound ==> (#[trigger] follow@[p])@ == followpos(a.root, p),
                    forall|i: int| 0 <= i < states@.len() ==> (#[trigger] states@[i]).bound() == bound,
                    accepting@.len() == states@.len(),
                    forall|i: int|
                        0 <= i < states@.len() ==> #[trigger] accepting@[i] == states@[i]@.contains(n as int),
                    count <= states@.len() <= two_to(bound as nat),
                    s < count,
                    x <= alphabet@.len(),
                    building(a, labels, set_views(states@), table@, paths, s as int, x as int),
                decreases alphabet@.len() - x,
            {
                proof {
                    assert forall|p: int| 0 <= p < a.endmarker implies (#[trigger] symbols@[p] == x <==> same_label(
                        a.inputs[p],
                        labels[x as int],
                    )) by {
                        let y = symbols@[p] as int;
                        assert(same_label(labels[y], a.inputs[p]));
                        if same_label(a.inputs[p], labels[x as int]) && y != x {
                            assert(same_label(labels[y], labels[x as int]));
                            if y < x {
                                assert(!same_label(labels[y], labels[x as int]));
                            } else {
                                assert(!same_label(labels[x as int], labels[y]));
                            }
                        }
                    }
                }
                let (any, target) = step_set(
                    &states[s],
                    &symbols,
                    x,
                    &follow,
                    bound,
                    Ghost(a),
                    Ghost(labels[x as int]),
                );
                let ghost sets = set_views(states@);
                if any {
                    match find_state(&states, &target) {
                        Some(t) => {
                            proof {
                                lemma_build_old(a, labels, sets, table@, paths, s, x, t);
                            }
                            table.insert(s, x, t);
                        },
                        None => {
                            let t = states.len();
                            proof {
                                lemma_build_new(a, labels, sets, table@, paths, s, x, t);
                                paths = paths.push(paths[s as int].push(x));
                            }
                            accepting.push(target.contains(n));
                            states.push(target);
                            table.insert(s, x, t);
                            proof {
                                assert(set_views(states@) =~= sets.push(moved(a, sets[s as int], labels[x as int])));
                                assert forall|i: int, j: int| 0 <= i < j < states@.len() implies (
                                #[trigger] states@[i])@ != (#[trigger] states@[j])@ by {
                                    lemma_sets_differ(a, labels, set_views(states@), table@, paths, s as int, x + 1, i, j);
                                }
                                lemma_sets_bounded(states@, bound as nat);
                            }
                        },
                    }
                } else {
                    proof {
                        lemma_build_skip(a, labels, sets, table@, paths, s, x);
                    }
                }
                x += 1;
            }
            proof {
                lemma_build_next(a, labels, set_views(states@), table@, paths, s);
            }
            s += 1;
        }
        proof {
            lemma_build_done(a, labels, set_views(states@), table@, paths, accepting@);
        }
        DFA::assemble(accepting, table, states, alphabet)
    }
}

/// A transition behind all others, to a state that is there or to the next
/// new one, leaves the states numbered as they are found.
pub proof fn lemma_found_more(
    table: Map<(StateId, usize), StateId>,
    s: StateId,
    x: usize,
    t: StateId,
    n: nat,
)
    requires
        numbered_as_found(table, n),
        forall|l: (StateId, usize)| #[trigger] table.contains_key(l) ==> before(l, (s, x)) && table[l] < n,
        t <= n,
    ensures
        numbered_as_found(table.insert((s, x), t), n),
{
    let more = table.insert((s, x), t);
    assert forall|u: StateId| 0 < u < n implies #[trigger] found_by(more, u) by {
        assert(found_by(table, u));
        let k = choose|k: (StateId, usize)|
            table.contains_key(k) && #[trigger] table[k] == u && forall|l: (StateId, usize)|
                #[trigger] table.contains_key(l) && before(l, k) ==> table[l] < u;
        assert(before(k, (s, x)));
        assert(more.contains_key(k) && more[k] == u);
        assert forall|l: (StateId, usize)| #[trigger] more.contains_key(l) && before(l, k) implies more[l]
            < u by {
            if l == (s, x) {
                assert(false);
            } else {
                assert(table.contains_key(l));
            }
        }
    }
}

/// While the automaton is built, no two states stand for the same set.
pub proof fn lemma_sets_differ(
    a: AugmentedRegexView,
    labels: Seq<InputView>,
    sets: Seq<Set<int>>,
    table: Map<(StateId, usize), StateId>,
    paths: Seq<Seq<usize>>,
    s: int,
    x: int,
    i: int,
    j: int,
)
    requires
        building(a, labels, sets, table, paths, s, x),
        0 <= i < j < sets.len(),
    ensures
        sets[i] != sets[j],
{
    reveal(building);
}

} // verus!
