//! Deterministic automata over the words of a command line.

use crate::posset::PositionSet;
use crate::regex::{input_views, same_label, takes, Input, InputView};
use crate::table::TransitionTable;
use crate::StateId;
use vstd::prelude::*;

verus! {

/// A deterministic automaton over the words of a command line.
///
/// The states are numbered from `0`, the start state. A transition is keyed
/// by its state and by the number of its label.
pub struct DFA {
    starting_state: StateId,
    accepting_states: Vec<bool>,
    transitions: TransitionTable,
    input_positions: Vec<PositionSet>,
    inputs: Vec<Input>,
}

/// The mathematical value of a [`DFA`].
pub struct DfaView {
    pub starting_state: StateId,
    /// For each state, whether a command line may end in it.
    pub accepting: Seq<bool>,
    /// The state to which each transition leads.
    pub transitions: Map<(StateId, usize), StateId>,
    /// For each state, the positions of the expression that it stands for.
    pub positions: Seq<Set<int>>,
    /// The labels of the transitions, by their numbers.
    pub inputs: Seq<InputView>,
}

/// The positions that each of a list of sets holds.
pub open spec fn set_views(v: Seq<PositionSet>) -> Seq<Set<int>> {
    Seq::new(v.len(), |s: int| v[s]@)
}

/// The state reached from `from` along the transitions of `transitions`
/// whose labels have the numbers `path`, if all of them are there.
pub open spec fn follow(transitions: Map<(StateId, usize), StateId>, from: StateId, path: Seq<usize>) -> Option<
    StateId,
>
    decreases path.len(),
{
    if path.len() == 0 {
        Some(from)
    } else if transitions.contains_key((from, path[0])) {
        follow(transitions, transitions[(from, path[0])], path.drop_first())
    } else {
        None
    }
}

impl DfaView {
    /// The number of states.
    pub open spec fn states(self) -> nat {
        self.accepting.len()
    }

    /// Whether there is a transition from `s` under the label numbered `a`.
    pub open spec fn has(self, s: StateId, a: usize) -> bool {
        self.transitions.contains_key((s, a))
    }

    /// The state to which the transition from `s` under `a` leads.
    pub open spec fn next(self, s: StateId, a: usize) -> StateId {
        self.transitions[(s, a)]
    }

    /// The start state is `0`, every transition joins two states under a
    /// label of the automaton, and no two labels are the same label: from a
    /// state, a label leads to one state at most.
    pub open spec fn well_formed(self) -> bool {
        &&& self.states() > 0
        &&& self.starting_state == 0
        &&& self.positions.len() == self.states()
        &&& forall|s: StateId, a: usize| #[trigger]
            self.has(s, a) ==> s < self.states() && a < self.inputs.len() && self.next(s, a)
                < self.states()
        &&& forall|a: int, b: int|
            0 <= a < b < self.inputs.len() ==> !same_label(
                #[trigger] self.inputs[a],
                #[trigger] self.inputs[b],
            )
    }

    /// The state reached from `from` along the labels numbered `path`, if
    /// all of the transitions are there.
    pub open spec fn follow(self, from: StateId, path: Seq<usize>) -> Option<StateId> {
        follow(self.transitions, from, path)
    }

    /// Whether `s` is reached from the start state along some path.
    pub open spec fn reachable(self, s: StateId) -> bool {
        exists|path: Seq<usize>| self.follow(self.starting_state, path) == Some(s)
    }

    /// Whether every state is reached from the start state.
    pub open spec fn all_reachable(self) -> bool {
        forall|s: StateId| s < self.states() ==> #[trigger] self.reachable(s)
    }

    /// Whether the labels numbered `path` are there and are taken, one by
    /// one, by `words`.
    pub open spec fn spells(self, path: Seq<usize>, words: Seq<Seq<char>>) -> bool {
        &&& path.len() == words.len()
        &&& forall|i: int|
            0 <= i < path.len() ==> (#[trigger] path[i]) < self.inputs.len() && takes(
                self.inputs[path[i] as int],
                words[i],
            )
    }

    /// Whether the path from the start state along `path` ends in an
    /// accepting state.
    pub open spec fn accepts_path(self, path: Seq<usize>) -> bool {
        match self.follow(self.starting_state, path) {
            Some(s) => s < self.states() && self.accepting[s as int],
            None => false,
        }
    }

    /// Whether the automaton accepts the command line `words`.
    pub open spec fn accepts(self, words: Seq<Seq<char>>) -> bool {
        exists|path: Seq<usize>| self.spells(path, words) && self.accepts_path(path)
    }
}

/// From a state, two labels that are the same label are one label, and lead
/// to one state.
pub proof fn lemma_deterministic(d: DfaView, s: StateId, a: usize, b: usize)
    requires
        d.well_formed(),
        d.has(s, a),
        d.has(s, b),
        same_label(d.inputs[a as int], d.inputs[b as int]),
    ensures
        a == b,
        d.next(s, a) == d.next(s, b),
{
    if a < b {
        assert(!same_label(d.inputs[a as int], d.inputs[b as int]));
    } else if b < a {
        assert(!same_label(d.inputs[b as int], d.inputs[a as int]));
    }
}

/// A path that leads to `s`, with a transition from `s` behind it, leads to
/// where that transition leads.
pub proof fn lemma_follow_push(
    transitions: Map<(StateId, usize), StateId>,
    from: StateId,
    path: Seq<usize>,
    s: StateId,
    a: usize,
)
    requires
        follow(transitions, from, path) == Some(s),
        transitions.contains_key((s, a)),
    ensures
        follow(transitions, from, path.push(a)) == Some(transitions[(s, a)]),
    decreases path.len(),
{
    if path.len() == 0 {
        assert(path.push(a).drop_first() =~= Seq::<usize>::empty());
        assert(follow(transitions, transitions[(s, a)], Seq::<usize>::empty()) == Some(
            transitions[(s, a)],
        ));
        assert(path.push(a)[0] == a);
    } else {
        assert(path.push(a)[0] == path[0]);
        assert(path.push(a).drop_first() =~= path.drop_first().push(a));
        lemma_follow_push(transitions, transitions[(from, path[0])], path.drop_first(), s, a);
    }
}

/// A path stays a path when transitions are added.
pub proof fn lemma_follow_more(
    transitions: Map<(StateId, usize), StateId>,
    more: Map<(StateId, usize), StateId>,
    from: StateId,
    path: Seq<usize>,
)
    requires
        follow(transitions, from, path) is Some,
        forall|k: (StateId, usize)| #[trigger]
            transitions.contains_key(k) ==> more.contains_key(k) && more[k] == transitions[k],
    ensures
        follow(more, from, path) == follow(transitions, from, path),
    decreases path.len(),
{
    if path.len() > 0 {
        assert(transitions.contains_key((from, path[0])));
        lemma_follow_more(transitions, more, transitions[(from, path[0])], path.drop_first());
    }
}

impl View for DFA {
    type V = DfaView;

    closed spec fn view(&self) -> DfaView {
        DfaView {
            starting_state: self.starting_state,
            accepting: self.accepting_states@,
            transitions: self.transitions@,
            positions: set_views(self.input_positions@),
            inputs: input_views(self.inputs@),
        }
    }
}

impl DFA {
    #[verifier::type_invariant]
    spec fn inv(&self) -> bool {
        &&& self@.well_formed()
        &&& self@.all_reachable()
        &&& forall|s: int|
            0 <= s < self.input_positions@.len() ==> (#[trigger] self.input_positions@[s]).bound()
                == self.input_positions@[0].bound()
    }

    /// The bound below which the positions of all states lie.
    pub closed spec fn bound(&self) -> int {
        self.input_positions@[0].bound()
    }

    /// Puts an automaton together.
    pub(crate) fn assemble(
        accepting_states: Vec<bool>,
        transitions: TransitionTable,
        input_positions: Vec<PositionSet>,
        inputs: Vec<Input>,
    ) -> (r: DFA)
        requires
            (DfaView {
                starting_state: 0,
                accepting: accepting_states@,
                transitions: transitions@,
                positions: set_views(input_positions@),
                inputs: input_views(inputs@),
            }).well_formed(),
            (DfaView {
                starting_state: 0,
                accepting: accepting_states@,
                transitions: transitions@,
                positions: set_views(input_positions@),
                inputs: input_views(inputs@),
            }).all_reachable(),
            forall|s: int|
                0 <= s < input_positions@.len() ==> (#[trigger] input_positions@[s]).bound()
                    == input_positions@[0].bound(),
        ensures
            r@ == (DfaView {
                starting_state: 0,
                accepting: accepting_states@,
                transitions: transitions@,
                positions: set_views(input_positions@),
                inputs: input_views(inputs@),
            }),
            r.bound() == input_positions@[0].bound(),
    {
        DFA { starting_state: 0, accepting_states, transitions, input_positions, inputs }
    }

    /// The number of states, which is not `0`. The automaton is well formed
    /// and all its states are reached from the start state.
    pub fn states(&self) -> (r: usize)
        ensures
            r == self@.states(),
            self@.well_formed(),
            self@.all_reachable(),
    {
        proof {
            use_type_invariant(self);
        }
        self.accepting_states.len()
    }

    /// The start state, `0`.
    pub fn starting_state(&self) -> (r: StateId)
        ensures
            r == self@.starting_state,
            r == 0,
    {
        proof {
            use_type_invariant(self);
        }
        self.starting_state
    }

    /// Whether `s` is a state in which a command line may end.
    pub fn is_accepting(&self, s: StateId) -> (r: bool)
        ensures
            r == (s < self@.states() && self@.accepting[s as int]),
    {
        s < self.accepting_states.len() && self.accepting_states[s]
    }

    /// The number of labels.
    pub fn labels(&self) -> (r: usize)
        ensures
            r == self@.inputs.len(),
    {
        self.inputs.len()
    }

    /// The label numbered `a`.
    pub fn label(&self, a: usize) -> (r: &Input)
        requires
            a < self@.inputs.len(),
        ensures
            r@ == self@.inputs[a as int],
    {
        &self.inputs[a]
    }

    /// The state to which the transition from `s` under the label numbered
    /// `a` leads, if there is such a transition.
    pub fn target(&self, s: StateId, a: usize) -> (r: Option<StateId>)
        ensures
            r == (if self@.has(s, a) {
                Some(self@.next(s, a))
            } else {
                None
            }),
            r matches Some(t) ==> s < self@.states() && a < self@.inputs.len() && t < self@.states(),
    {
        proof {
            use_type_invariant(self);
        }
        let r = self.transitions.get(s, a);
        proof {
            if r is Some {
                assert(self@.has(s, a));
            }
        }
        r
    }

    /// The positions of the expression that the state `s` stands for.
    pub fn positions(&self, s: StateId) -> (r: &PositionSet)
        requires
            s < self@.states(),
        ensures
            r@ == self@.positions[s as int],
            r.bound() == self.bound(),
    {
        proof {
            use_type_invariant(self);
        }
        &self.input_positions[s]
    }

    /// The transitions from the state `s`: the number of each one's label
    /// and the state to which it leads, by ascending numbers.
    pub fn get_transitions_from(&self, s: StateId) -> (r: Vec<(usize, StateId)>)
        ensures
            forall|i: int|
                0 <= i < r@.len() ==> self@.has(s, (#[trigger] r@[i]).0) && self@.next(s, r@[i].0)
                    == r@[i].1,
            forall|a: usize| #[trigger]
                self@.has(s, a) ==> exists|i: int| 0 <= i < r@.len() && (#[trigger] r@[i]).0 == a,
            forall|i: int, j: int| 0 <= i < j < r@.len() ==> (#[trigger] r@[i]).0 < (#[trigger] r@[j]).0,
    {
        proof {
            use_type_invariant(self);
        }
        let mut out: Vec<(usize, StateId)> = Vec::new();
        let mut a: usize = 0;
        while a < self.inputs.len()
            invariant
                a <= self.inputs@.len(),
                forall|i: int|
                    0 <= i < out@.len() ==> self@.has(s, (#[trigger] out@[i]).0) && self@.next(s, out@[i].0)
                        == out@[i].1 && out@[i].0 < a,
                forall|b: usize|
                    b < a && #[trigger] self@.has(s, b) ==> exists|i: int|
                        0 <= i < out@.len() && (#[trigger] out@[i]).0 == b,
                forall|i: int, j: int|
                    0 <= i < j < out@.len() ==> (#[trigger] out@[i]).0 < (#[trigger] out@[j]).0,
            decreases self.inputs@.len() - a,
        {
            let ghost before = out@;
            match self.target(s, a) {
                Some(t) => {
                    out.push((a, t));
                    proof {
                        assert forall|b: usize| b < a + 1 && #[trigger] self@.has(s, b) implies exists|i: int|
                            0 <= i < out@.len() && (#[trigger] out@[i]).0 == b by {
                            if b < a {
                                let i = choose|i: int| 0 <= i < before.len() && (#[trigger] before[i]).0 == b;
                                assert(out@[i].0 == b);
                            } else {
                                assert(out@[out@.len() - 1].0 == b);
                            }
                        }
                    }
                },
                None => {},
            }
            a += 1;
        }
        proof {
            assert forall|b: usize| #[trigger] self@.has(s, b) implies exists|i: int|
                0 <= i < out@.len() && (#[trigger] out@[i]).0 == b by {
                assert(b < self@.inputs.len());
            }
        }
        out
    }
}

} // verus!
