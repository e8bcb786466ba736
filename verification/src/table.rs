//! The table of an automaton's transitions.

use vstd::prelude::*;

verus! {

/// A finite map from `(state, symbol)` to the state that the transition
/// leads to, kept in a `hashbrown::HashMap`.
///
/// The map itself is hidden from the verifier; [`table_contents`] names what
/// it holds, and the three functions below are the only way to it.
#[verifier::external_body]
pub struct TransitionTable {
    map: hashbrown::HashMap<(usize, usize), usize>,
}

/// The pairs that a transition table holds.
pub uninterp spec fn table_contents(t: TransitionTable) -> Map<(usize, usize), usize>;

/// The table without any transition.
pub open spec fn empty_table() -> Map<(usize, usize), usize> {
    Map::empty()
}

impl View for TransitionTable {
    type V = Map<(usize, usize), usize>;

    open spec fn view(&self) -> Map<(usize, usize), usize> {
        table_contents(*self)
    }
}

impl TransitionTable {
    /// Calls `hashbrown::HashMap::new`: the new table holds nothing.
    #[verifier::external_body]
    pub(crate) fn new() -> (t: TransitionTable)
        ensures
            table_contents(t) == empty_table(),
    {
        TransitionTable { map: hashbrown::HashMap::new() }
    }

    /// Calls `hashbrown::HashMap::insert`: afterwards the key leads to `to`,
    /// every other key is as before, and the value that the key led to
    /// before, if any, is returned.
    #[verifier::external_body]
    pub(crate) fn insert(&mut self, from: usize, symbol: usize, to: usize) -> (previous: Option<usize>)
        ensures
            table_contents(*final(self)) == table_contents(*old(self)).insert((from, symbol), to),
            previous == (if table_contents(*old(self)).contains_key((from, symbol)) {
                Some(table_contents(*old(self))[(from, symbol)])
            } else {
                None
            }),
    {
        self.map.insert((from, symbol), to)
    }

    /// Calls `hashbrown::HashMap::get`: the value stored under the key, or
    /// `None` where the table has no such key.
    #[verifier::external_body]
    pub(crate) fn get(&self, from: usize, symbol: usize) -> (target: Option<usize>)
        ensures
            target == (if table_contents(*self).contains_key((from, symbol)) {
                Some(table_contents(*self)[(from, symbol)])
            } else {
                None
            }),
    {
        self.map.get(&(from, symbol)).copied()
    }
}


} // verus!
