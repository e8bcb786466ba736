//! Minimization: the states that behave alike are made one.

use crate::counting::lemma_distinct_bounded;
use crate::dfa::{follow, set_views, DfaView, DFA};
use crate::posset::PositionSet;
use crate::regex::{input_views, Input};
use crate::table::TransitionTable;
use crate::StateId;
use vstd::prelude::*;

verus! {

/// Whether the states `s` and `t` are in the same block and behave alike
/// under every label: both have a transition or neither has, and the
/// transitions lead to the same block.
pub open spec fn same_signature(d: DfaView, block: Seq<StateId>, s: StateId, t: StateId) -> bool {
    &&& block[s as int] == block[t as int]
    &&& forall|a: usize| a < d.inputs.len() ==> (#[trigger] d.has(s, a) <==> d.has(t, a))
    &&& forall|a: usize|
        a < d.inputs.len() && #[trigger] d.has(s, a) && d.has(t, a) ==> block[d.next(s, a) as int]
            == block[d.next(t, a) as int]
}

/// Whether `block` tells for each state of `d` its block, and `reps` for each
/// block its first state: the blocks are numbered by their first states, and
/// the states of a block are accepting or not together.
pub open spec fn is_partition(d: DfaView, block: Seq<StateId>, reps: Seq<StateId>) -> bool {
    &&& block.len() == d.states()
    &&& forall|s: int|
        0 <= s < block.len() ==> (#[trigger] block[s]) < reps.len() && reps[block[s] as int] <= s
    &&& forall|b: int|
        0 <= b < reps.len() ==> (#[trigger] reps[b]) < block.len() && block[reps[b] as int] == b
    &&& forall|b: int, c: int| 0 <= b < c < reps.len() ==> #[trigger] reps[b] < #[trigger] reps[c]
    &&& forall|s: int, t: int|
        0 <= s < block.len() && 0 <= t < block.len() && #[trigger] block[s] == #[trigger] block[t]
            ==> d.accepting[s] == d.accepting[t]
}

/// Whether no block can be split: each state behaves like the first state of
/// its block.
pub open spec fn is_stable(d: DfaView, block: Seq<StateId>, reps: Seq<StateId>) -> bool {
    forall|s: StateId|
        s < block.len() ==> #[trigger] same_signature(d, block, reps[block[s as int] as int], s)
}

/// The automaton whose states are the blocks: a block is accepting where its
/// states are, has a transition where its states have one, to the block of
/// the states to which theirs lead, and stands for the positions of all its
/// states.
pub open spec fn quotient(d: DfaView, block: Seq<StateId>, reps: Seq<StateId>) -> DfaView {
    DfaView {
        starting_state: 0,
        accepting: Seq::new(reps.len(), |b: int| d.accepting[reps[b] as int]),
        transitions: Map::new(
            |k: (StateId, usize)| k.0 < reps.len() && d.has(reps[k.0 as int], k.1),
            |k: (StateId, usize)| block[d.next(reps[k.0 as int], k.1) as int],
        ),
        positions: Seq::new(
            reps.len(),
            |b: int|
                Set::new(
                    |p: int|
                        exists|s: int|
                            0 <= s < block.len() && #[trigger] block[s] == b && d.positions[s].contains(p),
                ),
        ),
        inputs: d.inputs,
    }
}

/// Whether states that `other` puts into one block are in one block of
/// `block`.
pub open spec fn finer_than(other: Seq<StateId>, block: Seq<StateId>) -> bool {
    forall|s: int, t: int|
        0 <= s < block.len() && 0 <= t < block.len() && #[trigger] other[s] == #[trigger] other[t]
            ==> block[s] == block[t]
}

/// Whether `block` parts no states that need not be parted: every partition
/// of `d` that cannot be split is finer.
pub open spec fn coarsest(d: DfaView, block: Seq<StateId>) -> bool {
    forall|other: Seq<StateId>, firsts: Seq<StateId>|
        is_partition(d, other, firsts) && #[trigger] is_stable(d, other, firsts) ==> finer_than(
            other,
            block,
        )
}

/// Whether `m` is `d` with the states that behave alike made one, and no
/// others: the automaton of the blocks of the coarsest partition that cannot
/// be split.
pub open spec fn minimizes(m: DfaView, d: DfaView) -> bool {
    exists|block: Seq<StateId>, reps: Seq<StateId>|
        is_partition(d, block, reps) && is_stable(d, block, reps) && coarsest(d, block) && m
            == #[trigger] quotient(d, block, reps)
}

/// Splitting a partition that parts no states that need not be parted gives
/// such a partition.
pub proof fn lemma_refine_coarsest(d: DfaView, block: Seq<StateId>, finer: Seq<StateId>)
    requires
        d.well_formed(),
        d.states() <= usize::MAX,
        block.len() == d.states(),
        coarsest(d, block),
        refines(d, block, finer),
    ensures
        coarsest(d, finer),
{
    assert forall|other: Seq<StateId>, firsts: Seq<StateId>|
        is_partition(d, other, firsts) && #[trigger] is_stable(d, other, firsts) implies finer_than(
        other,
        finer,
    ) by {
        assert(finer_than(other, block));
        assert forall|s: int, t: int|
            0 <= s < finer.len() && 0 <= t < finer.len() && #[trigger] other[s] == #[trigger] other[t] implies finer[s]
            == finer[t] by {
            let u = s as StateId;
            let v = t as StateId;
            let r = firsts[other[s] as int];
            assert(same_signature(d, other, r, u));
            assert(same_signature(d, other, firsts[other[t] as int], v));
            lemma_signature_symmetric(d, other, r, u);
            lemma_signature_transitive(d, other, u, r, v);
            assert(same_signature(d, block, u, v)) by {
                assert(block[s] == block[t]);
                assert forall|a: usize| a < d.inputs.len() implies (#[trigger] d.has(u, a) <==> d.has(v, a)) by {}
                assert forall|a: usize| a < d.inputs.len() && #[trigger] d.has(u, a) && d.has(v, a) implies block[d.next(
                    u,
                    a,
                ) as int] == block[d.next(v, a) as int] by {
                    assert(other[d.next(u, a) as int] == other[d.next(v, a) as int]);
                    assert(d.next(u, a) < d.states() && d.next(v, a) < d.states());
                }
            }
            assert(finer[u as int] == finer[v as int] <==> same_signature(d, block, u, v));
        }
    }
}


/// Behaving alike is symmetric.
pub proof fn lemma_signature_symmetric(d: DfaView, block: Seq<StateId>, s: StateId, t: StateId)
    requires
        same_signature(d, block, s, t),
    ensures
        same_signature(d, block, t, s),
{
    assert forall|a: usize| a < d.inputs.len() implies (#[trigger] d.has(t, a) <==> d.has(s, a)) by {
        assert(d.has(s, a) <==> d.has(t, a));
    }
    assert forall|a: usize| a < d.inputs.len() && #[trigger] d.has(t, a) && d.has(s, a) implies block[d.next(
        t,
        a,
    ) as int] == block[d.next(s, a) as int] by {
        assert(d.has(s, a));
    }
}

/// Behaving alike is transitive.
pub proof fn lemma_signature_transitive(d: DfaView, block: Seq<StateId>, s: StateId, t: StateId, u: StateId)
    requires
        same_signature(d, block, s, t),
        same_signature(d, block, t, u),
    ensures
        same_signature(d, block, s, u),
{
    assert forall|a: usize| a < d.inputs.len() implies (#[trigger] d.has(s, a) <==> d.has(u, a)) by {
        assert(d.has(s, a) <==> d.has(t, a));
        assert(d.has(t, a) <==> d.has(u, a));
    }
    assert forall|a: usize| a < d.inputs.len() && #[trigger] d.has(s, a) && d.has(u, a) implies block[d.next(
        s,
        a,
    ) as int] == block[d.next(u, a) as int] by {
        assert(d.has(s, a) <==> d.has(t, a));
        assert(d.has(t, a));
    }
}

/// Whether the states `s` and `t` behave alike.
fn same_sig(dfa: &DFA, block: &Vec<StateId>, s: StateId, t: StateId) -> (r: bool)
    requires
        block@.len() == dfa@.states(),
        s < block@.len(),
        t < block@.len(),
    ensures
        r == same_signature(dfa@, block@, s, t),
{
    if block[s] != block[t] {
        return false;
    }
    let m = dfa.labels();
    let n = dfa.states();
    let mut a: usize = 0;
    while a < m
        invariant
            a <= m,
            m == dfa@.inputs.len(),
            n == dfa@.states(),
            block@.len() == n,
            s < n,
            t < n,
            block@[s as int] == block@[t as int],
            forall|b: usize| b < a ==> (#[trigger] dfa@.has(s, b) <==> dfa@.has(t, b)),
            forall|b: usize|
                b < a && #[trigger] dfa@.has(s, b) && dfa@.has(t, b) ==> block@[dfa@.next(s, b) as int]
                    == block@[dfa@.next(t, b) as int],
        decreases m - a,
    {
        let x = dfa.target(s, a);
        let y = dfa.target(t, a);
        match (x, y) {
            (None, None) => {},
            (Some(u), Some(v)) => {
                if block[u] != block[v] {
                    assert(dfa@.has(s, a) && dfa@.has(t, a));
                    return false;
                }
            },
            _ => {
                assert(dfa@.has(s, a) != dfa@.has(t, a));
                return false;
            },
        }
        a += 1;
    }
    true
}

/// The partition into the states that are accepting and those that are not.
fn initial_partition(dfa: &DFA) -> (r: (Vec<StateId>, Vec<StateId>))
    ensures
        is_partition(dfa@, r.0@, r.1@),
        coarsest(dfa@, r.0@),
{
    let n = dfa.states();
    let first = dfa.is_accepting(0);
    let mut block: Vec<StateId> = Vec::new();
    let mut reps: Vec<StateId> = Vec::new();
    reps.push(0);
    block.push(0);
    let mut s: usize = 1;
    while s < n
        invariant
            1 <= s <= n,
            n == dfa@.states(),
            first == dfa@.accepting[0],
            block@.len() == s,
            1 <= reps@.len() <= 2,
            reps@[0] == 0,
            block@[0] == 0,
            forall|u: int|
                0 <= u < s ==> (#[trigger] block@[u]) < reps@.len() && reps@[block@[u] as int] <= u && (block@[u]
                    == 0 <==> dfa@.accepting[u] == first),
            reps@.len() == 2 ==> 0 < reps@[1] < s && block@[reps@[1] as int] == 1,
        decreases n - s,
    {
        if dfa.is_accepting(s) == first {
            block.push(0);
        } else {
            if reps.len() == 1 {
                reps.push(s);
            }
            block.push(1);
        }
        s += 1;
    }
    proof {
        assert forall|b: int| 0 <= b < reps@.len() implies (#[trigger] reps@[b]) < block@.len() && block@[reps@[b] as int]
            == b by {
            if b == 0 {
            } else {
            }
        }
        assert forall|other: Seq<StateId>, firsts: Seq<StateId>|
            is_partition(dfa@, other, firsts) && #[trigger] is_stable(dfa@, other, firsts) implies finer_than(
            other,
            block@,
        ) by {
            assert forall|u: int, v: int|
                0 <= u < block@.len() && 0 <= v < block@.len() && #[trigger] other[u] == #[trigger] other[v] implies block@[u]
                == block@[v] by {
                assert(dfa@.accepting[u] == dfa@.accepting[v]);
                assert(block@[u] == 0 <==> dfa@.accepting[u] == first);
                assert(block@[v] == 0 <==> dfa@.accepting[v] == first);
                assert(block@[u] < 2 && block@[v] < 2);
            }
        }
    }
    (block, reps)
}

/// Whether no block can be split.
fn check_stable(dfa: &DFA, block: &Vec<StateId>, reps: &Vec<StateId>) -> (r: bool)
    requires
        is_partition(dfa@, block@, reps@),
    ensures
        r == is_stable(dfa@, block@, reps@),
{
    let n = dfa.states();
    let mut s: usize = 0;
    while s < n
        invariant
            s <= n,
            n == dfa@.states(),
            is_partition(dfa@, block@, reps@),
            forall|u: StateId|
                u < s ==> #[trigger] same_signature(dfa@, block@, reps@[block@[u as int] as int], u),
        decreases n - s,
    {
        assert(block@[s as int] < reps@.len());
        assert(reps@[block@[s as int] as int] < block@.len());
        if !same_sig(dfa, block, reps[block[s]], s) {
            return false;
        }
        s += 1;
    }
    true
}

/// Whether `finer` splits the blocks of `block` so that its blocks are the
/// states that behave alike.
pub open spec fn refines(d: DfaView, block: Seq<StateId>, finer: Seq<StateId>) -> bool {
    &&& finer.len() == block.len()
    &&& forall|s: StateId, t: StateId|
        s < block.len() && t < block.len() ==> (#[trigger] finer[s as int] == #[trigger] finer[t as int]
            <==> same_signature(d, block, s, t))
}

/// Splits each block into the states that behave alike.
fn refine(dfa: &DFA, block: &Vec<StateId>, reps: &Vec<StateId>) -> (r: (Vec<StateId>, Vec<StateId>))
    requires
        is_partition(dfa@, block@, reps@),
    ensures
        is_partition(dfa@, r.0@, r.1@),
        refines(dfa@, block@, r.0@),
{
    let n = dfa.states();
    let ghost d = dfa@;
    let mut finer: Vec<StateId> = Vec::new();
    let mut firsts: Vec<StateId> = Vec::new();
    let mut s: usize = 0;
    while s < n
        invariant
            s <= n,
            n == d.states(),
            d == dfa@,
            block@.len() == n,
            is_partition(d, block@, reps@),
            finer@.len() == s,
            forall|u: int|
                0 <= u < s ==> (#[trigger] finer@[u]) < firsts@.len() && firsts@[finer@[u] as int] <= u
                    && same_signature(d, block@, firsts@[finer@[u] as int], u as StateId),
            forall|b: int| 0 <= b < firsts@.len() ==> (#[trigger] firsts@[b]) < s && finer@[firsts@[b] as int] == b,
            forall|b: int, c: int| 0 <= b < c < firsts@.len() ==> #[trigger] firsts@[b] < #[trigger] firsts@[c],
            forall|b: int, c: int|
                0 <= b < c < firsts@.len() ==> !same_signature(d, block@, #[trigger] firsts@[b], #[trigger] firsts@[c]),
        decreases n - s,
    {
        let mut b: usize = 0;
        while b < firsts.len() && !same_sig(dfa, block, firsts[b], s)
            invariant
                b <= firsts@.len(),
                s < n,
                n == d.states(),
                d == dfa@,
                block@.len() == n,
                forall|c: int| 0 <= c < firsts@.len() ==> (#[trigger] firsts@[c]) < s,
                forall|c: int| 0 <= c < b ==> !same_signature(d, block@, #[trigger] firsts@[c], s),
            decreases firsts@.len() - b,
        {
            b += 1;
        }
        if b == firsts.len() {
            firsts.push(s);
            proof {
                lemma_signature_reflexive(d, block@, s);
            }
        }
        finer.push(b);
        s += 1;
    }
    proof {
        assert forall|u: StateId, t: StateId| u < n && t < n implies (#[trigger] finer@[u as int] == #[trigger] finer@[t as int]
            <==> same_signature(d, block@, u, t)) by {
            let p = firsts@[finer@[u as int] as int];
            let q = firsts@[finer@[t as int] as int];
            assert(same_signature(d, block@, p, u));
            assert(same_signature(d, block@, q, t));
            lemma_signature_symmetric(d, block@, p, u);
            lemma_signature_symmetric(d, block@, q, t);
            if finer@[u as int] == finer@[t as int] {
                lemma_signature_transitive(d, block@, u, p, t);
            }
            if same_signature(d, block@, u, t) {
                lemma_signature_transitive(d, block@, p, u, t);
                lemma_signature_transitive(d, block@, p, t, q);
                if finer@[u as int] < finer@[t as int] {
                    assert(!same_signature(d, block@, p, q));
                } else if finer@[t as int] < finer@[u as int] {
                    lemma_signature_symmetric(d, block@, p, q);
                    assert(!same_signature(d, block@, q, p));
                }
            }
        }
        assert forall|u: int, t: int|
            0 <= u < finer@.len() && 0 <= t < finer@.len() && #[trigger] finer@[u] == #[trigger] finer@[t] implies d.accepting[u]
            == d.accepting[t] by {
            assert(same_signature(d, block@, u as StateId, t as StateId));
            assert(block@[u] == block@[t]);
        }
    }
    (finer, firsts)
}

/// A state behaves like itself.
pub proof fn lemma_signature_reflexive(d: DfaView, block: Seq<StateId>, s: StateId)
    ensures
        same_signature(d, block, s, s),
{
}

/// A partition has no more blocks than there are states.
pub proof fn lemma_blocks_bounded(d: DfaView, block: Seq<StateId>, reps: Seq<StateId>)
    requires
        is_partition(d, block, reps),
    ensures
        reps.len() <= d.states(),
{
    let firsts = Seq::new(reps.len(), |b: int| reps[b] as int);
    assert forall|b: int, c: int| 0 <= b < c < firsts.len() implies #[trigger] firsts[b] != #[trigger] firsts[c] by {
        assert(reps[b] < reps[c]);
    }
    assert forall|b: int| 0 <= b < firsts.len() implies 0 <= #[trigger] firsts[b] < d.states() by {
        assert(reps[b] < block.len());
    }
    lemma_distinct_bounded(firsts, d.states() as int);
}

/// Splitting a partition in which a block can be split gives more blocks.
pub proof fn lemma_refine_grows(
    d: DfaView,
    block: Seq<StateId>,
    reps: Seq<StateId>,
    finer: Seq<StateId>,
    firsts: Seq<StateId>,
)
    requires
        is_partition(d, block, reps),
        is_partition(d, finer, firsts),
        refines(d, block, finer),
        !is_stable(d, block, reps),
    ensures
        firsts.len() > reps.len(),
{
    let s = choose|s: StateId|
        s < block.len() && !#[trigger] same_signature(d, block, reps[block[s as int] as int], s);
    let ids = Seq::new(
        reps.len() + 1,
        |b: int|
            if b < reps.len() {
                finer[reps[b] as int] as int
            } else {
                finer[s as int] as int
            },
    );
    assert forall|b: int| 0 <= b < ids.len() implies 0 <= #[trigger] ids[b] < firsts.len() by {
        if b < reps.len() {
            assert(reps[b] < block.len());
            assert(finer[reps[b] as int] < firsts.len());
        } else {
            assert(finer[s as int] < firsts.len());
        }
    }
    assert forall|b: int, c: int| 0 <= b < c < ids.len() implies #[trigger] ids[b] != #[trigger] ids[c] by {
        assert(reps[b] < block.len());
        assert(block[reps[b] as int] == b);
        if c < reps.len() {
            assert(reps[c] < block.len());
            assert(block[reps[c] as int] == c);
            assert(!same_signature(d, block, reps[b], reps[c]));
            assert(finer[reps[b] as int] == finer[reps[c] as int] <==> same_signature(
                d,
                block,
                reps[b],
                reps[c],
            ));
        } else {
            assert(finer[reps[b] as int] == finer[s as int] <==> same_signature(d, block, reps[b], s));
            if b != block[s as int] {
                assert(!same_signature(d, block, reps[b], s));
            }
        }
    }
    lemma_distinct_bounded(ids, firsts.len() as int);
}

/// Whether no two states of `m` behave alike: a partition of `m` that cannot
/// be split has each state in a block of its own.
pub open spec fn irreducible(m: DfaView) -> bool {
    forall|other: Seq<StateId>, firsts: Seq<StateId>|
        is_partition(m, other, firsts) && #[trigger] is_stable(m, other, firsts) ==> forall|s: int, t: int|
            0 <= s < t < m.states() ==> #[trigger] other[s] != #[trigger] other[t]
}

/// The blocks of `d` put together as `other` puts the states of the
/// automaton of the blocks together.
pub open spec fn merged(block: Seq<StateId>, other: Seq<StateId>) -> Seq<StateId> {
    Seq::new(block.len(), |u: int| other[block[u] as int])
}

/// The first states of the blocks put together.
pub open spec fn merged_firsts(reps: Seq<StateId>, firsts: Seq<StateId>) -> Seq<StateId> {
    Seq::new(firsts.len(), |c: int| reps[firsts[c] as int])
}

/// Blocks that a partition of the automaton of the blocks puts together
/// make a partition of the automaton, and one that cannot be split if the
/// two cannot.
pub proof fn lemma_merged_partition(
    d: DfaView,
    block: Seq<StateId>,
    reps: Seq<StateId>,
    other: Seq<StateId>,
    firsts: Seq<StateId>,
)
    requires
        d.well_formed(),
        d.states() <= usize::MAX,
        is_partition(d, block, reps),
        is_stable(d, block, reps),
        is_partition(quotient(d, block, reps), other, firsts),
        is_stable(quotient(d, block, reps), other, firsts),
    ensures
        is_partition(d, merged(block, other), merged_firsts(reps, firsts)),
        is_stable(d, merged(block, other), merged_firsts(reps, firsts)),
{
    let m = quotient(d, block, reps);
    let both = merged(block, other);
    let heads = merged_firsts(reps, firsts);
    assert(other.len() == reps.len());
    assert forall|u: int| 0 <= u < both.len() implies (#[trigger] both[u]) < heads.len() && heads[both[u] as int]
        <= u by {
        let b = block[u] as int;
        assert(0 <= b < reps.len());
        let c = other[b] as int;
        assert(firsts[c] <= b);
        if firsts[c] < b {
            assert(reps[firsts[c] as int] < reps[b]);
        }
        assert(reps[b] <= u);
    }
    assert forall|c: int| 0 <= c < heads.len() implies (#[trigger] heads[c]) < both.len() && both[heads[c] as int]
        == c by {
        let b = firsts[c] as int;
        assert(0 <= b < other.len());
        assert(other[b] == c);
        assert(reps[b] < block.len());
        assert(block[reps[b] as int] == b);
    }
    assert forall|c: int, e: int| 0 <= c < e < heads.len() implies #[trigger] heads[c] < #[trigger] heads[e] by {
        assert(firsts[c] < firsts[e]);
        assert(firsts[e] < other.len());
        assert(reps[firsts[c] as int] < reps[firsts[e] as int]);
    }
    assert forall|u: int, v: int|
        0 <= u < both.len() && 0 <= v < both.len() && #[trigger] both[u] == #[trigger] both[v] implies d.accepting[u]
        == d.accepting[v] by {
        let b = block[u] as int;
        let c = block[v] as int;
        assert(0 <= b < reps.len() && 0 <= c < reps.len());
        assert(other[b] == other[c]);
        assert(m.accepting[b] == m.accepting[c]);
        assert(block[reps[b] as int] == block[u]);
        assert(block[reps[c] as int] == block[v]);
        assert(d.accepting[reps[b] as int] == d.accepting[u]);
        assert(d.accepting[reps[c] as int] == d.accepting[v]);
    }
    assert forall|u: StateId| u < both.len() implies #[trigger] same_signature(
        d,
        both,
        heads[both[u as int] as int],
        u,
    ) by {
        let b = block[u as int];
        assert(b < reps.len());
        let c = other[b as int];
        let f = firsts[c as int];
        assert(f < reps.len());
        let r = reps[f as int];
        assert(r < block.len());
        assert(block[r as int] == f);
        assert(heads[both[u as int] as int] == r);
        assert(same_signature(d, block, reps[b as int], u));
        assert(same_signature(m, other, f, b));
        assert(both[r as int] == both[u as int]);
        assert forall|a: usize| a < d.inputs.len() implies (#[trigger] d.has(r, a) <==> d.has(u, a)) by {
            assert(d.has(reps[b as int], a) <==> d.has(u, a));
            assert(m.has(f, a) <==> m.has(b, a));
            assert(m.has(f, a) <==> d.has(r, a));
            assert(m.has(b, a) <==> d.has(reps[b as int], a));
        }
        assert forall|a: usize| a < d.inputs.len() && #[trigger] d.has(r, a) && d.has(u, a) implies both[d.next(
            r,
            a,
        ) as int] == both[d.next(u, a) as int] by {
            assert(d.has(reps[b as int], a) <==> d.has(u, a));
            assert(d.has(reps[b as int], a));
            assert(m.has(f, a) && m.has(b, a));
            assert(other[m.next(f, a) as int] == other[m.next(b, a) as int]);
            assert(m.next(f, a) == block[d.next(r, a) as int]);
            assert(m.next(b, a) == block[d.next(reps[b as int], a) as int]);
            assert(block[d.next(reps[b as int], a) as int] == block[d.next(u, a) as int]);
            assert(d.next(r, a) < d.states() && d.next(u, a) < d.states());
        }
    }
}

/// No two states of the automaton of the blocks of the coarsest partition
/// that cannot be split behave alike.
pub proof fn lemma_quotient_irreducible(d: DfaView, block: Seq<StateId>, reps: Seq<StateId>)
    requires
        d.well_formed(),
        d.states() <= usize::MAX,
        is_partition(d, block, reps),
        is_stable(d, block, reps),
        coarsest(d, block),
    ensures
        irreducible(quotient(d, block, reps)),
{
    let m = quotient(d, block, reps);
    assert forall|other: Seq<StateId>, firsts: Seq<StateId>|
        is_partition(m, other, firsts) && #[trigger] is_stable(m, other, firsts) implies forall|s: int, t: int|
        0 <= s < t < m.states() ==> #[trigger] other[s] != #[trigger] other[t] by {
        lemma_merged_partition(d, block, reps, other, firsts);
        let both = merged(block, other);
        assert(finer_than(both, block));
        assert forall|s: int, t: int| 0 <= s < t < m.states() implies #[trigger] other[s] != #[trigger] other[t] by {
            let u = reps[s] as int;
            let v = reps[t] as int;
            assert(u < block.len() && v < block.len());
            assert(block[u] == s && block[v] == t);
            if other[s] == other[t] {
                assert(both[u] == both[v]);
                assert(block[u] == block[v]);
            }
        }
    }
}

/// The first state is in the first block.
pub proof fn lemma_first_block(d: DfaView, block: Seq<StateId>, reps: Seq<StateId>)
    requires
        d.states() > 0,
        is_partition(d, block, reps),
    ensures
        reps.len() > 0,
        block[0] == 0,
        reps[0] == 0,
{
    let b = block[0] as int;
    assert(reps[b] <= 0);
    if b > 0 {
        assert(reps[0] < reps[b]);
    }
}

/// The automaton of the blocks is well formed.
pub proof fn lemma_quotient_well_formed(d: DfaView, block: Seq<StateId>, reps: Seq<StateId>)
    requires
        d.well_formed(),
        is_partition(d, block, reps),
    ensures
        quotient(d, block, reps).well_formed(),
        quotient(d, block, reps).states() <= d.states(),
{
    let q = quotient(d, block, reps);
    lemma_first_block(d, block, reps);
    lemma_blocks_bounded(d, block, reps);
    assert forall|s: StateId, a: usize| #[trigger] q.has(s, a) implies s < q.states() && a < q.inputs.len()
        && q.next(s, a) < q.states() by {
        let r = reps[s as int];
        assert(d.has(r, a));
        assert(block[d.next(r, a) as int] < reps.len());
    }
}

/// A path in the automaton is a path in the automaton of the blocks, from
/// block to block, and the other way round.
pub proof fn lemma_quotient_follow(
    d: DfaView,
    block: Seq<StateId>,
    reps: Seq<StateId>,
    s: StateId,
    path: Seq<usize>,
)
    requires
        d.well_formed(),
        is_partition(d, block, reps),
        is_stable(d, block, reps),
        s < d.states(),
    ensures
        follow(d.transitions, s, path) matches Some(t) ==> t < d.states() && follow(
            quotient(d, block, reps).transitions,
            block[s as int],
            path,
        ) == Some(block[t as int]),
        follow(d.transitions, s, path) is None ==> follow(
            quotient(d, block, reps).transitions,
            block[s as int],
            path,
        ) is None,
    decreases path.len(),
{
    let q = quotient(d, block, reps);
    if path.len() > 0 {
        let a = path[0];
        let r = reps[block[s as int] as int];
        assert(same_signature(d, block, r, s));
        assert(block[r as int] == block[s as int]);
        if a < d.inputs.len() {
            assert(d.has(r, a) <==> d.has(s, a));
        } else {
            assert(!d.has(r, a));
            assert(!d.has(s, a));
        }
        assert(q.has(block[s as int], a) <==> d.has(r, a));
        if d.has(s, a) {
            assert(d.has(r, a));
            assert(q.next(block[s as int], a) == block[d.next(s, a) as int]);
            lemma_quotient_follow(d, block, reps, d.next(s, a), path.drop_first());
        }
    }
}

/// The automaton of the blocks accepts what the automaton accepts, and all
/// its states are reached.
pub proof fn lemma_quotient_language(d: DfaView, block: Seq<StateId>, reps: Seq<StateId>)
    requires
        d.well_formed(),
        d.all_reachable(),
        is_partition(d, block, reps),
        is_stable(d, block, reps),
    ensures
        quotient(d, block, reps).all_reachable(),
        forall|path: Seq<usize>| #[trigger]
            quotient(d, block, reps).accepts_path(path) == d.accepts_path(path),
        forall|words: Seq<Seq<char>>| #[trigger]
            quotient(d, block, reps).accepts(words) == d.accepts(words),
{
    let q = quotient(d, block, reps);
    lemma_first_block(d, block, reps);
    assert forall|b: StateId| b < q.states() implies #[trigger] q.reachable(b) by {
        let r = reps[b as int];
        assert(d.reachable(r));
        let path = choose|path: Seq<usize>| d.follow(d.starting_state, path) == Some(r);
        lemma_quotient_follow(d, block, reps, 0, path);
        assert(q.follow(q.starting_state, path) == Some(b));
    }
    assert forall|path: Seq<usize>| #[trigger] q.accepts_path(path) == d.accepts_path(path) by {
        lemma_quotient_follow(d, block, reps, 0, path);
        if follow(d.transitions, 0, path) is Some {
            let t = follow(d.transitions, 0, path)->Some_0;
            let b = block[t as int];
            assert(b < reps.len());
            assert(block[reps[b as int] as int] == block[t as int]);
        }
    }
    assert forall|words: Seq<Seq<char>>| #[trigger] q.accepts(words) == d.accepts(words) by {
        if q.accepts(words) {
            let path = choose|path: Seq<usize>| q.spells(path, words) && q.accepts_path(path);
            assert(d.spells(path, words) && d.accepts_path(path));
        }
        if d.accepts(words) {
            let path = choose|path: Seq<usize>| d.spells(path, words) && d.accepts_path(path);
            assert(q.spells(path, words) && q.accepts_path(path));
        }
    }
}

/// An automaton and the automaton with its states that behave alike made
/// one accept the same command lines.
pub proof fn lemma_minimized_language(d: DfaView, m: DfaView, words: Seq<Seq<char>>)
    requires
        d.well_formed(),
        d.all_reachable(),
        minimizes(m, d),
    ensures
        m.accepts(words) <==> d.accepts(words),
{
    let (block, reps) = choose|block: Seq<StateId>, reps: Seq<StateId>|
        is_partition(d, block, reps) && is_stable(d, block, reps) && coarsest(d, block) && m
            == #[trigger] quotient(d, block, reps);
    lemma_quotient_language(d, block, reps);
}

/// The positions of all the states of the block `b`.
fn block_positions(dfa: &DFA, block: &Vec<StateId>, b: StateId, first: StateId) -> (r: PositionSet)
    requires
        block@.len() == dfa@.states(),
        first < dfa@.states(),
    ensures
        r.bound() == dfa.bound(),
        r@ == Set::new(
            |p: int|
                exists|s: int|
                    0 <= s < block@.len() && #[trigger] block@[s] == b && dfa@.positions[s].contains(p),
        ),
{
    let n = dfa.states();
    let mut acc = PositionSet::empty(dfa.positions(first).bits.len());
    let mut s: usize = 0;
    while s < n
        invariant
            s <= n,
            n == dfa@.states(),
            block@.len() == n,
            acc.bound() == dfa.bound(),
            forall|p: int|
                acc@.contains(p) <==> exists|t: int|
                    0 <= t < s && #[trigger] block@[t] == b && dfa@.positions[t].contains(p),
        decreases n - s,
    {
        let ghost before = acc@;
        if block[s] == b {
            acc.union_with(dfa.positions(s));
        }
        proof {
            assert forall|p: int|
                acc@.contains(p) <==> exists|t: int|
                    0 <= t < s + 1 && #[trigger] block@[t] == b && dfa@.positions[t].contains(p) by {
                if before.contains(p) {
                    let t = choose|t: int|
                        0 <= t < s && #[trigger] block@[t] == b && dfa@.positions[t].contains(p);
                    assert(0 <= t < s + 1 && block@[t] == b && dfa@.positions[t].contains(p));
                }
                if block@[s as int] == b && dfa@.positions[s as int].contains(p) {
                    assert(0 <= s < s + 1 && block@[s as int] == b && dfa@.positions[s as int].contains(p));
                }
                if exists|t: int| 0 <= t < s + 1 && #[trigger] block@[t] == b && dfa@.positions[t].contains(p) {
                    let t = choose|t: int|
                        0 <= t < s + 1 && #[trigger] block@[t] == b && dfa@.positions[t].contains(p);
                    if t < s {
                        assert(0 <= t < s && block@[t] == b && dfa@.positions[t].contains(p));
                    }
                }
            }
        }
        s += 1;
    }
    assert(acc@ =~= Set::new(
        |p: int|
            exists|s: int| 0 <= s < block@.len() && #[trigger] block@[s] == b && dfa@.positions[s].contains(p),
    ));
    acc
}

/// The transitions of the automaton of the blocks.
fn block_transitions(dfa: &DFA, block: &Vec<StateId>, reps: &Vec<StateId>) -> (table: TransitionTable)
    requires
        is_partition(dfa@, block@, reps@),
    ensures
        table@ == quotient(dfa@, block@, reps@).transitions,
{
    let m = dfa.labels();
    let n = dfa.states();
    let ghost d = dfa@;
    let ghost want = quotient(d, block@, reps@).transitions;
    let mut table = TransitionTable::new();
    let mut b: usize = 0;
    while b < reps.len()
        invariant
            b <= reps@.len(),
            d.well_formed(),
            m == d.inputs.len(),
            d == dfa@,
            is_partition(d, block@, reps@),
            want == quotient(d, block@, reps@).transitions,
            forall|k: (StateId, usize)| #[trigger]
                table@.contains_key(k) <==> k.0 < b && want.contains_key(k),
            forall|k: (StateId, usize)| #[trigger] table@.contains_key(k) ==> table@[k] == want[k],
        decreases reps@.len() - b,
    {
        let mut a: usize = 0;
        while a < m
            invariant
                b < reps@.len(),
                a <= m,
                m == d.inputs.len(),
                d == dfa@,
                is_partition(d, block@, reps@),
                want == quotient(d, block@, reps@).transitions,
                forall|k: (StateId, usize)| #[trigger]
                    table@.contains_key(k) <==> (k.0 < b || (k.0 == b && k.1 < a)) && want.contains_key(k),
                forall|k: (StateId, usize)| #[trigger] table@.contains_key(k) ==> table@[k] == want[k],
            decreases m - a,
        {
            assert(reps@[b as int] < block@.len());
            let ghost before = table@;
            match dfa.target(reps[b], a) {
                Some(t) => {
                    table.insert(b, a, block[t]);
                    assert(want.contains_key((b, a)));
                    assert(want[(b, a)] == block@[t as int]);
                },
                None => {
                    assert(!want.contains_key((b, a)));
                },
            }
            proof {
                assert forall|k: (StateId, usize)| #[trigger]
                    table@.contains_key(k) <==> (k.0 < b || (k.0 == b && k.1 < a + 1)) && want.contains_key(
                        k,
                    ) by {
                    if k != (b, a) {
                        assert(before.contains_key(k) <==> (k.0 < b || (k.0 == b && k.1 < a))
                            && want.contains_key(k));
                    }
                }
                assert forall|k: (StateId, usize)| #[trigger] table@.contains_key(k) implies table@[k]
                    == want[k] by {
                    if k != (b, a) {
                        assert(before.contains_key(k));
                    }
                }
            }
            a += 1;
        }
        proof {
            assert forall|k: (StateId, usize)| #[trigger]
                table@.contains_key(k) <==> k.0 < b + 1 && want.contains_key(k) by {
                if k.0 == b && want.contains_key(k) {
                    assert(d.has(reps@[b as int], k.1));
                    assert(k.1 < m);
                }
            }
        }
        b += 1;
    }
    assert(table@ =~= want);
    table
}

impl DFA {
    /// Makes one state of the states that behave alike: first the accepting
    /// states are parted from the others, then each block is split for as
    /// long as some label leads its states to different blocks or leads on
    /// from some of them only.
    pub fn minimize(&self) -> (r: DFA)
        ensures
            minimizes(r@, self@),
            irreducible(r@),
            r@.well_formed(),
            r@.all_reachable(),
            r@.inputs == self@.inputs,
            r@.states() <= self@.states(),
            forall|path: Seq<usize>| #[trigger] r@.accepts_path(path) == self@.accepts_path(path),
            forall|words: Seq<Seq<char>>| #[trigger] r@.accepts(words) == self@.accepts(words),
    {
        let n = self.states();
        let ghost d = self@;
        let (mut block, mut reps) = initial_partition(self);
        proof {
            lemma_blocks_bounded(d, block@, reps@);
        }
        loop
            invariant
                d == self@,
                d.well_formed(),
                n == d.states(),
                is_partition(d, block@, reps@),
                coarsest(d, block@),
                reps@.len() <= n,
            ensures
                is_partition(d, block@, reps@),
                is_stable(d, block@, reps@),
                coarsest(d, block@),
            decreases n - reps@.len(),
        {
            if check_stable(self, &block, &reps) {
                break ;
            }
            let (finer, firsts) = refine(self, &block, &reps);
            proof {
                lemma_refine_grows(d, block@, reps@, finer@, firsts@);
                lemma_blocks_bounded(d, finer@, firsts@);
                lemma_refine_coarsest(d, block@, finer@);
            }
            block = finer;
            reps = firsts;
        }
        proof {
            lemma_first_block(d, block@, reps@);
            lemma_quotient_well_formed(d, block@, reps@);
            lemma_quotient_language(d, block@, reps@);
            lemma_quotient_irreducible(d, block@, reps@);
        }
        let table = block_transitions(self, &block, &reps);
        let mut accepting: Vec<bool> = Vec::new();
        let mut positions: Vec<PositionSet> = Vec::new();
        let mut b: usize = 0;
        while b < reps.len()
            invariant
                b <= reps@.len(),
                d == self@,
                n == d.states(),
                is_partition(d, block@, reps@),
                accepting@.len() == b,
                positions@.len() == b,
                forall|c: int| 0 <= c < b ==> #[trigger] accepting@[c] == d.accepting[reps@[c] as int],
                forall|c: int|
                    0 <= c < b ==> (#[trigger] positions@[c]).bound() == self.bound() && positions@[c]@
                        == quotient(d, block@, reps@).positions[c],
            decreases reps@.len() - b,
        {
            assert(reps@[b as int] < block@.len());
            accepting.push(self.is_accepting(reps[b]));
            positions.push(block_positions(self, &block, b, reps[b]));
            b += 1;
        }
        let m = self.labels();
        let mut inputs: Vec<Input> = Vec::new();
        let mut a: usize = 0;
        while a < m
            invariant
                a <= m,
                m == self@.inputs.len(),
                inputs@.len() == a,
                forall|c: int| 0 <= c < a ==> (#[trigger] inputs@[c])@ == self@.inputs[c],
            decreases m - a,
        {
            inputs.push(self.label(a).duplicate());
            a += 1;
        }
        proof {
            let q = quotient(d, block@, reps@);
            assert(accepting@ =~= q.accepting);
            assert(set_views(positions@) =~= q.positions);
            assert(input_views(inputs@) =~= q.inputs);
        }
        DFA::assemble(accepting, table, positions, inputs)
    }
}

} // verus!
