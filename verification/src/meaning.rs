//! What an expression allows, and that its automaton accepts just that.

use crate::augment::{augmented, AugmentedRegexView};
use crate::construct::built_from;
use crate::dfa::DfaView;
use crate::grammar::ExprView;
use crate::language::{lemma_accepts_walks, walks, walks_through};
use crate::regex::{
    firstpos, followpos, lastpos, leaves, leaves_of, numbered, takes, InputView, MatchAnythingView,
    RegexView,
};
use crate::traces::{
    laid, lemma_local_trace, lemma_trace_local, local, repeated_trace, sequence_trace, size, sizes, trace,
};
use vstd::prelude::*;

verus! {

/// Whether the command line `words` is one that the expression `e` allows:
/// a literal allows its token, a nonterminal or a command one word whatever
/// it is, a sequence what its members allow one after the other, an
/// alternative what one of its members allows, an optional expression
/// nothing or what it allows, a repetition what the expression allows once
/// or more often.
pub open spec fn allows(e: ExprView, words: Seq<Seq<char>>) -> bool
    decreases e, 0nat,
{
    match e {
        ExprView::Literal(t) => words.len() == 1 && words[0] == t,
        ExprView::Described(t, _) => words.len() == 1 && words[0] == t,
        ExprView::Variable(_) => words.len() == 1,
        ExprView::Command(_) => words.len() == 1,
        ExprView::Sequence(cs) => sequence_allows(cs, 0, words),
        ExprView::Alternative(cs) => exists|i: int| 0 <= i < cs.len() && allows(#[trigger] cs[i], words),
        ExprView::Optional(c) => words.len() == 0 || allows(*c, words),
        ExprView::Many1(c) => repeated_allows(*c, words),
    }
}

/// Whether `words` is what the members `cs[j..]` allow one after the other.
pub open spec fn sequence_allows(cs: Seq<ExprView>, j: nat, words: Seq<Seq<char>>) -> bool
    decreases cs, cs.len() - j + 1,
{
    if j >= cs.len() {
        words.len() == 0
    } else {
        exists|k: int|
            0 <= k <= words.len() && allows(cs[j as int], #[trigger] words.take(k)) && sequence_allows(
                cs,
                j + 1,
                words.skip(k),
            )
    }
}

/// Whether `words` is what `c` allows, once or more often.
pub open spec fn repeated_allows(c: ExprView, words: Seq<Seq<char>>) -> bool
    decreases c, words.len() + 1,
{
    allows(c, words) || exists|k: int|
        0 < k < words.len() && allows(c, #[trigger] words.take(k)) && repeated_allows(c, words.skip(k))
}

/// Whether the inputs of the leaves `ps` are taken, one by one, by `words`.
pub open spec fn taken(inputs: Seq<InputView>, ps: Seq<int>, words: Seq<Seq<char>>) -> bool {
    &&& ps.len() == words.len()
    &&& forall|i: int|
        0 <= i < ps.len() ==> 0 <= #[trigger] ps[i] < inputs.len() && takes(inputs[ps[i]], words[i])
}

/// Whether `inputs` holds the inputs of the leaves of `e` from `first` on.
pub open spec fn holds(inputs: Seq<InputView>, first: int, e: ExprView) -> bool {
    &&& 0 <= first
    &&& first + leaves(e).len() <= inputs.len()
    &&& forall|k: int| 0 <= k < leaves(e).len() ==> inputs[first + k] == #[trigger] leaves(e)[k]
}

/// Whether `inputs` holds the inputs of the leaves of the first `n` of `cs`
/// from `first` on.
pub open spec fn holds_all(inputs: Seq<InputView>, first: int, cs: Seq<ExprView>, n: nat) -> bool {
    &&& 0 <= first
    &&& first + leaves_of(cs, n).len() <= inputs.len()
    &&& forall|k: int| 0 <= k < leaves_of(cs, n).len() ==> inputs[first + k] == #[trigger] leaves_of(cs, n)[k]
}

/// The members of `cs` numbered one after the other from `first` on.
pub open spec fn numbered_all(cs: Seq<ExprView>, first: int) -> Seq<RegexView> {
    Seq::new(cs.len(), |i: int| numbered(cs[i], first + leaves_of(cs, i as nat).len()))
}

/// Where the inputs of the leaves of the first `n` members are held, those
/// of each of them are.
pub proof fn lemma_holds_member(inputs: Seq<InputView>, first: int, cs: Seq<ExprView>, n: nat, j: int)
    requires
        0 <= j < n <= cs.len(),
        holds_all(inputs, first, cs, n),
    ensures
        holds(inputs, first + leaves_of(cs, j as nat).len(), cs[j]),
    decreases n,
{
    let all = leaves_of(cs, n);
    let before = leaves_of(cs, (n - 1) as nat);
    let last = leaves(cs[n - 1]);
    assert(all == before + last);
    if j == n - 1 {
        assert forall|k: int| 0 <= k < last.len() implies inputs[first + before.len() + k] == #[trigger] last[k] by {
            assert(all[before.len() + k] == last[k]);
        }
    } else {
        assert forall|k: int| 0 <= k < before.len() implies inputs[first + k] == #[trigger] before[k] by {
            assert(all[k] == before[k]);
        }
        lemma_holds_member(inputs, first, cs, (n - 1) as nat, j);
    }
}

/// An expression whose leaves are numbered from `first` on is laid from
/// `first` on, and has as many leaves as before.
pub proof fn lemma_numbered_laid(e: ExprView, first: int)
    ensures
        laid(numbered(e, first), first),
        size(numbered(e, first)) == leaves(e).len(),
    decreases e, 1nat,
{
    match e {
        ExprView::Sequence(cs) => {
            let ncs = numbered_all(cs, first);
            assert(numbered(e, first)->Sequence_0 =~= ncs);
            lemma_numbered_all_laid(cs, first, cs.len());
            assert forall|j: int| 0 <= j < ncs.len() implies laid(#[trigger] ncs[j], first + sizes(ncs, j as nat)) by {
                lemma_numbered_all_laid(cs, first, j as nat);
                lemma_numbered_laid(cs[j], first + leaves_of(cs, j as nat).len());
            }
        },
        ExprView::Alternative(cs) => {
            let ncs = numbered_all(cs, first);
            assert(numbered(e, first)->Alternative_0 =~= ncs);
            lemma_numbered_all_laid(cs, first, cs.len());
            assert forall|j: int| 0 <= j < ncs.len() implies laid(#[trigger] ncs[j], first + sizes(ncs, j as nat)) by {
                lemma_numbered_all_laid(cs, first, j as nat);
                lemma_numbered_laid(cs[j], first + leaves_of(cs, j as nat).len());
            }
        },
        ExprView::Optional(c) => {
            lemma_numbered_laid(*c, first);
        },
        ExprView::Many1(c) => {
            lemma_numbered_laid(*c, first);
        },
        _ => {},
    }
}

/// The first `n` of the members numbered one after the other have as many
/// leaves as before.
pub proof fn lemma_numbered_all_laid(cs: Seq<ExprView>, first: int, n: nat)
    requires
        n <= cs.len(),
    ensures
        sizes(numbered_all(cs, first), n) == leaves_of(cs, n).len(),
    decreases cs, n,
{
    if n > 0 {
        lemma_numbered_all_laid(cs, first, (n - 1) as nat);
        lemma_numbered_laid(cs[n - 1], first + leaves_of(cs, (n - 1) as nat).len());
    }
}

/// The inputs of the leaves `ps` and `qs`, one behind the other, are taken
/// by the words that take those of `ps` and those that take those of `qs`.
pub proof fn lemma_taken_joined(
    inputs: Seq<InputView>,
    ps: Seq<int>,
    qs: Seq<int>,
    words: Seq<Seq<char>>,
    k: int,
)
    requires
        0 <= k <= words.len(),
        taken(inputs, ps, words.take(k)),
        taken(inputs, qs, words.skip(k)),
    ensures
        taken(inputs, ps + qs, words),
        (ps + qs).take(k) == ps,
        (ps + qs).skip(k) == qs,
{
    let all = ps + qs;
    assert(all.take(k) =~= ps);
    assert(all.skip(k) =~= qs);
    assert forall|i: int| 0 <= i < all.len() implies 0 <= #[trigger] all[i] < inputs.len() && takes(
        inputs[all[i]],
        words[i],
    ) by {
        if i < k {
            assert(all[i] == ps[i]);
            assert(words.take(k)[i] == words[i]);
        } else {
            assert(all[i] == qs[i - k]);
            assert(words.skip(k)[i - k] == words[i]);
        }
    }
}

/// The parts of leaves whose inputs are taken by words are taken by the
/// parts of the words.
pub proof fn lemma_taken_parts(inputs: Seq<InputView>, ps: Seq<int>, words: Seq<Seq<char>>, k: int)
    requires
        0 <= k <= ps.len(),
        taken(inputs, ps, words),
    ensures
        taken(inputs, ps.take(k), words.take(k)),
        taken(inputs, ps.skip(k), words.skip(k)),
{
    assert forall|i: int| 0 <= i < k implies 0 <= #[trigger] ps.take(k)[i] < inputs.len() && takes(
        inputs[ps.take(k)[i]],
        words.take(k)[i],
    ) by {
        assert(0 <= ps[i] < inputs.len());
    }
    assert forall|i: int| 0 <= i < ps.len() - k implies 0 <= #[trigger] ps.skip(k)[i] < inputs.len() && takes(
        inputs[ps.skip(k)[i]],
        words.skip(k)[i],
    ) by {
        assert(0 <= ps[k + i] < inputs.len());
    }
}

/// A command line that an expression allows goes through leaves of the
/// numbered expression whose inputs its words take.
pub proof fn lemma_allowed_to_trace(e: ExprView, first: int, inputs: Seq<InputView>, words: Seq<Seq<char>>) -> (ps:
    Seq<int>)
    requires
        holds(inputs, first, e),
        allows(e, words),
    ensures
        trace(numbered(e, first), ps),
        taken(inputs, ps, words),
    decreases e, 2nat, 0nat,
{
    match e {
        ExprView::Sequence(cs) => {
            let ncs = numbered_all(cs, first);
            assert(numbered(e, first)->Sequence_0 =~= ncs);
            assert(holds_all(inputs, first, cs, cs.len()));
            lemma_sequence_allowed_to_trace(cs, 0, first, inputs, words)
        },
        ExprView::Alternative(cs) => {
            let ncs = numbered_all(cs, first);
            assert(numbered(e, first)->Alternative_0 =~= ncs);
            assert(holds_all(inputs, first, cs, cs.len()));
            let i = choose|i: int| 0 <= i < cs.len() && allows(#[trigger] cs[i], words);
            lemma_holds_member(inputs, first, cs, cs.len(), i);
            let ps = lemma_allowed_to_trace(cs[i], first + leaves_of(cs, i as nat).len(), inputs, words);
            assert(trace(ncs[i], ps));
            assert(trace(numbered(e, first)->Alternative_0[i], ps));
            ps
        },
        ExprView::Optional(c) => {
            if words.len() == 0 {
                Seq::empty()
            } else {
                lemma_allowed_to_trace(*c, first, inputs, words)
            }
        },
        ExprView::Many1(c) => lemma_repeated_allowed_to_trace(*c, first, inputs, words),
        _ => {
            let ps = seq![first];
            assert(leaves(e).len() == 1);
            assert(inputs[first + 0] == leaves(e)[0]);
            ps
        },
    }
}

/// As [`lemma_allowed_to_trace`], for what `c` allows once or more often.
pub proof fn lemma_repeated_allowed_to_trace(
    c: ExprView,
    first: int,
    inputs: Seq<InputView>,
    words: Seq<Seq<char>>,
) -> (ps: Seq<int>)
    requires
        holds(inputs, first, c),
        repeated_allows(c, words),
    ensures
        repeated_trace(numbered(c, first), ps),
        taken(inputs, ps, words),
    decreases c, 3nat, words.len(),
{
    if allows(c, words) {
        lemma_allowed_to_trace(c, first, inputs, words)
    } else {
        let k = choose|k: int|
            0 < k < words.len() && allows(c, #[trigger] words.take(k)) && repeated_allows(c, words.skip(k));
        let head = lemma_allowed_to_trace(c, first, inputs, words.take(k));
        let tail = lemma_repeated_allowed_to_trace(c, first, inputs, words.skip(k));
        lemma_taken_joined(inputs, head, tail, words, k);
        let ps = head + tail;
        assert(0 < k < ps.len() && trace(numbered(c, first), ps.take(k)) && repeated_trace(
            numbered(c, first),
            ps.skip(k),
        ));
        ps
    }
}

/// As [`lemma_allowed_to_trace`], for what the members `cs[j..]` allow one
/// after the other.
pub proof fn lemma_sequence_allowed_to_trace(
    cs: Seq<ExprView>,
    j: nat,
    first: int,
    inputs: Seq<InputView>,
    words: Seq<Seq<char>>,
) -> (ps: Seq<int>)
    requires
        j <= cs.len(),
        holds_all(inputs, first, cs, cs.len()),
        sequence_allows(cs, j, words),
    ensures
        sequence_trace(numbered_all(cs, first), j, ps),
        taken(inputs, ps, words),
    decreases cs, 0nat, cs.len() - j,
{
    let ncs = numbered_all(cs, first);
    if j >= cs.len() {
        Seq::empty()
    } else {
        let k = choose|k: int|
            0 <= k <= words.len() && allows(cs[j as int], #[trigger] words.take(k)) && sequence_allows(
                cs,
                j + 1,
                words.skip(k),
            );
        lemma_holds_member(inputs, first, cs, cs.len(), j as int);
        let head = lemma_allowed_to_trace(cs[j as int], first + leaves_of(cs, j).len(), inputs, words.take(k));
        let tail = lemma_sequence_allowed_to_trace(cs, j + 1, first, inputs, words.skip(k));
        lemma_taken_joined(inputs, head, tail, words, k);
        let ps = head + tail;
        assert(0 <= k <= ps.len() && trace(ncs[j as int], ps.take(k)) && sequence_trace(ncs, j + 1, ps.skip(k)));
        ps
    }
}

/// Words that take the inputs of leaves which a line goes through are a
/// command line that the expression allows.
pub proof fn lemma_trace_to_allowed(
    e: ExprView,
    first: int,
    inputs: Seq<InputView>,
    ps: Seq<int>,
    words: Seq<Seq<char>>,
)
    requires
        holds(inputs, first, e),
        trace(numbered(e, first), ps),
        taken(inputs, ps, words),
    ensures
        allows(e, words),
    decreases e, 2nat, 0nat,
{
    match e {
        ExprView::Sequence(cs) => {
            let ncs = numbered_all(cs, first);
            assert(numbered(e, first)->Sequence_0 =~= ncs);
            assert(holds_all(inputs, first, cs, cs.len()));
            lemma_sequence_trace_to_allowed(cs, 0, first, inputs, ps, words);
        },
        ExprView::Alternative(cs) => {
            let ncs = numbered_all(cs, first);
            assert(numbered(e, first)->Alternative_0 =~= ncs);
            assert(holds_all(inputs, first, cs, cs.len()));
            let i = choose|i: int| 0 <= i < ncs.len() && trace(#[trigger] ncs[i], ps);
            lemma_holds_member(inputs, first, cs, cs.len(), i);
            lemma_trace_to_allowed(cs[i], first + leaves_of(cs, i as nat).len(), inputs, ps, words);
        },
        ExprView::Optional(c) => {
            if words.len() > 0 {
                lemma_trace_to_allowed(*c, first, inputs, ps, words);
            }
        },
        ExprView::Many1(c) => {
            lemma_repeated_trace_to_allowed(*c, first, inputs, ps, words);
        },
        _ => {
            assert(leaves(e).len() == 1);
            assert(inputs[first + 0] == leaves(e)[0]);
            assert(ps[0] == first);
        },
    }
}

/// As [`lemma_trace_to_allowed`], for what `c` allows once or more often.
pub proof fn lemma_repeated_trace_to_allowed(
    c: ExprView,
    first: int,
    inputs: Seq<InputView>,
    ps: Seq<int>,
    words: Seq<Seq<char>>,
)
    requires
        holds(inputs, first, c),
        repeated_trace(numbered(c, first), ps),
        taken(inputs, ps, words),
    ensures
        repeated_allows(c, words),
    decreases c, 3nat, ps.len(),
{
    if trace(numbered(c, first), ps) {
        lemma_trace_to_allowed(c, first, inputs, ps, words);
    } else {
        let k = choose|k: int|
            0 < k < ps.len() && trace(numbered(c, first), #[trigger] ps.take(k)) && repeated_trace(
                numbered(c, first),
                ps.skip(k),
            );
        lemma_taken_parts(inputs, ps, words, k);
        lemma_trace_to_allowed(c, first, inputs, ps.take(k), words.take(k));
        lemma_repeated_trace_to_allowed(c, first, inputs, ps.skip(k), words.skip(k));
        assert(0 < k < words.len() && allows(c, words.take(k)) && repeated_allows(c, words.skip(k)));
    }
}

/// As [`lemma_trace_to_allowed`], for what the members `cs[j..]` allow one
/// after the other.
pub proof fn lemma_sequence_trace_to_allowed(
    cs: Seq<ExprView>,
    j: nat,
    first: int,
    inputs: Seq<InputView>,
    ps: Seq<int>,
    words: Seq<Seq<char>>,
)
    requires
        j <= cs.len(),
        holds_all(inputs, first, cs, cs.len()),
        sequence_trace(numbered_all(cs, first), j, ps),
        taken(inputs, ps, words),
    ensures
        sequence_allows(cs, j, words),
    decreases cs, 0nat, cs.len() - j,
{
    let ncs = numbered_all(cs, first);
    if j < cs.len() {
        let k = choose|k: int|
            0 <= k <= ps.len() && trace(ncs[j as int], #[trigger] ps.take(k)) && sequence_trace(
                ncs,
                j + 1,
                ps.skip(k),
            );
        lemma_holds_member(inputs, first, cs, cs.len(), j as int);
        lemma_taken_parts(inputs, ps, words, k);
        lemma_trace_to_allowed(cs[j as int], first + leaves_of(cs, j).len(), inputs, ps.take(k), words.take(k));
        lemma_sequence_trace_to_allowed(cs, j + 1, first, inputs, ps.skip(k), words.skip(k));
        assert(0 <= k <= words.len() && allows(cs[j as int], words.take(k)) && sequence_allows(
            cs,
            j + 1,
            words.skip(k),
        ));
    }
}

/// The command lines that can be taken through an expression up to its end
/// marker are those that the expression allows.
pub proof fn lemma_walks_are_allowed(e: ExprView, words: Seq<Seq<char>>)
    ensures
        walks_through(augmented(e), words) <==> allows(e, words),
{
    let a = augmented(e);
    let n = a.endmarker;
    let body = numbered(e, 0);
    let end = RegexView::Leaf(n);
    let both = seq![body, end];
    let none = Seq::<int>::empty();
    assert(a.root == RegexView::Sequence(both));
    lemma_numbered_laid(e, 0);
    assert(sizes(both, 0) == 0);
    assert(sizes(both, 1) == size(body));
    assert(laid(a.root, 0)) by {
        assert forall|j: int| 0 <= j < both.len() implies laid(#[trigger] both[j], 0int + sizes(both, j as nat)) by {
            if j == 0 {
            } else {
            }
        }
        assert(a.root->Sequence_0 == both);
    }
    assert(holds(a.inputs, 0, e));
    assert(sequence_trace(both, 2, none));
    if walks_through(a, words) {
        let qs = choose|qs: Seq<int>| walks(a, qs, words) && #[trigger] qs.last() == n;
        assert(lastpos(a.root).contains(n)) by {
            assert(!crate::regex::nullable(end));
            assert(lastpos(end).contains(n));
            assert(both[1] == end);
            assert(crate::regex::last_upto(both, 2) == lastpos(both[1]));
            assert(lastpos(a.root) == crate::regex::last_upto(both, both.len()));
        }
        assert(local(a.root, qs)) by {
            assert forall|i: int| 0 <= i < qs.len() - 1 implies followpos(a.root, #[trigger] qs[i]).contains(
                qs[i + 1],
            ) by {
                assert(0 <= qs[i] < a.endmarker);
            }
        }
        lemma_local_trace(a.root, 0, qs);
        assert(sequence_trace(both, 0, qs));
        let k = choose|k: int|
            0 <= k <= qs.len() && trace(both[0], #[trigger] qs.take(k)) && sequence_trace(both, 1, qs.skip(k));
        let rest = qs.skip(k);
        assert(sequence_trace(both, 1, rest));
        let l = choose|l: int|
            0 <= l <= rest.len() && trace(both[1], #[trigger] rest.take(l)) && sequence_trace(
                both,
                2,
                rest.skip(l),
            );
        assert(sequence_trace(both, 2, rest.skip(l)));
        assert(rest.skip(l).len() == 0);
        assert(trace(end, rest.take(l)));
        assert(rest.take(l).len() == 1);
        assert(k == qs.len() - 1);
        let ps = qs.take(k);
        assert forall|i: int| 0 <= i < ps.len() implies 0 <= #[trigger] ps[i] < a.inputs.len() && takes(
            a.inputs[ps[i]],
            words[i],
        ) by {
            assert(0 <= qs[i] < a.endmarker);
        }
        lemma_trace_to_allowed(e, 0, a.inputs, ps, words);
    }
    if allows(e, words) {
        let ps = lemma_allowed_to_trace(e, 0, a.inputs, words);
        let qs = ps.push(n);
        let last = seq![n];
        assert(last.take(1) =~= last);
        assert(last.skip(1) =~= none);
        assert(trace(end, last));
        assert(trace(both[1], last.take(1)) && sequence_trace(both, 2, last.skip(1)));
        assert(sequence_trace(both, 1, last));
        assert(qs.take(ps.len() as int) =~= ps);
        assert(qs.skip(ps.len() as int) =~= last);
        assert(trace(both[0], qs.take(ps.len() as int)) && sequence_trace(both, 1, qs.skip(ps.len() as int)));
        assert(sequence_trace(both, 0, qs));
        assert(trace(a.root, qs));
        lemma_trace_local(a.root, qs);
        assert forall|i: int| 0 <= i < words.len() implies 0 <= #[trigger] qs[i] < a.endmarker && takes(
            a.inputs[qs[i]],
            words[i],
        ) && followpos(a.root, qs[i]).contains(qs[i + 1]) by {
            assert(qs[i] == ps[i]);
            assert(0 <= ps[i] < a.inputs.len());
        }
        assert(walks(a, qs, words) && qs.last() == n);
    }
}

/// The automaton of an expression accepts the command lines that the
/// expression allows, and no others.
pub proof fn lemma_automaton_meaning(d: DfaView, e: ExprView, words: Seq<Seq<char>>)
    requires
        d.well_formed(),
        leaves(e).len() < usize::MAX,
        built_from(d, augmented(e)),
    ensures
        d.accepts(words) <==> allows(e, words),
{
    lemma_accepts_walks(d, augmented(e), words);
    lemma_walks_are_allowed(e, words);
}

} // verus!
