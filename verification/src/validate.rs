//! Validation: one command, no circular definitions, and the expression
//! with every defined nonterminal resolved.

use crate::counting::lemma_distinct_bounded;
use crate::error::Error;
use crate::grammar::{views_of, Expr, ExprView, Grammar, Statement, StatementView, Validated};
use crate::resolve::{
    bindings, expand, lemma_view_alternative, lookup, mentions, resolve_variables,
    resolved, share, substitute,
};
use crate::text::{chars_of, insert_sorted, lex_lt, pairs_of, string_of, strictly_sorted, texts};
use std::rc::Rc;
use vstd::prelude::*;

verus! {

/// The commands that the call variants among `st` name, in their order.
pub open spec fn commands_of(st: Seq<StatementView>) -> Seq<Seq<char>>
    decreases st.len(),
{
    if st.len() == 0 {
        Seq::empty()
    } else {
        match st.last() {
            StatementView::CallVariant { lhs, rhs } => commands_of(st.drop_last()).push(lhs),
            StatementView::VariableDefinition { symbol, rhs } => commands_of(st.drop_last()),
        }
    }
}

/// The expressions of the call variants among `st`, in their order.
pub open spec fn bodies_of(st: Seq<StatementView>) -> Seq<ExprView>
    decreases st.len(),
{
    if st.len() == 0 {
        Seq::empty()
    } else {
        match st.last() {
            StatementView::CallVariant { lhs, rhs } => bodies_of(st.drop_last()).push(rhs),
            StatementView::VariableDefinition { symbol, rhs } => bodies_of(st.drop_last()),
        }
    }
}

/// What the definitions among `st` define; of two definitions of one
/// nonterminal the later one counts.
pub open spec fn definitions_of(st: Seq<StatementView>) -> Map<Seq<char>, ExprView>
    decreases st.len(),
{
    if st.len() == 0 {
        Map::empty()
    } else {
        match st.last() {
            StatementView::CallVariant { lhs, rhs } => definitions_of(st.drop_last()),
            StatementView::VariableDefinition { symbol, rhs } => definitions_of(st.drop_last()).insert(
                symbol,
                rhs,
            ),
        }
    }
}

/// All that may follow the command: the one call variant's expression, or
/// the choice between all of them.
pub open spec fn body_of(st: Seq<StatementView>) -> ExprView {
    let bodies = bodies_of(st);
    if bodies.len() == 1 {
        bodies[0]
    } else {
        ExprView::Alternative(bodies)
    }
}

/// Whether the definition of `a` mentions `b`, both being defined.
pub open spec fn depends(defs: Map<Seq<char>, ExprView>, a: Seq<char>, b: Seq<char>) -> bool {
    defs.contains_key(a) && defs.contains_key(b) && mentions(defs[a], b)
}

/// The name after the `i`th of a circle of names.
pub open spec fn after(c: Seq<Seq<char>>, i: int) -> Seq<char> {
    if i + 1 < c.len() {
        c[i + 1]
    } else {
        c[0]
    }
}

/// Whether each of the names `c` depends on the next, and the last on the
/// first.
pub open spec fn is_cycle(defs: Map<Seq<char>, ExprView>, c: Seq<Seq<char>>) -> bool {
    c.len() > 0 && forall|i: int| 0 <= i < c.len() ==> depends(defs, #[trigger] c[i], after(c, i))
}

/// Whether some definitions depend on each other in a circle.
pub open spec fn cyclic(defs: Map<Seq<char>, ExprView>) -> bool {
    exists|c: Seq<Seq<char>>| is_cycle(defs, c)
}

/// Ascending in the order of strings, each name once.
pub open spec fn ascending(names: Seq<Seq<char>>) -> bool {
    forall|i: int, j: int| 0 <= i < j < names.len() ==> lex_lt(#[trigger] names[i], #[trigger] names[j])
}

/// Whether `r` is what validating the statements `st` comes to.
pub open spec fn validated_as(r: Result<Validated, Error>, st: Seq<StatementView>) -> bool {
    let commands = commands_of(st);
    let defs = definitions_of(st);
    if commands.len() == 0 {
        r matches Err(Error::EmptyGrammar)
    } else if exists|i: int| 0 <= i < commands.len() && #[trigger] commands[i] != commands[0] {
        r matches Err(Error::VaryingCommandNames(names)) && ascending(texts(names@)) && texts(
            names@,
        ).to_set() == commands.to_set()
    } else if cyclic(defs) {
        r matches Err(Error::CyclicVariables(c)) && is_cycle(defs, texts(c@))
    } else {
        r matches Ok(v) && v.command@ == commands[0] && v.expr@ == expand(body_of(st), defs, st.len())
            && resolved(v.expr@, defs)
    }
}

/// Whether no two bindings of `v` bind the same name.
pub open spec fn distinct_names(v: Seq<(String, Rc<Expr>)>) -> bool {
    forall|i: int, j: int| 0 <= i < j < v.len() ==> (#[trigger] v[i]).0@ != (#[trigger] v[j]).0@
}

/// A name that is bound is defined.
pub proof fn lemma_bindings_has(v: Seq<(String, Rc<Expr>)>, k: int)
    requires
        0 <= k < v.len(),
    ensures
        bindings(v).contains_key(v[k].0@),
    decreases v.len(),
{
    if k < v.len() - 1 {
        lemma_bindings_has(v.drop_last(), k);
    }
}

/// Whether the `k`th binding counts: no later one binds the same name.
pub open spec fn counts(v: Seq<(String, Rc<Expr>)>, k: int) -> bool {
    forall|j: int| k < j < v.len() ==> (#[trigger] v[j]).0@ != v[k].0@
}

/// The last binding of a name that is bound.
pub proof fn lemma_bindings_from(v: Seq<(String, Rc<Expr>)>, name: Seq<char>) -> (k: int)
    requires
        bindings(v).contains_key(name),
    ensures
        0 <= k < v.len(),
        v[k].0@ == name,
        v[k].1@ == bindings(v)[name],
        forall|j: int| k < j < v.len() ==> (#[trigger] v[j]).0@ != name,
    decreases v.len(),
{
    if v.last().0@ == name {
        v.len() - 1
    } else {
        let k = lemma_bindings_from(v.drop_last(), name);
        assert forall|j: int| k < j < v.len() implies (#[trigger] v[j]).0@ != name by {
            if j < v.len() - 1 {
                assert(v.drop_last()[j].0@ != name);
            }
        }
        k
    }
}

/// The last binding of a name is the one that counts.
pub proof fn lemma_bindings_last(v: Seq<(String, Rc<Expr>)>, k: int)
    requires
        0 <= k < v.len(),
        forall|j: int| k < j < v.len() ==> (#[trigger] v[j]).0@ != v[k].0@,
    ensures
        bindings(v).contains_key(v[k].0@),
        bindings(v)[v[k].0@] == v[k].1@,
{
    lemma_bindings_has(v, k);
    let j = lemma_bindings_from(v, v[k].0@);
    assert(j == k);
}

/// Where no name is bound twice, each binding counts.
pub proof fn lemma_bindings_distinct(v: Seq<(String, Rc<Expr>)>, k: int)
    requires
        0 <= k < v.len(),
        distinct_names(v),
    ensures
        bindings(v).contains_key(v[k].0@),
        bindings(v)[v[k].0@] == v[k].1@,
{
    lemma_bindings_last(v, k);
}

/// The bindings of `defs` that count: for each name its last one.
pub fn last_bindings(defs: &Vec<(String, Rc<Expr>)>) -> (table: Vec<(String, Rc<Expr>)>)
    ensures
        distinct_names(table@),
        bindings(table@) == bindings(defs@),
        table@.len() <= defs@.len(),
{
    let mut table: Vec<(String, Rc<Expr>)> = Vec::new();
    let ghost mut source: Seq<int> = Seq::empty();
    let mut i: usize = 0;
    while i < defs.len()
        invariant
            i <= defs.len(),
            source.len() == table@.len(),
            table@.len() <= i,
            forall|t: int|
                0 <= t < table@.len() ==> 0 <= #[trigger] source[t] < i && table@[t].0@
                    == defs@[source[t]].0@ && table@[t].1@ == defs@[source[t]].1@,
            forall|t: int, u: int| 0 <= t < u < table@.len() ==> source[t] < source[u],
            forall|t: int, k: int|
                0 <= t < table@.len() && source[t] < k < defs@.len() ==> (#[trigger] defs@[k]).0@
                    != (#[trigger] table@[t]).0@,
            forall|k: int|
                0 <= k < i && #[trigger] counts(defs@, k) ==> exists|t: int|
                    0 <= t < table@.len() && #[trigger] source[t] == k,
        decreases defs.len() - i,
    {
        let found = lookup(defs, &defs[i].0);
        proof {
            lemma_bindings_has(defs@, i as int);
        }
        let ghost before = table@;
        let ghost source_before = source;
        if found == Some(i) {
            table.push((defs[i].0.clone(), share(&defs[i].1)));
            proof {
                source = source.push(i as int);
            }
        }
        proof {
            assert forall|k: int| 0 <= k < i + 1 && #[trigger] counts(defs@, k) implies exists|t: int|
                0 <= t < table@.len() && #[trigger] source[t] == k by {
                if k < i {
                    let t = choose|t: int| 0 <= t < before.len() && #[trigger] source_before[t] == k;
                    assert(source[t] == k);
                } else {
                    let last = found->Some_0 as int;
                    if last != i {
                        assert(defs@[last].0@ == defs@[k].0@);
                        assert(false);
                    }
                    assert(source[table@.len() - 1] == k);
                }
            }
        }
        i += 1;
    }
    proof {
        assert(distinct_names(table@)) by {
            assert forall|t: int, u: int| 0 <= t < u < table@.len() implies (#[trigger] table@[t]).0@ != (
            #[trigger] table@[u]).0@ by {
                assert(source[t] < source[u]);
                assert(defs@[source[u]].0@ != table@[t].0@);
            }
        }
        assert(bindings(table@) =~= bindings(defs@)) by {
            assert forall|name: Seq<char>| #[trigger]
                bindings(table@).contains_key(name) implies bindings(defs@).contains_key(name)
                && bindings(table@)[name] == bindings(defs@)[name] by {
                let t = lemma_bindings_from(table@, name);
                assert forall|j: int| source[t] < j < defs@.len() implies (#[trigger] defs@[j]).0@
                    != defs@[source[t]].0@ by {
                    assert(defs@[j].0@ != table@[t].0@);
                }
                lemma_bindings_last(defs@, source[t]);
            }
            assert forall|name: Seq<char>| #[trigger]
                bindings(defs@).contains_key(name) implies bindings(table@).contains_key(name) by {
                let k = lemma_bindings_from(defs@, name);
                assert(counts(defs@, k));
                let t = choose|t: int| 0 <= t < table@.len() && #[trigger] source[t] == k;
                lemma_bindings_has(table@, t);
            }
        }
    }
    table
}

/// Where `other` binds every defined nonterminal that `e` mentions to what
/// it expands to at a depth of one less, resolving by `other` is expanding.
pub proof fn lemma_expand_by_substitute(
    e: ExprView,
    defs: Map<Seq<char>, ExprView>,
    other: Map<Seq<char>, ExprView>,
    depth: nat,
)
    requires
        depth >= 1,
        forall|name: Seq<char>| #[trigger] other.contains_key(name) ==> defs.contains_key(name),
        forall|name: Seq<char>|
            defs.contains_key(name) && #[trigger] mentions(e, name) ==> other.contains_key(name)
                && other[name] == expand(defs[name], defs, (depth - 1) as nat),
    ensures
        expand(e, defs, depth) == substitute(e, other),
    decreases e,
{
    match e {
        ExprView::Variable(n) => {
            assert(mentions(e, n));
        },
        ExprView::Sequence(cs) => {
            assert forall|i: int| 0 <= i < cs.len() implies expand(cs[i], defs, depth) == substitute(
                cs[i],
                other,
            ) by {
                assert forall|name: Seq<char>|
                    defs.contains_key(name) && #[trigger] mentions(cs[i], name) implies other.contains_key(
                    name,
                ) && other[name] == expand(defs[name], defs, (depth - 1) as nat) by {
                    assert(mentions(e, name));
                }
                lemma_expand_by_substitute(cs[i], defs, other, depth);
            }
            assert(expand(e, defs, depth)->Sequence_0 =~= substitute(e, other)->Sequence_0);
        },
        ExprView::Alternative(cs) => {
            assert forall|i: int| 0 <= i < cs.len() implies expand(cs[i], defs, depth) == substitute(
                cs[i],
                other,
            ) by {
                assert forall|name: Seq<char>|
                    defs.contains_key(name) && #[trigger] mentions(cs[i], name) implies other.contains_key(
                    name,
                ) && other[name] == expand(defs[name], defs, (depth - 1) as nat) by {
                    assert(mentions(e, name));
                }
                lemma_expand_by_substitute(cs[i], defs, other, depth);
            }
            assert(expand(e, defs, depth)->Alternative_0 =~= substitute(e, other)->Alternative_0);
        },
        ExprView::Optional(c) => {
            assert forall|name: Seq<char>|
                defs.contains_key(name) && #[trigger] mentions(*c, name) implies other.contains_key(name)
                && other[name] == expand(defs[name], defs, (depth - 1) as nat) by {
                assert(mentions(e, name));
            }
            lemma_expand_by_substitute(*c, defs, other, depth);
        },
        ExprView::Many1(c) => {
            assert forall|name: Seq<char>|
                defs.contains_key(name) && #[trigger] mentions(*c, name) implies other.contains_key(name)
                && other[name] == expand(defs[name], defs, (depth - 1) as nat) by {
                assert(mentions(e, name));
            }
            lemma_expand_by_substitute(*c, defs, other, depth);
        },
        _ => {},
    }
}

/// Where `other` binds every defined nonterminal that `e` mentions, and
/// binds names to resolved expressions only, resolving by `other` resolves.
pub proof fn lemma_substitute_settles(
    e: ExprView,
    defs: Map<Seq<char>, ExprView>,
    other: Map<Seq<char>, ExprView>,
)
    requires
        forall|name: Seq<char>|
            defs.contains_key(name) && #[trigger] mentions(e, name) ==> other.contains_key(name),
        forall|name: Seq<char>| other.contains_key(name) ==> resolved(#[trigger] other[name], defs),
    ensures
        resolved(substitute(e, other), defs),
    decreases e,
{
    let r = substitute(e, other);
    assert forall|name: Seq<char>| defs.contains_key(name) implies !mentions(r, name) by {
        match e {
            ExprView::Variable(n) => {
                if other.contains_key(n) {
                    assert(resolved(other[n], defs));
                    assert(!mentions(other[n], name));
                } else {
                    if n == name {
                        assert(mentions(e, name));
                    }
                }
            },
            ExprView::Sequence(cs) => {
                if mentions(r, name) {
                    let rs = r->Sequence_0;
                    let i = choose|i: int| 0 <= i < rs.len() && mentions(#[trigger] rs[i], name);
                    assert forall|x: Seq<char>|
                        defs.contains_key(x) && #[trigger] mentions(cs[i], x) implies other.contains_key(
                        x,
                    ) by {
                        assert(mentions(e, x));
                    }
                    lemma_substitute_settles(cs[i], defs, other);
                    assert(rs[i] == substitute(cs[i], other));
                    assert(!mentions(substitute(cs[i], other), name));
                }
            },
            ExprView::Alternative(cs) => {
                if mentions(r, name) {
                    let rs = r->Alternative_0;
                    let i = choose|i: int| 0 <= i < rs.len() && mentions(#[trigger] rs[i], name);
                    assert forall|x: Seq<char>|
                        defs.contains_key(x) && #[trigger] mentions(cs[i], x) implies other.contains_key(
                        x,
                    ) by {
                        assert(mentions(e, x));
                    }
                    lemma_substitute_settles(cs[i], defs, other);
                    assert(rs[i] == substitute(cs[i], other));
                    assert(!mentions(substitute(cs[i], other), name));
                }
            },
            ExprView::Optional(c) => {
                assert forall|x: Seq<char>|
                    defs.contains_key(x) && #[trigger] mentions(*c, x) implies other.contains_key(x) by {
                    assert(mentions(e, x));
                }
                lemma_substitute_settles(*c, defs, other);
                assert(!mentions(substitute(*c, other), name));
            },
            ExprView::Many1(c) => {
                assert forall|x: Seq<char>|
                    defs.contains_key(x) && #[trigger] mentions(*c, x) implies other.contains_key(x) by {
                    assert(mentions(e, x));
                }
                lemma_substitute_settles(*c, defs, other);
                assert(!mentions(substitute(*c, other), name));
            },
            _ => {},
        }
    }
}

/// The first of `children` in which a definition is pending, and that
/// definition's place.
fn first_pending_among(children: &Vec<Rc<Expr>>, table: &Vec<(String, Rc<Expr>)>, done: &Vec<bool>) -> (r:
    Option<usize>)
    requires
        done@.len() == table@.len(),
        distinct_names(table@),
    ensures
        r matches Some(j) ==> j < table@.len() && !done@[j as int] && exists|i: int|
            0 <= i < children@.len() && mentions(#[trigger] views_of(children@)[i], table@[j as int].0@),
        r is None ==> forall|i: int, j: int|
            0 <= i < children@.len() && 0 <= j < table@.len() && mentions(
                #[trigger] views_of(children@)[i],
                (#[trigger] table@[j]).0@,
            ) ==> done@[j],
    decreases children, 0int,
{
    let mut i: usize = 0;
    while i < children.len()
        invariant
            i <= children.len(),
            done@.len() == table@.len(),
            distinct_names(table@),
            forall|k: int, j: int|
                0 <= k < i && 0 <= j < table@.len() && mentions(
                    #[trigger] views_of(children@)[k],
                    (#[trigger] table@[j]).0@,
                ) ==> done@[j],
        decreases children.len() - i,
    {
        match first_pending(&children[i], table, done) {
            Some(j) => {
                assert(mentions(views_of(children@)[i as int], table@[j as int].0@));
                return Some(j);
            },
            None => {},
        }
        i += 1;
    }
    None
}

/// The place in `table` of a definition that `e` mentions and that is not
/// done yet, if there is one.
pub fn first_pending(e: &Expr, table: &Vec<(String, Rc<Expr>)>, done: &Vec<bool>) -> (r: Option<usize>)
    requires
        done@.len() == table@.len(),
        distinct_names(table@),
    ensures
        r matches Some(j) ==> j < table@.len() && !done@[j as int] && mentions(e@, table@[j as int].0@),
        r is None ==> forall|j: int|
            0 <= j < table@.len() && mentions(e@, (#[trigger] table@[j]).0@) ==> done@[j],
    decreases e, 1int,
{
    match e {
        Expr::Variable(name) => match lookup(table, name) {
            Some(j) => {
                if done[j] {
                    assert forall|k: int|
                        0 <= k < table@.len() && mentions(e@, (#[trigger] table@[k]).0@) implies done@[k] by {
                        assert(k == j);
                    }
                    None
                } else {
                    assert(mentions(e@, table@[j as int].0@));
                    Some(j)
                }
            },
            None => {
                assert forall|k: int|
                    0 <= k < table@.len() && mentions(e@, (#[trigger] table@[k]).0@) implies done@[k] by {
                    lemma_bindings_has(table@, k);
                }
                None
            },
        },
        Expr::Sequence(children) => {
            proof {
                crate::resolve::lemma_view_sequence(*children);
            }
            let r = first_pending_among(children, table, done);
            proof {
                assert(e@ == ExprView::Sequence(views_of(children@)));
                if r is Some {
                    let name = table@[r->Some_0 as int].0@;
                    let i = choose|i: int|
                        0 <= i < children@.len() && mentions(#[trigger] views_of(children@)[i], name);
                    let cs = views_of(children@);
                    crate::resolve::lemma_mentions_sequence(cs, i, name);
                }
            }
            r
        },
        Expr::Alternative(children) => {
            proof {
                lemma_view_alternative(*children);
            }
            let r = first_pending_among(children, table, done);
            proof {
                assert(e@ == ExprView::Alternative(views_of(children@)));
                if r is Some {
                    let name = table@[r->Some_0 as int].0@;
                    let i = choose|i: int|
                        0 <= i < children@.len() && mentions(#[trigger] views_of(children@)[i], name);
                    let cs = views_of(children@);
                    crate::resolve::lemma_mentions_sequence(cs, i, name);
                }
            }
            r
        },
        Expr::Optional(child) => {
            let r = first_pending(child, table, done);
            proof {
                assert(e@ == ExprView::Optional(Box::new(child@)));
                if r is Some {
                    assert(mentions(e@, table@[r->Some_0 as int].0@));
                }
            }
            r
        },
        Expr::Many1(child) => {
            let r = first_pending(child, table, done);
            proof {
                assert(e@ == ExprView::Many1(Box::new(child@)));
                if r is Some {
                    assert(mentions(e@, table@[r->Some_0 as int].0@));
                }
            }
            r
        },
        _ => None,
    }
}

/// What holds while definitions are resolved one after the other: `out`
/// holds the resolved definitions in the order in which they were resolved,
/// `slot` says for each definition that is done where in `out` it stands and
/// `owner` says the reverse; a definition that is done mentions only
/// definitions that were done before it, and it stands in `out` resolved and
/// expanded.
#[verifier::opaque]
pub open spec fn resolution_state(
    table: Seq<(String, Rc<Expr>)>,
    done: Seq<bool>,
    out: Seq<(String, Rc<Expr>)>,
    slot: Seq<int>,
    owner: Seq<int>,
) -> bool {
    let defs = bindings(table);
    &&& done.len() == table.len()
    &&& slot.len() == table.len()
    &&& owner.len() == out.len()
    &&& forall|t: int|
        0 <= t < out.len() ==> 0 <= #[trigger] owner[t] < table.len() && done[owner[t]]
            && slot[owner[t]] == t && out[t].0@ == table[owner[t]].0@
    &&& forall|i: int|
        0 <= i < table.len() && #[trigger] done[i] ==> 0 <= slot[i] < out.len() && owner[slot[i]] == i
    &&& forall|i: int, j: int|
        0 <= i < table.len() && 0 <= j < table.len() && done[i] && #[trigger] mentions(
            table[i].1@,
            table[j].0@,
        ) ==> done[j] && slot[j] < slot[i]
    &&& forall|t: int| 0 <= t < out.len() ==> resolved((#[trigger] out[t]).1@, defs)
    &&& forall|t: int, d: nat|
        0 <= t < out.len() && d > t ==> #[trigger] expand(table[owner[t]].1@, defs, d) == out[t].1@
}

/// While definitions are resolved, no two resolved ones bear the same name,
/// and there are no more of them than there are definitions.
pub proof fn lemma_resolution_distinct(
    table: Seq<(String, Rc<Expr>)>,
    done: Seq<bool>,
    out: Seq<(String, Rc<Expr>)>,
    slot: Seq<int>,
    owner: Seq<int>,
)
    requires
        distinct_names(table),
        resolution_state(table, done, out, slot, owner),
    ensures
        distinct_names(out),
        out.len() <= table.len(),
        forall|name: Seq<char>| #[trigger]
            bindings(out).contains_key(name) ==> bindings(table).contains_key(name),
{
    reveal(resolution_state);
    assert forall|t: int, u: int| 0 <= t < u < out.len() implies (#[trigger] out[t]).0@ != (
    #[trigger] out[u]).0@ by {
        assert(slot[owner[t]] == t && slot[owner[u]] == u);
        assert(owner[t] != owner[u]);
        if owner[t] < owner[u] {
            assert(table[owner[t]].0@ != table[owner[u]].0@);
        } else {
            assert(table[owner[u]].0@ != table[owner[t]].0@);
        }
    }
    assert forall|t: int, u: int| 0 <= t < u < owner.len() implies #[trigger] owner[t]
        != #[trigger] owner[u] by {
        assert(slot[owner[t]] == t && slot[owner[u]] == u);
    }
    lemma_distinct_bounded(owner, table.len() as int);
    assert forall|name: Seq<char>| #[trigger] bindings(out).contains_key(name) implies bindings(
        table,
    ).contains_key(name) by {
        let t = lemma_bindings_from(out, name);
        lemma_bindings_has(table, owner[t]);
    }
}

/// Where every definition is done, none depends on itself in a circle: along
/// a circle the places in the order of resolution would fall for ever.
pub proof fn lemma_done_acyclic(
    table: Seq<(String, Rc<Expr>)>,
    done: Seq<bool>,
    out: Seq<(String, Rc<Expr>)>,
    slot: Seq<int>,
    owner: Seq<int>,
)
    requires
        distinct_names(table),
        resolution_state(table, done, out, slot, owner),
        forall|i: int| 0 <= i < table.len() ==> done[i],
    ensures
        !cyclic(bindings(table)),
{
    reveal(resolution_state);
    let defs = bindings(table);
    if cyclic(defs) {
        let c = choose|c: Seq<Seq<char>>| is_cycle(defs, c);
        let first = lemma_bindings_from(table, c[0]);
        assert(depends(defs, c[0], after(c, 0)));
        lemma_cycle_falls(table, done, out, slot, owner, c, c.len() - 1);
        let last = lemma_bindings_from(table, c[c.len() - 1]);
        assert(depends(defs, c[c.len() - 1], after(c, c.len() - 1)));
        assert(after(c, c.len() - 1) == c[0]);
        assert(mentions(table[last].1@, table[first].0@));
        assert(slot[first] < slot[last]);
    }
}

/// Along a circle of dependencies the `k`th name was resolved at least `k`
/// places before the first.
pub proof fn lemma_cycle_falls(
    table: Seq<(String, Rc<Expr>)>,
    done: Seq<bool>,
    out: Seq<(String, Rc<Expr>)>,
    slot: Seq<int>,
    owner: Seq<int>,
    c: Seq<Seq<char>>,
    k: int,
)
    requires
        distinct_names(table),
        resolution_state(table, done, out, slot, owner),
        forall|i: int| 0 <= i < table.len() ==> done[i],
        is_cycle(bindings(table), c),
        0 <= k < c.len(),
    ensures
        bindings(table).contains_key(c[k]),
        bindings(table).contains_key(c[0]),
        slot[place_of(table, c[k])] + k <= slot[place_of(table, c[0])],
    decreases k,
{
    reveal(resolution_state);
    let defs = bindings(table);
    assert(depends(defs, c[0], after(c, 0)));
    assert(depends(defs, c[k], after(c, k)));
    if k > 0 {
        lemma_cycle_falls(table, done, out, slot, owner, c, k - 1);
        assert(depends(defs, c[k - 1], after(c, k - 1)));
        assert(after(c, k - 1) == c[k]);
        let a = place_of(table, c[k - 1]);
        let b = place_of(table, c[k]);
        lemma_place_of(table, c[k - 1]);
        lemma_place_of(table, c[k]);
        assert(mentions(table[a].1@, table[b].0@));
        assert(slot[b] < slot[a]);
    }
}

/// The place of the binding of `name` that counts.
pub open spec fn place_of(table: Seq<(String, Rc<Expr>)>, name: Seq<char>) -> int {
    choose|k: int|
        0 <= k < table.len() && table[k].0@ == name && table[k].1@ == bindings(table)[name]
}

/// A name that is defined has its place.
pub proof fn lemma_place_of(table: Seq<(String, Rc<Expr>)>, name: Seq<char>)
    requires
        bindings(table).contains_key(name),
    ensures
        0 <= place_of(table, name) < table.len(),
        table[place_of(table, name)].0@ == name,
        table[place_of(table, name)].1@ == bindings(table)[name],
{
    let k = lemma_bindings_from(table, name);
}

/// Whether `out` holds, for each definition of `defs`, what it expands to:
/// a resolved expression that no deeper expansion changes.
pub open spec fn settled(out: Map<Seq<char>, ExprView>, defs: Map<Seq<char>, ExprView>, depth: nat) -> bool {
    &&& forall|name: Seq<char>| #[trigger] out.contains_key(name) <==> defs.contains_key(name)
    &&& forall|name: Seq<char>| out.contains_key(name) ==> resolved(#[trigger] out[name], defs)
    &&& forall|name: Seq<char>, d: nat|
        out.contains_key(name) && d >= depth ==> #[trigger] expand(defs[name], defs, d) == out[name]
}

/// A path of definitions that are not done, each mentioning the next.
#[verifier::opaque]
pub open spec fn pending_path(
    table: Seq<(String, Rc<Expr>)>,
    done: Seq<bool>,
    on_path: Seq<bool>,
    path: Seq<usize>,
) -> bool {
    &&& on_path.len() == table.len()
    &&& forall|k: int| 0 <= k < path.len() ==> (#[trigger] path[k]) < table.len() && !done[path[k] as int]
            && on_path[path[k] as int]
    &&& forall|j: int|
        0 <= j < table.len() && #[trigger] on_path[j] ==> exists|k: int|
            0 <= k < path.len() && #[trigger] path[k] == j
    &&& forall|k: int, l: int| 0 <= k < l < path.len() ==> #[trigger] path[k] != #[trigger] path[l]
    &&& forall|k: int|
        0 <= k < path.len() - 1 ==> mentions(
            table[(#[trigger] path[k]) as int].1@,
            table[path[k + 1] as int].0@,
        )
}

/// Resolves the definitions of `table` one after the other, each after those
/// that it mentions. Gives the resolved definitions, or the names of
/// definitions that depend on each other in a circle.
pub fn resolve_definitions(table: &Vec<(String, Rc<Expr>)>) -> (r: Result<
    Vec<(String, Rc<Expr>)>,
    Vec<String>,
>)
    requires
        distinct_names(table@),
    ensures
        r matches Err(c) ==> is_cycle(bindings(table@), texts(c@)),
        r matches Ok(out) ==> !cyclic(bindings(table@)) && settled(
            bindings(out@),
            bindings(table@),
            table@.len(),
        ),
{
    let n = table.len();
    let mut done: Vec<bool> = Vec::new();
    let mut on_path: Vec<bool> = Vec::new();
    let ghost mut slot: Seq<int> = Seq::empty();
    let mut i: usize = 0;
    while i < n
        invariant
            i <= n,
            done@.len() == i,
            on_path@.len() == i,
            slot.len() == i,
            forall|k: int| 0 <= k < i ==> !(#[trigger] done@[k]),
            forall|k: int| 0 <= k < i ==> !(#[trigger] on_path@[k]),
        decreases n - i,
    {
        done.push(false);
        on_path.push(false);
        proof {
            slot = slot.push(0);
        }
        i += 1;
    }
    let mut out: Vec<(String, Rc<Expr>)> = Vec::new();
    let ghost mut owner: Seq<int> = Seq::empty();
    let mut path: Vec<usize> = Vec::new();
    let mut start: usize = 0;
    proof {
        reveal(resolution_state);
        reveal(pending_path);
        assert(resolution_state(table@, done@, out@, slot, owner));
        assert(pending_path(table@, done@, on_path@, path@));
    }
    while start < n
        invariant
            n == table@.len(),
            done@.len() == n,
            on_path@.len() == n,
            slot.len() == n,
            start <= n,
            distinct_names(table@),
            resolution_state(table@, done@, out@, slot, owner),
            path@.len() == 0,
            pending_path(table@, done@, on_path@, path@),
            forall|k: int| 0 <= k < start ==> #[trigger] done@[k],
        decreases n - start,
    {
        if !done[start] {
            proof {
                assert(path@ =~= Seq::<usize>::empty());
                lemma_path_start(table@, done@, on_path@, start);
                lemma_resolution_distinct(table@, done@, out@, slot, owner);
            }
            path.push(start);
            on_path.set(start, true);
            assert(path@ =~= seq![start]);
            while path.len() > 0
                invariant
                    n == table@.len(),
                    done@.len() == n,
                    on_path@.len() == n,
                    slot.len() == n,
                    start < n,
                    distinct_names(table@),
                    resolution_state(table@, done@, out@, slot, owner),
                    pending_path(table@, done@, on_path@, path@),
                    forall|k: int| 0 <= k < start ==> #[trigger] done@[k],
                    path@.len() == 0 ==> done@[start as int],
                    path@.len() > 0 ==> path@[0] == start,
                    out@.len() <= n,
                    path@.len() <= n,
                decreases n - out@.len(), n - path@.len(),
            {
                let cur = path[path.len() - 1];
                proof {
                    lemma_path_last(table@, done@, on_path@, path@);
                }
                match first_pending(&table[cur].1, table, &done) {
                    None => {
                        let value = resolve_variables(share(&table[cur].1), &out);
                        let ghost out_before = out@;
                        let ghost done_before = done@;
                        let ghost slot_before = slot;
                        let ghost owner_before = owner;
                        let ghost path_before = path@;
                        let ghost on_before = on_path@;
                        proof {
                            lemma_resolution_distinct(table@, done@, out@, slot, owner);
                            lemma_ready(table@, done@, out@, slot, owner, cur as int, value@);
                        }
                        out.push((table[cur].0.clone(), value));
                        done.set(cur, true);
                        on_path.set(cur, false);
                        path.pop();
                        proof {
                            slot = slot.update(cur as int, out_before.len() as int);
                            owner = owner.push(cur as int);
                            lemma_step(
                                table@,
                                done_before,
                                out_before,
                                slot_before,
                                owner_before,
                                cur as int,
                                out@[out_before.len() as int],
                            );
                            assert(out@ =~= out_before.push(out@[out_before.len() as int]));
                            assert(done@ =~= done_before.update(cur as int, true));
                            assert(on_path@ =~= on_before.update(cur as int, false));
                            assert(path@ =~= path_before.drop_last());
                            lemma_path_pop(table@, done_before, on_before, path_before);
                            lemma_resolution_distinct(table@, done@, out@, slot, owner);
                            assert forall|k: int| 0 <= k < start implies #[trigger] done@[k] by {
                                assert(done_before[k]);
                            }
                        }
                    },
                    Some(next) => {
                        if on_path[next] {
                            return Err(cycle_from(table, &path, next, Ghost(done@), Ghost(on_path@)));
                        } else {
                            proof {
                                lemma_path_push(table@, done@, on_path@, path@, next);
                            }
                            path.push(next);
                            on_path.set(next, true);
                        }
                    },
                }
            }
        }
        start += 1;
    }
    proof {
        lemma_all_done(table@, done@, out@, slot, owner);
    }
    Ok(out)
}

/// A definition that is not done is a path by itself.
pub proof fn lemma_path_start(
    table: Seq<(String, Rc<Expr>)>,
    done: Seq<bool>,
    on_path: Seq<bool>,
    start: usize,
)
    requires
        done.len() == table.len(),
        pending_path(table, done, on_path, Seq::<usize>::empty()),
        start < table.len(),
        !done[start as int],
    ensures
        pending_path(table, done, on_path.update(start as int, true), seq![start]),
{
    reveal(pending_path);
    let on2 = on_path.update(start as int, true);
    let path2 = seq![start];
    assert forall|j: int| 0 <= j < table.len() && #[trigger] on2[j] implies exists|k: int|
        0 <= k < path2.len() && #[trigger] path2[k] == j by {
        if j != start {
            assert(on_path[j]);
        }
        assert(j == start);
        assert(path2[0] == j);
    }
}

/// The last definition on a path is a definition that is not done.
pub proof fn lemma_path_last(
    table: Seq<(String, Rc<Expr>)>,
    done: Seq<bool>,
    on_path: Seq<bool>,
    path: Seq<usize>,
)
    requires
        pending_path(table, done, on_path, path),
        path.len() > 0,
    ensures
        path.last() < table.len(),
        !done[path.last() as int],
{
    reveal(pending_path);
    assert(path[path.len() - 1] < table.len());
}

/// Where every definition is done, none depends on itself in a circle, and
/// what was resolved is what the definitions expand to.
pub proof fn lemma_all_done(
    table: Seq<(String, Rc<Expr>)>,
    done: Seq<bool>,
    out: Seq<(String, Rc<Expr>)>,
    slot: Seq<int>,
    owner: Seq<int>,
)
    requires
        distinct_names(table),
        resolution_state(table, done, out, slot, owner),
        forall|i: int| 0 <= i < table.len() ==> #[trigger] done[i],
    ensures
        !cyclic(bindings(table)),
        settled(bindings(out), bindings(table), table.len()),
{
    reveal(resolution_state);
    let defs = bindings(table);
    let n = table.len();
    lemma_done_acyclic(table, done, out, slot, owner);
    lemma_resolution_distinct(table, done, out, slot, owner);
    let result = bindings(out);
    assert forall|name: Seq<char>| #[trigger] result.contains_key(name) <==> defs.contains_key(name) by {
        if defs.contains_key(name) {
            let j = lemma_bindings_from(table, name);
            assert(done[j]);
            lemma_bindings_has(out, slot[j]);
        }
    }
    assert forall|name: Seq<char>| result.contains_key(name) implies resolved(
        #[trigger] result[name],
        defs,
    ) by {
        let t = lemma_bindings_from(out, name);
        assert(resolved(out[t].1@, defs));
    }
    assert forall|name: Seq<char>, d: nat| result.contains_key(name) && d >= n implies #[trigger] expand(
        defs[name],
        defs,
        d,
    ) == result[name] by {
        let t = lemma_bindings_from(out, name);
        lemma_bindings_distinct(table, owner[t]);
        assert(expand(table[owner[t]].1@, defs, d) == out[t].1@);
    }
}

/// What resolving a definition that is ready gives: where every definition
/// that the `cur`th one mentions is done, resolving it by the definitions
/// done so far gives a resolved expression, which is what it expands to.
pub proof fn lemma_ready(
    table: Seq<(String, Rc<Expr>)>,
    done: Seq<bool>,
    out: Seq<(String, Rc<Expr>)>,
    slot: Seq<int>,
    owner: Seq<int>,
    cur: int,
    value: ExprView,
)
    requires
        distinct_names(table),
        distinct_names(out),
        resolution_state(table, done, out, slot, owner),
        0 <= cur < table.len(),
        forall|j: int| 0 <= j < table.len() && mentions(table[cur].1@, (#[trigger] table[j]).0@) ==> done[j],
        value == substitute(table[cur].1@, bindings(out)),
    ensures
        resolved(value, bindings(table)),
        forall|d: nat| d > out.len() ==> #[trigger] expand(table[cur].1@, bindings(table), d) == value,
{
    reveal(resolution_state);
    let defs = bindings(table);
    let other = bindings(out);
    let e = table[cur].1@;
    assert forall|name: Seq<char>| #[trigger] other.contains_key(name) implies defs.contains_key(name) by {
        let t = lemma_bindings_from(out, name);
        lemma_bindings_has(table, owner[t]);
    }
    assert forall|name: Seq<char>| other.contains_key(name) implies resolved(
        #[trigger] other[name],
        defs,
    ) by {
        let t = lemma_bindings_from(out, name);
        assert(resolved(out[t].1@, defs));
    }
    assert forall|name: Seq<char>|
        defs.contains_key(name) && #[trigger] mentions(e, name) implies other.contains_key(name) by {
        let j = lemma_bindings_from(table, name);
        assert(done[j]);
        lemma_bindings_distinct(out, slot[j]);
    }
    lemma_substitute_settles(e, defs, other);
    assert forall|d: nat| d > out.len() implies #[trigger] expand(e, defs, d) == value by {
        assert forall|name: Seq<char>|
            defs.contains_key(name) && #[trigger] mentions(e, name) implies other.contains_key(name)
            && other[name] == expand(defs[name], defs, (d - 1) as nat) by {
            let j = lemma_bindings_from(table, name);
            assert(done[j]);
            lemma_bindings_distinct(out, slot[j]);
            lemma_bindings_distinct(table, j);
            assert(owner[slot[j]] == j);
            assert(expand(table[owner[slot[j]]].1@, defs, (d - 1) as nat) == out[slot[j]].1@);
        }
        lemma_expand_by_substitute(e, defs, other, d);
    }
}

/// Marking the definition that was resolved as done keeps what holds while
/// definitions are resolved.
pub proof fn lemma_step(
    table: Seq<(String, Rc<Expr>)>,
    done: Seq<bool>,
    out: Seq<(String, Rc<Expr>)>,
    slot: Seq<int>,
    owner: Seq<int>,
    cur: int,
    entry: (String, Rc<Expr>),
)
    requires
        distinct_names(table),
        resolution_state(table, done, out, slot, owner),
        0 <= cur < table.len(),
        !done[cur],
        forall|j: int| 0 <= j < table.len() && mentions(table[cur].1@, (#[trigger] table[j]).0@) ==> done[j],
        entry.0@ == table[cur].0@,
        resolved(entry.1@, bindings(table)),
        forall|d: nat| d > out.len() ==> #[trigger] expand(table[cur].1@, bindings(table), d) == entry.1@,
    ensures
        resolution_state(
            table,
            done.update(cur, true),
            out.push(entry),
            slot.update(cur, out.len() as int),
            owner.push(cur),
        ),
{
    reveal(resolution_state);
    let done2 = done.update(cur, true);
    let out2 = out.push(entry);
    let slot2 = slot.update(cur, out.len() as int);
    let owner2 = owner.push(cur);
    let defs = bindings(table);
    assert forall|t: int| 0 <= t < out2.len() implies 0 <= #[trigger] owner2[t] < table.len()
        && done2[owner2[t]] && slot2[owner2[t]] == t && out2[t].0@ == table[owner2[t]].0@ by {
        if t < out.len() {
            assert(owner[t] != cur);
        }
    }
    assert forall|i: int| 0 <= i < table.len() && #[trigger] done2[i] implies 0 <= slot2[i] < out2.len()
        && owner2[slot2[i]] == i by {
        if i != cur {
            assert(done[i]);
        }
    }
    assert forall|i: int, j: int|
        0 <= i < table.len() && 0 <= j < table.len() && done2[i] && #[trigger] mentions(
            table[i].1@,
            table[j].0@,
        ) implies done2[j] && slot2[j] < slot2[i] by {
        if i == cur {
            assert(done[j]);
        } else {
            assert(done[i]);
            assert(done[j] && slot[j] < slot[i]);
        }
    }
    assert forall|t: int| 0 <= t < out2.len() implies resolved((#[trigger] out2[t]).1@, defs) by {
        if t < out.len() {
            assert(resolved(out[t].1@, defs));
        }
    }
    assert forall|t: int, d: nat| 0 <= t < out2.len() && d > t implies #[trigger] expand(
        table[owner2[t]].1@,
        defs,
        d,
    ) == out2[t].1@ by {
        if t < out.len() {
            assert(expand(table[owner[t]].1@, defs, d) == out[t].1@);
        }
    }
}

/// Taking the last definition off a path, once it is done, leaves a path.
pub proof fn lemma_path_pop(
    table: Seq<(String, Rc<Expr>)>,
    done: Seq<bool>,
    on_path: Seq<bool>,
    path: Seq<usize>,
)
    requires
        done.len() == table.len(),
        pending_path(table, done, on_path, path),
        path.len() > 0,
    ensures
        pending_path(
            table,
            done.update(path.last() as int, true),
            on_path.update(path.last() as int, false),
            path.drop_last(),
        ),
{
    reveal(pending_path);
    let cur = path.last() as int;
    let done2 = done.update(cur, true);
    let on2 = on_path.update(cur, false);
    let path2 = path.drop_last();
    assert forall|k: int| 0 <= k < path2.len() implies (#[trigger] path2[k]) < table.len()
        && !done2[path2[k] as int] && on2[path2[k] as int] by {
        assert(path[k] != path[path.len() - 1]);
    }
    assert forall|j: int| 0 <= j < table.len() && #[trigger] on2[j] implies exists|k: int|
        0 <= k < path2.len() && #[trigger] path2[k] == j by {
        assert(on_path[j]);
        let k = choose|k: int| 0 <= k < path.len() && #[trigger] path[k] == j;
        assert(path2[k] == j);
    }
    assert forall|k: int, l: int| 0 <= k < l < path2.len() implies #[trigger] path2[k]
        != #[trigger] path2[l] by {
        assert(path[k] != path[l]);
    }
    assert forall|k: int| 0 <= k < path2.len() - 1 implies mentions(
        table[(#[trigger] path2[k]) as int].1@,
        table[path2[k + 1] as int].0@,
    ) by {
        assert(mentions(table[path[k] as int].1@, table[path[k + 1] as int].0@));
    }
}

/// Putting a definition that the last one mentions, and that is neither done
/// nor on the path, behind the path makes a longer path; it is no longer
/// than the table.
pub proof fn lemma_path_push(
    table: Seq<(String, Rc<Expr>)>,
    done: Seq<bool>,
    on_path: Seq<bool>,
    path: Seq<usize>,
    next: usize,
)
    requires
        done.len() == table.len(),
        pending_path(table, done, on_path, path),
        path.len() > 0,
        next < table.len(),
        !done[next as int],
        !on_path[next as int],
        mentions(table[path.last() as int].1@, table[next as int].0@),
    ensures
        pending_path(table, done, on_path.update(next as int, true), path.push(next)),
        path.len() + 1 <= table.len(),
{
    reveal(pending_path);
    let on2 = on_path.update(next as int, true);
    let path2 = path.push(next);
    assert forall|k: int| 0 <= k < path2.len() implies (#[trigger] path2[k]) < table.len()
        && !done[path2[k] as int] && on2[path2[k] as int] by {
        if k < path.len() {
            assert(on_path[path[k] as int]);
        }
    }
    assert forall|j: int| 0 <= j < table.len() && #[trigger] on2[j] implies exists|k: int|
        0 <= k < path2.len() && #[trigger] path2[k] == j by {
        if j == next {
            assert(path2[path2.len() - 1] == j);
        } else {
            assert(on_path[j]);
            let k = choose|k: int| 0 <= k < path.len() && #[trigger] path[k] == j;
            assert(path2[k] == j);
        }
    }
    assert forall|k: int, l: int| 0 <= k < l < path2.len() implies #[trigger] path2[k]
        != #[trigger] path2[l] by {
        if l < path.len() {
            assert(path[k] != path[l]);
        } else {
            assert(on_path[path[k] as int]);
        }
    }
    assert forall|k: int| 0 <= k < path2.len() - 1 implies mentions(
        table[(#[trigger] path2[k]) as int].1@,
        table[path2[k + 1] as int].0@,
    ) by {
        if k < path.len() - 1 {
            assert(mentions(table[path[k] as int].1@, table[path[k + 1] as int].0@));
        }
    }
    let numbers = Seq::new(path2.len(), |t: int| path2[t] as int);
    assert forall|a: int, b: int| 0 <= a < b < numbers.len() implies #[trigger] numbers[a]
        != #[trigger] numbers[b] by {
        assert(path2[a] != path2[b]);
    }
    assert forall|a: int| 0 <= a < numbers.len() implies 0 <= #[trigger] numbers[a] < table.len() by {
        assert(path2[a] < table.len());
    }
    lemma_distinct_bounded(numbers, table.len() as int);
}

/// The names of the definitions on the path from `next` on, which the last
/// one mentions: a circle.
fn cycle_from(
    table: &Vec<(String, Rc<Expr>)>,
    path: &Vec<usize>,
    next: usize,
    Ghost(done): Ghost<Seq<bool>>,
    Ghost(on_path): Ghost<Seq<bool>>,
) -> (names: Vec<String>)
    requires
        distinct_names(table@),
        pending_path(table@, done, on_path, path@),
        path@.len() > 0,
        next < table@.len(),
        on_path[next as int],
        mentions(table@[path@.last() as int].1@, table@[next as int].0@),
    ensures
        is_cycle(bindings(table@), texts(names@)),
{
    proof {
        reveal(pending_path);
    }
    let mut k: usize = 0;
    while path[k] != next
        invariant
            k < path.len(),
            exists|l: int| k <= l < path@.len() && #[trigger] path@[l] == next,
        decreases path@.len() - k,
    {
        proof {
            let l = choose|l: int| k <= l < path@.len() && #[trigger] path@[l] == next;
            assert(l != k);
        }
        k += 1;
    }
    let mut names: Vec<String> = Vec::new();
    let mut l: usize = k;
    while l < path.len()
        invariant
            k <= l <= path@.len(),
            names@.len() == l - k,
            forall|t: int|
                0 <= t < names@.len() ==> (#[trigger] names@[t])@ == table@[path@[k + t] as int].0@,
            forall|t: int| 0 <= t < path@.len() ==> (#[trigger] path@[t]) < table@.len(),
            forall|t: int|
                0 <= t < path@.len() - 1 ==> mentions(
                    table@[(#[trigger] path@[t]) as int].1@,
                    table@[path@[t + 1] as int].0@,
                ),
        decreases path@.len() - l,
    {
        names.push(table[path[l]].0.clone());
        l += 1;
    }
    proof {
        let defs = bindings(table@);
        let c = texts(names@);
        assert forall|t: int| 0 <= t < c.len() implies depends(defs, #[trigger] c[t], after(c, t)) by {
            let a = path@[k + t] as int;
            lemma_bindings_distinct(table@, a);
            if t + 1 < c.len() {
                let b = path@[k + t + 1] as int;
                lemma_bindings_distinct(table@, b);
                assert(mentions(table@[a].1@, table@[b].0@));
            } else {
                lemma_bindings_distinct(table@, next as int);
                assert(a == path@.last());
                assert(c[0] == table@[next as int].0@);
            }
        }
    }
    names
}

/// The names among `commands`, ascending, each once.
pub fn distinct_sorted(commands: &Vec<String>) -> (names: Vec<String>)
    ensures
        ascending(texts(names@)),
        texts(names@).to_set() == texts(commands@).to_set(),
{
    let mut sorted: Vec<(Vec<char>, Vec<char>)> = Vec::new();
    let mut i: usize = 0;
    while i < commands.len()
        invariant
            i <= commands.len(),
            strictly_sorted(pairs_of(sorted@)),
            forall|p: (Seq<char>, Seq<char>)| #[trigger]
                pairs_of(sorted@).to_set().contains(p) <==> p.1 == Seq::<char>::empty() && texts(
                    commands@,
                ).take(i as int).to_set().contains(p.0),
        decreases commands.len() - i,
    {
        let ghost before = pairs_of(sorted@).to_set();
        let key = chars_of(commands[i].as_str());
        let blank: Vec<char> = Vec::new();
        insert_sorted(&mut sorted, (key, blank));
        proof {
            let all = texts(commands@);
            assert(all.take(i + 1) =~= all.take(i as int).push(all[i as int]));
            assert forall|p: (Seq<char>, Seq<char>)| #[trigger]
                pairs_of(sorted@).to_set().contains(p) <==> p.1 == Seq::<char>::empty() && all.take(
                    i + 1,
                ).to_set().contains(p.0) by {
                let shorter = all.take(i as int);
                let longer = all.take(i + 1);
                if longer.to_set().contains(p.0) {
                    let k = choose|k: int| 0 <= k < longer.len() && #[trigger] longer[k] == p.0;
                    if k < i {
                        assert(shorter[k] == p.0);
                    }
                }
                if shorter.to_set().contains(p.0) {
                    let k = choose|k: int| 0 <= k < shorter.len() && #[trigger] shorter[k] == p.0;
                    assert(longer[k] == p.0);
                }
                assert(longer[i as int] == all[i as int]);
                assert(before.contains(p) <==> p.1 == Seq::<char>::empty() && all.take(
                    i as int,
                ).to_set().contains(p.0));
            }
        }
        i += 1;
    }
    assert(texts(commands@).take(i as int) =~= texts(commands@));
    let mut names: Vec<String> = Vec::new();
    let mut k: usize = 0;
    while k < sorted.len()
        invariant
            k <= sorted@.len(),
            names@.len() == k,
            forall|t: int| 0 <= t < k ==> (#[trigger] names@[t])@ == sorted@[t].0@,
        decreases sorted@.len() - k,
    {
        let name = string_of(&sorted[k].0, 0, sorted[k].0.len());
        assert(sorted@[k as int].0@.subrange(0, sorted@[k as int].0@.len() as int) =~= sorted@[k as int].0@);
        names.push(name);
        k += 1;
    }
    proof {
        let pairs = pairs_of(sorted@);
        let got = texts(names@);
        assert forall|t: int| 0 <= t < pairs.len() implies (#[trigger] pairs[t]).1 == Seq::<char>::empty() by {
            assert(pairs.to_set().contains(pairs[t]));
        }
        assert forall|a: int, b: int| 0 <= a < b < got.len() implies lex_lt(
            #[trigger] got[a],
            #[trigger] got[b],
        ) by {
            assert(crate::text::pair_lt(pairs[a], pairs[b]));
            crate::text::lemma_lex_irreflexive(Seq::<char>::empty());
        }
        assert forall|x: Seq<char>| got.to_set().contains(x) <==> texts(commands@).to_set().contains(x) by {
            if got.to_set().contains(x) {
                let t = choose|t: int| 0 <= t < got.len() && #[trigger] got[t] == x;
                assert(pairs.to_set().contains(pairs[t]));
            }
            if texts(commands@).to_set().contains(x) {
                assert(pairs.to_set().contains((x, Seq::<char>::empty())));
                let t = choose|t: int|
                    0 <= t < pairs.len() && #[trigger] pairs[t] == (x, Seq::<char>::empty());
                assert(got[t] == x);
            }
        }
        assert(got.to_set() =~= texts(commands@).to_set());
    }
    names
}

impl Grammar {
    /// Checks that the grammar names one command, and that no definition
    /// depends on itself; gives the command and one expression for all that
    /// may follow it, with every defined nonterminal replaced by what it
    /// stands for.
    pub fn validate(&self) -> (r: Result<Validated, Error>)
        ensures
            validated_as(r, self@),
    {
        let mut commands: Vec<String> = Vec::new();
        let mut bodies: Vec<Rc<Expr>> = Vec::new();
        let mut defs: Vec<(String, Rc<Expr>)> = Vec::new();
        let mut i: usize = 0;
        assert(self@.take(0) =~= Seq::<StatementView>::empty());
        while i < self.statements.len()
            invariant
                i <= self.statements@.len(),
                self@.len() == self.statements@.len(),
                texts(commands@) == commands_of(self@.take(i as int)),
                views_of(bodies@) == bodies_of(self@.take(i as int)),
                bindings(defs@) == definitions_of(self@.take(i as int)),
                commands@.len() == bodies@.len(),
                commands@.len() + defs@.len() == i,
            decreases self.statements@.len() - i,
        {
            proof {
                assert(self@.take(i + 1).drop_last() =~= self@.take(i as int));
                assert(self@.take(i + 1).last() == self.statements@[i as int]@);
            }
            match &self.statements[i] {
                Statement::CallVariant { lhs, rhs } => {
                    let ghost c0 = texts(commands@);
                    let ghost b0 = views_of(bodies@);
                    commands.push(lhs.clone());
                    bodies.push(share(rhs));
                    assert(texts(commands@) =~= c0.push(lhs@));
                    assert(views_of(bodies@) =~= b0.push(rhs@));
                },
                Statement::VariableDefinition { symbol, rhs } => {
                    let ghost d0 = defs@;
                    defs.push((symbol.clone(), share(rhs)));
                    assert(defs@.drop_last() =~= d0);
                },
            }
            i += 1;
        }
        assert(self@.take(i as int) =~= self@);
        if commands.len() == 0 {
            return Err(Error::EmptyGrammar);
        }
        let mut k: usize = 1;
        let mut same = true;
        while k < commands.len()
            invariant
                1 <= k <= commands@.len(),
                same <==> forall|t: int| 0 <= t < k ==> (#[trigger] commands@[t])@ == commands@[0]@,
            decreases commands@.len() - k,
        {
            if commands[k] != commands[0] {
                same = false;
            }
            k += 1;
        }
        if !same {
            proof {
                let t = choose|t: int| 0 <= t < commands@.len() && (#[trigger] commands@[t])@ != commands@[0]@;
                assert(texts(commands@)[t] != texts(commands@)[0]);
            }
            return Err(Error::VaryingCommandNames(distinct_sorted(&commands)));
        }
        proof {
            assert forall|t: int| 0 <= t < commands@.len() implies #[trigger] texts(commands@)[t] == texts(
                commands@,
            )[0] by {
                assert(commands@[t]@ == commands@[0]@);
            }
        }
        let body = if bodies.len() == 1 {
            share(&bodies[0])
        } else {
            proof {
                lemma_view_alternative(bodies);
            }
            Rc::new(Expr::Alternative(bodies))
        };
        assert(body@ == body_of(self@));
        let table = last_bindings(&defs);
        match resolve_definitions(&table) {
            Err(cycle) => Err(Error::CyclicVariables(cycle)),
            Ok(out) => {
                let expr = resolve_variables(body, &out);
                proof {
                    let all = bindings(defs@);
                    let other = bindings(out@);
                    let depth = self@.len();
                    assert forall|name: Seq<char>|
                        all.contains_key(name) && #[trigger] mentions(body@, name) implies other.contains_key(
                        name,
                    ) && other[name] == expand(all[name], all, (depth - 1) as nat) by {
                        assert(other.contains_key(name));
                    }
                    crate::validate::lemma_expand_by_substitute(body@, all, other, depth);
                    crate::validate::lemma_substitute_settles(body@, all, other);
                }
                Ok(Validated { command: commands[0].clone(), expr })
            },
        }
    }
}

} // verus!
