//! Replacing nonterminals by their definitions.

use crate::grammar::{views_of, Expr, ExprView};
use std::rc::Rc;
use vstd::prelude::*;

verus! {

/// Calls `Rc::clone`, which makes another pointer to the same value.
#[verifier::external_body]
pub(crate) fn share(e: &Rc<Expr>) -> (r: Rc<Expr>)
    ensures
        r == *e,
{
    Rc::clone(e)
}

/// Whether the nonterminal `name` occurs in `e`.
pub open spec fn mentions(e: ExprView, name: Seq<char>) -> bool
    decreases e,
{
    match e {
        ExprView::Variable(n) => n == name,
        ExprView::Sequence(cs) => exists|i: int| 0 <= i < cs.len() && mentions(#[trigger] cs[i], name),
        ExprView::Alternative(cs) => exists|i: int|
            0 <= i < cs.len() && mentions(#[trigger] cs[i], name),
        ExprView::Optional(c) => mentions(*c, name),
        ExprView::Many1(c) => mentions(*c, name),
        _ => false,
    }
}

/// What a sequence mentions, one of its members mentions.
pub proof fn lemma_mentions_sequence(cs: Seq<ExprView>, i: int, name: Seq<char>)
    requires
        0 <= i < cs.len(),
        mentions(cs[i], name),
    ensures
        mentions(ExprView::Sequence(cs), name),
        mentions(ExprView::Alternative(cs), name),
{
    assert(mentions(ExprView::Sequence(cs)->Sequence_0[i], name));
    assert(mentions(ExprView::Alternative(cs)->Alternative_0[i], name));
}

/// Whether `e` is resolved: no nonterminal that `defs` defines occurs in it.
pub open spec fn resolved(e: ExprView, defs: Map<Seq<char>, ExprView>) -> bool {
    forall|name: Seq<char>| defs.contains_key(name) ==> !mentions(e, name)
}

/// `e` with every occurrence of a nonterminal that `defs` defines replaced by
/// its definition, as it stands there.
pub open spec fn substitute(e: ExprView, defs: Map<Seq<char>, ExprView>) -> ExprView
    decreases e,
{
    match e {
        ExprView::Variable(n) => if defs.contains_key(n) {
            defs[n]
        } else {
            e
        },
        ExprView::Sequence(cs) => ExprView::Sequence(
            Seq::new(
                cs.len(),
                |i: int|
                    if 0 <= i < cs.len() {
                        substitute(cs[i], defs)
                    } else {
                        arbitrary()
                    },
            ),
        ),
        ExprView::Alternative(cs) => ExprView::Alternative(
            Seq::new(
                cs.len(),
                |i: int|
                    if 0 <= i < cs.len() {
                        substitute(cs[i], defs)
                    } else {
                        arbitrary()
                    },
            ),
        ),
        ExprView::Optional(c) => ExprView::Optional(Box::new(substitute(*c, defs))),
        ExprView::Many1(c) => ExprView::Many1(Box::new(substitute(*c, defs))),
        _ => e,
    }
}

/// `e` with every occurrence of a nonterminal that `defs` defines replaced by
/// its definition, and so on inside the definitions, `depth` definitions
/// deep at most.
pub open spec fn expand(e: ExprView, defs: Map<Seq<char>, ExprView>, depth: nat) -> ExprView
    decreases depth, e,
{
    match e {
        ExprView::Variable(n) => if defs.contains_key(n) && depth > 0 {
            expand(defs[n], defs, (depth - 1) as nat)
        } else {
            e
        },
        ExprView::Sequence(cs) => ExprView::Sequence(
            Seq::new(
                cs.len(),
                |i: int|
                    if 0 <= i < cs.len() {
                        expand(cs[i], defs, depth)
                    } else {
                        arbitrary()
                    },
            ),
        ),
        ExprView::Alternative(cs) => ExprView::Alternative(
            Seq::new(
                cs.len(),
                |i: int|
                    if 0 <= i < cs.len() {
                        expand(cs[i], defs, depth)
                    } else {
                        arbitrary()
                    },
            ),
        ),
        ExprView::Optional(c) => ExprView::Optional(Box::new(expand(*c, defs, depth))),
        ExprView::Many1(c) => ExprView::Many1(Box::new(expand(*c, defs, depth))),
        _ => e,
    }
}

/// The definitions that a list of bindings makes; of two bindings of one
/// name the later one counts.
pub open spec fn bindings(v: Seq<(String, Rc<Expr>)>) -> Map<Seq<char>, ExprView>
    decreases v.len(),
{
    if v.len() == 0 {
        Map::empty()
    } else {
        bindings(v.drop_last()).insert(v.last().0@, v.last().1@)
    }
}

/// Resolution changes nothing in what is resolved already.
pub proof fn lemma_substitute_resolved(e: ExprView, defs: Map<Seq<char>, ExprView>)
    requires
        resolved(e, defs),
    ensures
        substitute(e, defs) == e,
    decreases e,
{
    match e {
        ExprView::Variable(n) => {
            assert(mentions(e, n));
        },
        ExprView::Sequence(cs) => {
            assert forall|i: int| 0 <= i < cs.len() implies substitute(cs[i], defs) == cs[i] by {
                assert forall|name: Seq<char>| defs.contains_key(name) implies !mentions(
                    cs[i],
                    name,
                ) by {
                    assert(!mentions(e, name));
                }
                lemma_substitute_resolved(cs[i], defs);
            }
            assert(substitute(e, defs)->Sequence_0 =~= cs);
        },
        ExprView::Alternative(cs) => {
            assert forall|i: int| 0 <= i < cs.len() implies substitute(cs[i], defs) == cs[i] by {
                assert forall|name: Seq<char>| defs.contains_key(name) implies !mentions(
                    cs[i],
                    name,
                ) by {
                    assert(!mentions(e, name));
                }
                lemma_substitute_resolved(cs[i], defs);
            }
            assert(substitute(e, defs)->Alternative_0 =~= cs);
        },
        ExprView::Optional(c) => {
            assert forall|name: Seq<char>| defs.contains_key(name) implies !mentions(*c, name) by {
                assert(!mentions(e, name));
            }
            lemma_substitute_resolved(*c, defs);
        },
        ExprView::Many1(c) => {
            assert forall|name: Seq<char>| defs.contains_key(name) implies !mentions(*c, name) by {
                assert(!mentions(e, name));
            }
            lemma_substitute_resolved(*c, defs);
        },
        _ => {},
    }
}

/// Where every definition is resolved, resolving once resolves: the result
/// mentions no defined nonterminal, and resolving it again changes nothing.
pub proof fn lemma_substitute_idempotent(e: ExprView, defs: Map<Seq<char>, ExprView>)
    requires
        forall|name: Seq<char>| defs.contains_key(name) ==> resolved(#[trigger] defs[name], defs),
    ensures
        resolved(substitute(e, defs), defs),
        substitute(substitute(e, defs), defs) == substitute(e, defs),
{
    lemma_substitute_resolves(e, defs);
    lemma_substitute_resolved(substitute(e, defs), defs);
}

/// Where every definition is resolved, what resolution gives is resolved.
pub proof fn lemma_substitute_resolves(e: ExprView, defs: Map<Seq<char>, ExprView>)
    requires
        forall|name: Seq<char>| defs.contains_key(name) ==> resolved(#[trigger] defs[name], defs),
    ensures
        resolved(substitute(e, defs), defs),
    decreases e,
{
    let r = substitute(e, defs);
    assert forall|name: Seq<char>| defs.contains_key(name) implies !mentions(r, name) by {
        match e {
            ExprView::Variable(n) => {
                if defs.contains_key(n) {
                    assert(resolved(defs[n], defs));
                    assert(!mentions(defs[n], name));
                } else {
                    assert(name != n);
                }
            },
            ExprView::Sequence(cs) => {
                if mentions(r, name) {
                    let rs = r->Sequence_0;
                    let i = choose|i: int| 0 <= i < rs.len() && mentions(#[trigger] rs[i], name);
                    lemma_substitute_resolves(cs[i], defs);
                    assert(rs[i] == substitute(cs[i], defs));
                    assert(!mentions(substitute(cs[i], defs), name));
                }
            },
            ExprView::Alternative(cs) => {
                if mentions(r, name) {
                    let rs = r->Alternative_0;
                    let i = choose|i: int| 0 <= i < rs.len() && mentions(#[trigger] rs[i], name);
                    lemma_substitute_resolves(cs[i], defs);
                    assert(rs[i] == substitute(cs[i], defs));
                    assert(!mentions(substitute(cs[i], defs), name));
                }
            },
            ExprView::Optional(c) => {
                lemma_substitute_resolves(*c, defs);
                assert(!mentions(substitute(*c, defs), name));
            },
            ExprView::Many1(c) => {
                lemma_substitute_resolves(*c, defs);
                assert(!mentions(substitute(*c, defs), name));
            },
            _ => {},
        }
    }
}

/// Expansion changes nothing in what is resolved already, however deep.
pub proof fn lemma_expand_resolved(e: ExprView, defs: Map<Seq<char>, ExprView>, depth: nat)
    requires
        resolved(e, defs),
    ensures
        expand(e, defs, depth) == e,
    decreases e,
{
    match e {
        ExprView::Variable(n) => {
            assert(mentions(e, n));
        },
        ExprView::Sequence(cs) => {
            assert forall|i: int| 0 <= i < cs.len() implies expand(cs[i], defs, depth) == cs[i] by {
                assert forall|name: Seq<char>| defs.contains_key(name) implies !mentions(
                    cs[i],
                    name,
                ) by {
                    assert(!mentions(e, name));
                }
                lemma_expand_resolved(cs[i], defs, depth);
            }
            assert(expand(e, defs, depth)->Sequence_0 =~= cs);
        },
        ExprView::Alternative(cs) => {
            assert forall|i: int| 0 <= i < cs.len() implies expand(cs[i], defs, depth) == cs[i] by {
                assert forall|name: Seq<char>| defs.contains_key(name) implies !mentions(
                    cs[i],
                    name,
                ) by {
                    assert(!mentions(e, name));
                }
                lemma_expand_resolved(cs[i], defs, depth);
            }
            assert(expand(e, defs, depth)->Alternative_0 =~= cs);
        },
        ExprView::Optional(c) => {
            assert forall|name: Seq<char>| defs.contains_key(name) implies !mentions(*c, name) by {
                assert(!mentions(e, name));
            }
            lemma_expand_resolved(*c, defs, depth);
        },
        ExprView::Many1(c) => {
            assert forall|name: Seq<char>| defs.contains_key(name) implies !mentions(*c, name) by {
                assert(!mentions(e, name));
            }
            lemma_expand_resolved(*c, defs, depth);
        },
        _ => {},
    }
}

/// The value of a sequence is the sequence of its children's values.
pub proof fn lemma_view_sequence(v: Vec<Rc<Expr>>)
    ensures
        Expr::Sequence(v)@ == ExprView::Sequence(views_of(v@)),
{
    assert(Expr::Sequence(v)@->Sequence_0 =~= views_of(v@));
}

/// The value of an alternative is the sequence of its children's values.
pub proof fn lemma_view_alternative(v: Vec<Rc<Expr>>)
    ensures
        Expr::Alternative(v)@ == ExprView::Alternative(views_of(v@)),
{
    assert(Expr::Alternative(v)@->Alternative_0 =~= views_of(v@));
}

/// The place of the last binding of `name` in `vars`, if it has one.
pub fn lookup(vars: &Vec<(String, Rc<Expr>)>, name: &String) -> (r: Option<usize>)
    ensures
        r is Some <==> bindings(vars@).contains_key(name@),
        r matches Some(i) ==> i < vars.len() && vars@[i as int].0@ == name@ && bindings(vars@)[name@]
            == vars@[i as int].1@,
        r matches Some(i) ==> forall|k: int| i < k < vars.len() ==> (#[trigger] vars@[k]).0@ != name@,
{
    let mut i: usize = vars.len();
    assert(vars@.take(i as int) =~= vars@);
    while i > 0
        invariant
            i <= vars.len(),
            bindings(vars@).contains_key(name@) <==> bindings(vars@.take(i as int)).contains_key(
                name@,
            ),
            bindings(vars@).contains_key(name@) ==> bindings(vars@)[name@] == bindings(
                vars@.take(i as int),
            )[name@],
            forall|k: int| i <= k < vars.len() ==> (#[trigger] vars@[k]).0@ != name@,
        decreases i,
    {
        i -= 1;
        assert(vars@.take(i + 1).drop_last() =~= vars@.take(i as int));
        if vars[i].0 == *name {
            return Some(i);
        }
    }
    None
}

/// Replaces every nonterminal in `expr` that `vars` binds by what it is bound
/// to, as it stands there.
pub fn resolve_variables(expr: Rc<Expr>, vars: &Vec<(String, Rc<Expr>)>) -> (r: Rc<Expr>)
    ensures
        r@ == substitute(expr@, bindings(vars@)),
{
    resolve_in(&expr, vars)
}

/// The values of the first `n` of `children`, resolved.
pub open spec fn substituted(
    children: Seq<Rc<Expr>>,
    defs: Map<Seq<char>, ExprView>,
    n: int,
) -> Seq<ExprView> {
    Seq::new(n as nat, |k: int| substitute(children[k]@, defs))
}

/// Each of `children` with its bound nonterminals replaced.
fn resolve_all(children: &Vec<Rc<Expr>>, vars: &Vec<(String, Rc<Expr>)>) -> (r: Vec<Rc<Expr>>)
    ensures
        views_of(r@) == substituted(children@, bindings(vars@), children@.len() as int),
    decreases children, 0int,
{
    let mut out: Vec<Rc<Expr>> = Vec::new();
    let mut i: usize = 0;
    while i < children.len()
        invariant
            i <= children.len(),
            out@.len() == i,
            views_of(out@) =~= substituted(children@, bindings(vars@), i as int),
        decreases children.len() - i,
    {
        let c = resolve_in(&children[i], vars);
        let ghost before = out@;
        out.push(c);
        i += 1;
        proof {
            let want = substituted(children@, bindings(vars@), i as int);
            assert forall|k: int| 0 <= k < i implies views_of(out@)[k] == want[k] by {
                if k < i - 1 {
                    assert(views_of(before)[k] == substituted(children@, bindings(vars@), i - 1)[k]);
                }
            }
        }
    }
    assert(views_of(out@) =~= substituted(children@, bindings(vars@), children@.len() as int));
    out
}

/// `expr` with its bound nonterminals replaced.
fn resolve_in(expr: &Rc<Expr>, vars: &Vec<(String, Rc<Expr>)>) -> (r: Rc<Expr>)
    ensures
        r@ == substitute(expr@, bindings(vars@)),
    decreases **expr, 1int,
{
    match &**expr {
        Expr::Variable(name) => match lookup(vars, name) {
            Some(i) => share(&vars[i].1),
            None => share(expr),
        },
        Expr::Sequence(children) => {
            let out = resolve_all(children, vars);
            proof {
                lemma_view_sequence(*children);
                lemma_view_sequence(out);
                assert(substitute(expr@, bindings(vars@))->Sequence_0 =~= views_of(out@));
            }
            Rc::new(Expr::Sequence(out))
        },
        Expr::Alternative(children) => {
            let out = resolve_all(children, vars);
            proof {
                lemma_view_alternative(*children);
                lemma_view_alternative(out);
                assert(substitute(expr@, bindings(vars@))->Alternative_0 =~= views_of(out@));
            }
            Rc::new(Expr::Alternative(out))
        },
        Expr::Optional(child) => Rc::new(Expr::Optional(resolve_in(child, vars))),
        Expr::Many1(child) => Rc::new(Expr::Many1(resolve_in(child, vars))),
        _ => share(expr),
    }
}

} // verus!
