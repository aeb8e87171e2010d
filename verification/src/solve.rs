//! Substitutions and unification over type trees.
//!
//! The checker keeps its types in an arena and its substitutions as pairs of
//! a variable and an arena type. Here the same substitutions are read as
//! pairs of a variable and a tree, and resolution, unification and
//! composition are stated on trees; the lemmas tie the two readings.
use vstd::prelude::*;

use crate::types::{find, lemma_find, occurs, resolve_from, tree, types_wf, bound_from, Ty, Type};

verus! {

/// A substitution over trees: each variable with the tree it is bound to.
pub type TreeSubst = Seq<(usize, Ty)>;

/// Why unifying or composing failed, with the types as trees.
pub enum TyError {
    /// Two types whose outermost forms differ.
    Mismatch(Ty, Ty),
    /// A variable bound to a type that contains it.
    Infinite(usize, Ty),
    /// A composition whose bindings refer back to earlier ones.
    Cyclic,
}

/// The variables of `st`, each paired with a placeholder, so that the
/// lookups of arena substitutions apply.
pub open spec fn skeys(st: TreeSubst) -> Seq<(usize, usize)> {
    Seq::new(st.len(), |i: int| (st[i].0, 0usize))
}

/// Arena substitution `s` read over the arena `ts` as a substitution of trees.
pub open spec fn subst_trees(ts: Seq<Type>, s: Seq<(usize, usize)>) -> TreeSubst {
    Seq::new(s.len(), |i: int| (s[i].0, tree(ts, s[i].1 as int)))
}

/// Tree `t` with every variable bound at position `k` or later of `st`
/// replaced by what it is bound to, resolved in turn from the position after
/// that binding.
pub open spec fn resolve_t(st: TreeSubst, t: Ty, k: int) -> Ty
    decreases st.len() - k, t,
{
    if k < 0 || k > st.len() {
        Ty::Unit
    } else {
        match t {
            Ty::Var(v) => match find(skeys(st), v, k) {
                Some(j) => if k <= j < st.len() {
                    resolve_t(st, st[j].1, j + 1)
                } else {
                    Ty::Var(v)
                },
                None => Ty::Var(v),
            },
            Ty::Arrow(p, b) => Ty::Arrow(Box::new(resolve_t(st, *p, k)), Box::new(resolve_t(st, *b, k))),
            _ => t,
        }
    }
}

/// Tree `t` resolved under `st` from position `k`, leaving the variables of
/// `xs` alone.
pub open spec fn resolve_except_t(st: TreeSubst, xs: Seq<crate::types::TypeVar>, t: Ty, k: int) -> Ty
    decreases st.len() - k, t,
{
    if k < 0 || k > st.len() {
        Ty::Unit
    } else {
        match t {
            Ty::Var(v) => if xs.contains(crate::types::TypeVar(v)) {
                Ty::Var(v)
            } else {
                match find(skeys(st), v, k) {
                    Some(j) => if k <= j < st.len() {
                        resolve_except_t(st, xs, st[j].1, j + 1)
                    } else {
                        Ty::Var(v)
                    },
                    None => Ty::Var(v),
                }
            },
            Ty::Arrow(p, b) => Ty::Arrow(
                Box::new(resolve_except_t(st, xs, *p, k)),
                Box::new(resolve_except_t(st, xs, *b, k)),
            ),
            _ => t,
        }
    }
}

/// Every variable of `t` that `st` binds is bound at position `k` or later.
pub open spec fn bound_from_t(st: TreeSubst, t: Ty, k: int) -> bool
    decreases t,
{
    match t {
        Ty::Var(v) => match find(skeys(st), v, 0) {
            Some(j) => j >= k,
            None => true,
        },
        Ty::Arrow(p, b) => bound_from_t(st, *p, k) && bound_from_t(st, *b, k),
        _ => true,
    }
}

/// What each position of `st` binds mentions only variables that are free or
/// bound later.
pub open spec fn triangular_t(st: TreeSubst) -> bool {
    forall|j: int| 0 <= j < st.len() ==> bound_from_t(st, (#[trigger] st[j]).1, j + 1)
}

/// Lookups depend only on the variables of a substitution.
pub proof fn lemma_find_keys(a: Seq<(usize, usize)>, b: Seq<(usize, usize)>, v: usize, k: int)
    requires
        a.len() == b.len(),
        forall|i: int| 0 <= i < a.len() ==> (#[trigger] a[i]).0 == b[i].0,
    ensures
        find(a, v, k) == find(b, v, k),
    decreases a.len() - k,
{
    if !(k < 0 || k >= a.len()) {
        lemma_find_keys(a, b, v, k + 1);
    }
}

/// Resolving in the arena is resolving the trees.
pub proof fn lemma_resolve_trees(ts: Seq<Type>, s: Seq<(usize, usize)>, id: int, k: int)
    requires
        0 <= id < ts.len(),
    ensures
        resolve_from(ts, s, id, k) == resolve_t(subst_trees(ts, s), tree(ts, id), k),
    decreases s.len() - k, id,
{
    let st = subst_trees(ts, s);
    assert(st.len() == s.len());
    if !(k < 0 || k > s.len()) {
        match ts[id] {
            Type::Var(v) => {
                lemma_find_keys(s, skeys(st), v.0, k);
                assert(st.len() == s.len());
                assert(tree(ts, id) == Ty::Var(v.0));
                if let Some(j) = find(s, v.0, k) {
                    if k <= j < s.len() {
                        assert(st[j].1 == tree(ts, s[j].1 as int));
                        if 0 <= s[j].1 < ts.len() {
                            lemma_resolve_trees(ts, s, s[j].1 as int, j + 1);
                        } else {
                            assert(resolve_t(st, Ty::Unit, j + 1) == Ty::Unit);
                        }
                    }
                }
            },
            Type::Abs(p, b) => {
                if 0 <= p.0 < id {
                    lemma_resolve_trees(ts, s, p.0 as int, k);
                } else {
                    assert(resolve_t(st, Ty::Unit, k) == Ty::Unit);
                }
                if 0 <= b.0 < id {
                    lemma_resolve_trees(ts, s, b.0 as int, k);
                } else {
                    assert(resolve_t(st, Ty::Unit, k) == Ty::Unit);
                }
            },
            _ => {},
        }
    }
}

/// Resolving in the arena with some variables left alone is the same on trees.
pub proof fn lemma_resolve_except_trees(
    ts: Seq<Type>,
    s: Seq<(usize, usize)>,
    xs: Seq<crate::types::TypeVar>,
    id: int,
    k: int,
)
    requires
        0 <= id < ts.len(),
    ensures
        crate::checker::resolve_except(ts, s, xs, id, k) == resolve_except_t(subst_trees(ts, s), xs, tree(ts, id), k),
    decreases s.len() - k, id,
{
    let st = subst_trees(ts, s);
    assert(st.len() == s.len());
    if !(k < 0 || k > s.len()) {
        match ts[id] {
            Type::Var(v) => {
                lemma_find_keys(s, skeys(st), v.0, k);
                assert(st.len() == s.len());
                assert(tree(ts, id) == Ty::Var(v.0));
                if let Some(j) = find(s, v.0, k) {
                    if k <= j < s.len() {
                        assert(st[j].1 == tree(ts, s[j].1 as int));
                        if 0 <= s[j].1 < ts.len() {
                            lemma_resolve_except_trees(ts, s, xs, s[j].1 as int, j + 1);
                        } else {
                            assert(resolve_except_t(st, xs, Ty::Unit, j + 1) == Ty::Unit);
                        }
                    }
                }
            },
            Type::Abs(p, b) => {
                if 0 <= p.0 < id {
                    lemma_resolve_except_trees(ts, s, xs, p.0 as int, k);
                } else {
                    assert(resolve_except_t(st, xs, Ty::Unit, k) == Ty::Unit);
                }
                if 0 <= b.0 < id {
                    lemma_resolve_except_trees(ts, s, xs, b.0 as int, k);
                } else {
                    assert(resolve_except_t(st, xs, Ty::Unit, k) == Ty::Unit);
                }
            },
            _ => {},
        }
    }
}

/// Checking triangularity in the arena is checking it on the trees.
pub proof fn lemma_bound_from_trees(ts: Seq<Type>, s: Seq<(usize, usize)>, id: int, k: int)
    requires
        0 <= id < ts.len(),
        types_wf(ts, usize::MAX as int + 1),
    ensures
        bound_from(ts, s, id, k) == bound_from_t(subst_trees(ts, s), tree(ts, id), k),
    decreases id,
{
    let st = subst_trees(ts, s);
    assert(types_wf(ts, usize::MAX as int + 1) ==> match ts[id] {
        Type::Abs(p, b) => p.0 < id && b.0 < id,
        _ => true,
    });
    match ts[id] {
        Type::Var(v) => {
            lemma_find_keys(s, skeys(st), v.0, 0);
        },
        Type::Abs(p, b) => {
            lemma_bound_from_trees(ts, s, p.0 as int, k);
            lemma_bound_from_trees(ts, s, b.0 as int, k);
        },
        _ => {},
    }
}

/// Unifying the pairs of `eqs` in order, starting from `st`, with at most
/// `fuel` steps; `None` when the fuel runs out. Each step resolves the first
/// pair under the substitution so far. Equal base types, or the same
/// variable, need nothing. A variable is bound to the other type, unless that
/// type contains it. Two function types give their parameters and then their
/// results as the next pairs. Anything else is a mismatch.
pub open spec fn unify_t(st: TreeSubst, eqs: Seq<(Ty, Ty)>, fuel: nat) -> Option<Result<TreeSubst, TyError>>
    decreases fuel,
{
    if eqs.len() == 0 {
        Some(Ok(st))
    } else if fuel == 0 {
        None
    } else {
        let a = resolve_t(st, eqs[0].0, 0);
        let b = resolve_t(st, eqs[0].1, 0);
        let rest = eqs.subrange(1, eqs.len() as int);
        let f = (fuel - 1) as nat;
        match (a, b) {
            (Ty::Unit, Ty::Unit) => unify_t(st, rest, f),
            (Ty::Int, Ty::Int) => unify_t(st, rest, f),
            (Ty::Bool, Ty::Bool) => unify_t(st, rest, f),
            (Ty::Var(v), _) => if b == Ty::Var(v) {
                unify_t(st, rest, f)
            } else if occurs(b, v) {
                Some(Err(TyError::Infinite(v, b)))
            } else {
                unify_t(st.push((v, b)), rest, f)
            },
            (_, Ty::Var(v)) => if occurs(a, v) {
                Some(Err(TyError::Infinite(v, a)))
            } else {
                unify_t(st.push((v, a)), rest, f)
            },
            (Ty::Arrow(pa, ba), Ty::Arrow(pb, bb)) => unify_t(st, seq![(*pa, *pb), (*ba, *bb)] + rest, f),
            _ => Some(Err(TyError::Mismatch(a, b))),
        }
    }
}

/// The outcome of unifying `eqs` from `st`, when some amount of fuel is
/// enough; `None` when no amount is.
pub open spec fn unify_res(st: TreeSubst, eqs: Seq<(Ty, Ty)>) -> Option<Result<TreeSubst, TyError>> {
    if exists|f: nat| #[trigger] unify_t(st, eqs, f) is Some {
        unify_t(st, eqs, choose|f: nat| #[trigger] unify_t(st, eqs, f) is Some)
    } else {
        None
    }
}

/// More fuel changes no outcome that was reached.
pub proof fn lemma_unify_more_fuel(st: TreeSubst, eqs: Seq<(Ty, Ty)>, f: nat, g: nat)
    requires
        unify_t(st, eqs, f) is Some,
        f <= g,
    ensures
        unify_t(st, eqs, g) == unify_t(st, eqs, f),
    decreases f,
{
    if eqs.len() > 0 && f > 0 {
        let a = resolve_t(st, eqs[0].0, 0);
        let b = resolve_t(st, eqs[0].1, 0);
        let rest = eqs.subrange(1, eqs.len() as int);
        let f1 = (f - 1) as nat;
        let g1 = (g - 1) as nat;
        match (a, b) {
            (Ty::Unit, Ty::Unit) | (Ty::Int, Ty::Int) | (Ty::Bool, Ty::Bool) => {
                lemma_unify_more_fuel(st, rest, f1, g1);
            },
            (Ty::Var(v), _) => {
                if b == Ty::Var(v) {
                    lemma_unify_more_fuel(st, rest, f1, g1);
                } else if !occurs(b, v) {
                    lemma_unify_more_fuel(st.push((v, b)), rest, f1, g1);
                }
            },
            (_, Ty::Var(v)) => {
                if !occurs(a, v) {
                    lemma_unify_more_fuel(st.push((v, a)), rest, f1, g1);
                }
            },
            (Ty::Arrow(pa, ba), Ty::Arrow(pb, bb)) => {
                lemma_unify_more_fuel(st, seq![(*pa, *pb), (*ba, *bb)] + rest, f1, g1);
            },
            _ => {},
        }
    }
}

/// An outcome reached with some fuel is the outcome of unification.
pub proof fn lemma_unify_res(st: TreeSubst, eqs: Seq<(Ty, Ty)>, f: nat)
    requires
        unify_t(st, eqs, f) is Some,
    ensures
        unify_res(st, eqs) == unify_t(st, eqs, f),
{
    let g = choose|g: nat| #[trigger] unify_t(st, eqs, g) is Some;
    assert(unify_t(st, eqs, g) is Some);
    if f <= g {
        lemma_unify_more_fuel(st, eqs, f, g);
    } else {
        lemma_unify_more_fuel(st, eqs, g, f);
    }
}

/// Unifying two lists in a row: where the first list fails, so does the
/// whole; where it succeeds, the second goes on from what it gave.
pub proof fn lemma_unify_append(st: TreeSubst, l1: Seq<(Ty, Ty)>, l2: Seq<(Ty, Ty)>, f1: nat, f2: nat)
    requires
        unify_t(st, l1, f1) is Some,
    ensures
        unify_t(st, l1, f1) matches Some(Err(e)) ==> unify_t(st, l1 + l2, f1) == Some(Err::<TreeSubst, TyError>(e)),
        unify_t(st, l1, f1) matches Some(Ok(st1)) ==> (unify_t(st1, l2, f2) is Some ==> unify_t(st, l1 + l2, f1 + f2)
            == unify_t(st1, l2, f2)),
    decreases f1,
{
    if l1.len() == 0 {
        assert(l1 + l2 =~= l2);
        if unify_t(st, l2, f2) is Some {
            lemma_unify_more_fuel(st, l2, f2, f1 + f2);
        }
    } else {
        let l = l1 + l2;
        assert(l[0] == l1[0]);
        let rest1 = l1.subrange(1, l1.len() as int);
        assert(l.subrange(1, l.len() as int) =~= rest1 + l2);
        let a = resolve_t(st, l1[0].0, 0);
        let b = resolve_t(st, l1[0].1, 0);
        let g1 = (f1 - 1) as nat;
        match (a, b) {
            (Ty::Unit, Ty::Unit) | (Ty::Int, Ty::Int) | (Ty::Bool, Ty::Bool) => {
                lemma_unify_append(st, rest1, l2, g1, f2);
            },
            (Ty::Var(v), _) => {
                if b == Ty::Var(v) {
                    lemma_unify_append(st, rest1, l2, g1, f2);
                } else if !occurs(b, v) {
                    lemma_unify_append(st.push((v, b)), rest1, l2, g1, f2);
                }
            },
            (_, Ty::Var(v)) => {
                if !occurs(a, v) {
                    lemma_unify_append(st.push((v, a)), rest1, l2, g1, f2);
                }
            },
            (Ty::Arrow(pa, ba), Ty::Arrow(pb, bb)) => {
                let pre = seq![(*pa, *pb), (*ba, *bb)];
                assert(pre + (rest1 + l2) =~= (pre + rest1) + l2);
                lemma_unify_append(st, pre + rest1, l2, g1, f2);
            },
            _ => {},
        }
    }
}

/// A substitution reads the same in an arena that extends the one it points into.
pub proof fn lemma_subst_trees_frame(ts: Seq<Type>, ts2: Seq<Type>, s: Seq<(usize, usize)>)
    requires
        crate::types::extends(ts, ts2),
        forall|j: int| 0 <= j < s.len() ==> (#[trigger] s[j]).1 < ts.len(),
    ensures
        subst_trees(ts2, s) == subst_trees(ts, s),
{
    assert forall|j: int| 0 <= j < s.len() implies #[trigger] subst_trees(ts2, s)[j] == subst_trees(ts, s)[j] by {
        crate::types::lemma_tree_frame(ts, ts2, s[j].1 as int);
    }
    assert(subst_trees(ts2, s) =~= subst_trees(ts, s));
}

/// An outcome of unification is reached with some amount of fuel.
pub proof fn lemma_unify_witness(st: TreeSubst, eqs: Seq<(Ty, Ty)>) -> (f: nat)
    requires
        unify_res(st, eqs) is Some,
    ensures
        unify_t(st, eqs, f) == unify_res(st, eqs),
{
    choose|f: nat| #[trigger] unify_t(st, eqs, f) is Some
}

/// The bindings of `older` for variables that `newer` leaves free, in order,
/// each with `newer` applied to what it binds.
pub open spec fn compose_tail(newer: TreeSubst, older: TreeSubst) -> TreeSubst
    decreases older.len(),
{
    if older.len() == 0 {
        Seq::empty()
    } else {
        let rest = compose_tail(newer, older.drop_last());
        let (x, t) = older.last();
        if find(skeys(newer), x, 0) is Some {
            rest
        } else {
            rest.push((x, resolve_t(newer, t, 0)))
        }
    }
}

/// `newer` composed with `older`: the bindings of `newer`, then those of
/// `older` that it leaves free with `newer` applied; a composition that is not
/// triangular is refused.
pub open spec fn compose_t(newer: TreeSubst, older: TreeSubst) -> Result<TreeSubst, TyError> {
    let c = newer + compose_tail(newer, older);
    if triangular_t(c) {
        Ok(c)
    } else {
        Err(TyError::Cyclic)
    }
}


/// The variables of `st` are distinct.
pub open spec fn distinct_keys(st: TreeSubst) -> bool {
    forall|a: int, b: int| 0 <= a < b < st.len() ==> st[a].0 != st[b].0
}

/// No variable of `t` is bound by `st`.
pub open spec fn avoids(t: Ty, st: TreeSubst) -> bool
    decreases t,
{
    match t {
        Ty::Var(v) => find(skeys(st), v, 0) is None,
        Ty::Arrow(p, b) => avoids(*p, st) && avoids(*b, st),
        _ => true,
    }
}

/// No variable of `t` is bound at position `k` or later of `st`.
pub open spec fn unbound_from(t: Ty, st: TreeSubst, k: int) -> bool
    decreases t,
{
    match t {
        Ty::Var(v) => find(skeys(st), v, k) is None,
        Ty::Arrow(p, b) => unbound_from(*p, st, k) && unbound_from(*b, st, k),
        _ => true,
    }
}

/// Where `newer` and `older` bind different variables and `newer` binds none
/// to a type that mentions a variable of `older`, composing them is applying
/// `older` and then `newer`.
pub open spec fn composable(newer: TreeSubst, older: TreeSubst) -> bool {
    &&& distinct_keys(newer)
    &&& distinct_keys(older)
    &&& forall|i: int, j: int| 0 <= i < newer.len() && 0 <= j < older.len() ==> newer[i].0 != older[j].0
    &&& forall|i: int| 0 <= i < newer.len() ==> avoids((#[trigger] newer[i]).1, older)
}

/// Resolving changes nothing where no variable is bound from position `k`.
proof fn lemma_resolve_unbound(st: TreeSubst, t: Ty, k: int)
    requires
        0 <= k <= st.len(),
        unbound_from(t, st, k),
    ensures
        resolve_t(st, t, k) == t,
    decreases t,
{
    if let Ty::Arrow(p, b) = t {
        lemma_resolve_unbound(st, *p, k);
        lemma_resolve_unbound(st, *b, k);
    }
}

/// Resolving under a substitution whose bindings avoid `older` keeps a type
/// that avoids `older` clear of it.
proof fn lemma_resolve_avoids(newer: TreeSubst, older: TreeSubst, t: Ty, k: int)
    requires
        avoids(t, older),
        forall|i: int| 0 <= i < newer.len() ==> avoids((#[trigger] newer[i]).1, older),
    ensures
        avoids(resolve_t(newer, t, k), older),
    decreases newer.len() - k, t,
{
    if 0 <= k <= newer.len() {
        match t {
            Ty::Var(v) => {
                lemma_find(skeys(newer), v, k);
                if let Some(j) = find(skeys(newer), v, k) {
                    if k <= j < newer.len() {
                        lemma_resolve_avoids(newer, older, newer[j].1, j + 1);
                    }
                }
            },
            Ty::Arrow(p, b) => {
                lemma_resolve_avoids(newer, older, *p, k);
                lemma_resolve_avoids(newer, older, *b, k);
            },
            _ => {},
        }
    }
}

/// A type that avoids `older` has no variable bound in the tail of the
/// composition.
proof fn lemma_avoids_unbound(newer: TreeSubst, older: TreeSubst, t: Ty, k: int)
    requires
        composable(newer, older),
        compose_tail(newer, older) =~= Seq::new(older.len(), |i: int| (older[i].0, resolve_t(newer, older[i].1, 0))),
        avoids(t, older),
        newer.len() <= k,
    ensures
        unbound_from(t, newer + compose_tail(newer, older), k),
    decreases t,
{
    let c = newer + compose_tail(newer, older);
    match t {
        Ty::Var(v) => {
            lemma_find(skeys(older), v, 0);
            lemma_find(skeys(c), v, k);
            if let Some(j) = find(skeys(c), v, k) {
                assert(skeys(c)[j].0 == v);
                assert(skeys(older)[j - newer.len()].0 == v);
                assert(false);
            }
        },
        Ty::Arrow(p, b) => {
            lemma_avoids_unbound(newer, older, *p, k);
            lemma_avoids_unbound(newer, older, *b, k);
        },
        _ => {},
    }
}

/// With the variables of `older` left out, the composition resolves as
/// `newer` does.
proof fn lemma_compose_newer(newer: TreeSubst, older: TreeSubst, t: Ty, k: int)
    requires
        composable(newer, older),
        compose_tail(newer, older) =~= Seq::new(older.len(), |i: int| (older[i].0, resolve_t(newer, older[i].1, 0))),
        avoids(t, older),
        0 <= k <= newer.len(),
    ensures
        resolve_t(newer + compose_tail(newer, older), t, k) == resolve_t(newer, t, k),
    decreases newer.len() - k, t,
{
    let c = newer + compose_tail(newer, older);
    match t {
        Ty::Var(v) => {
            lemma_find(skeys(newer), v, k);
            lemma_find(skeys(c), v, k);
            lemma_find(skeys(older), v, 0);
            match find(skeys(newer), v, k) {
                Some(j) => {
                    assert(skeys(c)[j] == skeys(newer)[j]);
                    if let Some(j2) = find(skeys(c), v, k) {
                        if j2 < j {
                            assert(skeys(c)[j2] == skeys(newer)[j2]);
                        }
                        if j2 > j {
                            assert(skeys(c)[j].0 == v);
                        }
                    }
                    assert(find(skeys(c), v, k) == Some(j));
                    assert(c[j] == newer[j]);
                    lemma_compose_newer(newer, older, newer[j].1, j + 1);
                },
                None => {
                    if let Some(j2) = find(skeys(c), v, k) {
                        if j2 < newer.len() {
                            assert(skeys(c)[j2] == skeys(newer)[j2]);
                        } else {
                            assert(skeys(older)[j2 - newer.len()].0 == v);
                        }
                        assert(false);
                    }
                },
            }
        },
        Ty::Arrow(p, b) => {
            lemma_compose_newer(newer, older, *p, k);
            lemma_compose_newer(newer, older, *b, k);
        },
        _ => {},
    }
}

/// From position `i` of `older` on, the tail of the composition resolves a
/// type that `newer` has resolved as `older` and then `newer` do.
proof fn lemma_compose_older(newer: TreeSubst, older: TreeSubst, u: Ty, i: int)
    requires
        composable(newer, older),
        compose_tail(newer, older) =~= Seq::new(older.len(), |i: int| (older[i].0, resolve_t(newer, older[i].1, 0))),
        0 <= i <= older.len(),
    ensures
        resolve_t(newer + compose_tail(newer, older), resolve_t(newer, u, 0), newer.len() + i) == resolve_t(
            newer,
            resolve_t(older, u, i),
            0,
        ),
    decreases older.len() - i, u,
{
    let c = newer + compose_tail(newer, older);
    let k = newer.len() + i;
    match u {
        Ty::Var(w) => {
            lemma_find(skeys(newer), w, 0);
            lemma_find(skeys(older), w, 0);
            lemma_find(skeys(older), w, i);
            lemma_find(skeys(c), w, k);
            match find(skeys(newer), w, 0) {
                Some(j) => {
                    let x = resolve_t(newer, u, 0);
                    assert(find(skeys(older), w, 0) is None) by {
                        if let Some(p) = find(skeys(older), w, 0) {
                            assert(newer[j].0 != older[p].0);
                        }
                    }
                    assert(avoids(u, older));
                    lemma_resolve_avoids(newer, older, u, 0);
                    lemma_avoids_unbound(newer, older, x, k);
                    lemma_resolve_unbound(c, x, k);
                    assert(find(skeys(older), w, i) is None);
                },
                None => {
                    assert(resolve_t(newer, u, 0) == u);
                    match find(skeys(older), w, i) {
                        Some(p) => {
                            assert(skeys(c)[newer.len() + p].0 == w);
                            if let Some(q) = find(skeys(c), w, k) {
                                if q < newer.len() + p {
                                    assert(skeys(older)[q - newer.len()].0 == w);
                                }
                                if q > newer.len() + p {
                                    assert(skeys(c)[newer.len() + p].0 == w);
                                }
                            }
                            assert(find(skeys(c), w, k) == Some(newer.len() + p));
                            assert(c[newer.len() + p].1 == resolve_t(newer, older[p].1, 0));
                            lemma_compose_older(newer, older, older[p].1, p + 1);
                        },
                        None => {
                            if let Some(q) = find(skeys(c), w, k) {
                                assert(skeys(older)[q - newer.len()].0 == w);
                                assert(false);
                            }
                            assert(resolve_t(older, u, i) == u);
                        },
                    }
                },
            }
        },
        Ty::Arrow(p, b) => {
            lemma_compose_older(newer, older, *p, i);
            lemma_compose_older(newer, older, *b, i);
        },
        _ => {},
    }
}

/// With disjoint variables, the tail of the composition is `older` with
/// `newer` applied to each binding.
proof fn lemma_compose_tail_all(newer: TreeSubst, older: TreeSubst)
    requires
        forall|i: int, j: int| 0 <= i < newer.len() && 0 <= j < older.len() ==> newer[i].0 != older[j].0,
    ensures
        compose_tail(newer, older) =~= Seq::new(older.len(), |i: int| (older[i].0, resolve_t(newer, older[i].1, 0))),
    decreases older.len(),
{
    if older.len() > 0 {
        let d = older.drop_last();
        lemma_compose_tail_all(newer, d);
        let x = older.last().0;
        lemma_find(skeys(newer), x, 0);
        if let Some(j) = find(skeys(newer), x, 0) {
            assert(newer[j].0 != older[older.len() - 1].0);
        }
    }
}

/// Composing `newer` with `older` does what applying `older` and then `newer`
/// does, where the two bind different variables and no binding of `newer`
/// mentions a variable that `older` binds.
pub proof fn lemma_compose_applies(newer: TreeSubst, older: TreeSubst, t: Ty)
    requires
        composable(newer, older),
    ensures
        resolve_t(newer + compose_tail(newer, older), t, 0) == resolve_t(newer, resolve_t(older, t, 0), 0),
        compose_t(newer, older) matches Ok(c) ==> resolve_t(c, t, 0) == resolve_t(newer, resolve_t(older, t, 0), 0),
    decreases t,
{
    lemma_compose_tail_all(newer, older);
    let c = newer + compose_tail(newer, older);
    match t {
        Ty::Var(v) => {
            lemma_find(skeys(newer), v, 0);
            lemma_find(skeys(older), v, 0);
            lemma_find(skeys(c), v, 0);
            match find(skeys(older), v, 0) {
                None => {
                    assert(avoids(t, older));
                    lemma_compose_newer(newer, older, t, 0);
                    assert(resolve_t(older, t, 0) == t);
                },
                Some(p) => {
                    assert(find(skeys(newer), v, 0) is None) by {
                        if let Some(j) = find(skeys(newer), v, 0) {
                            assert(newer[j].0 != older[p].0);
                        }
                    }
                    assert(skeys(c)[newer.len() + p].0 == v);
                    if let Some(q) = find(skeys(c), v, 0) {
                        if q < newer.len() {
                            assert(skeys(c)[q] == skeys(newer)[q]);
                        } else if q < newer.len() + p {
                            assert(skeys(older)[q - newer.len()].0 == v);
                        }
                    }
                    assert(find(skeys(c), v, 0) == Some(newer.len() + p));
                    lemma_compose_older(newer, older, older[p].1, p + 1);
                },
            }
        },
        Ty::Arrow(p, b) => {
            lemma_compose_applies(newer, older, *p);
            lemma_compose_applies(newer, older, *b);
        },
        _ => {},
    }
}


/// Tree `t` with every variable `v` replaced by `sigma(v)`.
pub open spec fn subst_app(sigma: spec_fn(usize) -> Ty, t: Ty) -> Ty
    decreases t,
{
    match t {
        Ty::Var(v) => sigma(v),
        Ty::Arrow(p, b) => Ty::Arrow(Box::new(subst_app(sigma, *p)), Box::new(subst_app(sigma, *b))),
        _ => t,
    }
}

/// `sigma` agrees with every binding of `st`.
pub open spec fn satisfies(sigma: spec_fn(usize) -> Ty, st: TreeSubst) -> bool {
    forall|j: int| 0 <= j < st.len() ==> sigma((#[trigger] st[j]).0) == subst_app(sigma, st[j].1)
}

/// `sigma` makes the two sides of every pair of `eqs` equal.
pub open spec fn unifies(sigma: spec_fn(usize) -> Ty, eqs: Seq<(Ty, Ty)>) -> bool {
    forall|i: int| 0 <= i < eqs.len() ==> subst_app(sigma, (#[trigger] eqs[i]).0) == subst_app(sigma, eqs[i].1)
}

/// Resolving under a substitution that `sigma` agrees with changes nothing
/// that `sigma` makes of a type.
proof fn lemma_app_resolve(sigma: spec_fn(usize) -> Ty, st: TreeSubst, t: Ty, k: int)
    requires
        satisfies(sigma, st),
        0 <= k <= st.len(),
    ensures
        subst_app(sigma, resolve_t(st, t, k)) == subst_app(sigma, t),
    decreases st.len() - k, t,
{
    match t {
        Ty::Var(v) => {
            lemma_find(skeys(st), v, k);
            if let Some(j) = find(skeys(st), v, k) {
                assert(skeys(st)[j].0 == st[j].0);
                assert(sigma(st[j].0) == subst_app(sigma, st[j].1));
                lemma_app_resolve(sigma, st, st[j].1, j + 1);
            }
        },
        Ty::Arrow(p, b) => {
            lemma_app_resolve(sigma, st, *p, k);
            lemma_app_resolve(sigma, st, *b, k);
        },
        _ => {},
    }
}

/// A type in which `v` occurs is at least as large, after `sigma`, as what
/// `sigma` makes of `v`.
proof fn lemma_occurs_size(sigma: spec_fn(usize) -> Ty, t: Ty, v: usize)
    requires
        occurs(t, v),
    ensures
        crate::types::size(subst_app(sigma, t)) >= crate::types::size(sigma(v)),
        t != Ty::Var(v) ==> crate::types::size(subst_app(sigma, t)) > crate::types::size(sigma(v)),
    decreases t,
{
    if let Ty::Arrow(p, b) = t {
        if occurs(*p, v) {
            lemma_occurs_size(sigma, *p, v);
        } else {
            lemma_occurs_size(sigma, *b, v);
        }
    }
}

/// Unification is most general: for any `sigma` that agrees with `st` and
/// makes both sides of every pair equal, unifying fails on no amount of fuel,
/// and `sigma` agrees with the substitution it builds.
pub proof fn lemma_unify_most_general(sigma: spec_fn(usize) -> Ty, st: TreeSubst, eqs: Seq<(Ty, Ty)>, f: nat)
    requires
        satisfies(sigma, st),
        unifies(sigma, eqs),
    ensures
        !(unify_t(st, eqs, f) matches Some(Err(_))),
        unify_t(st, eqs, f) matches Some(Ok(st2)) ==> satisfies(sigma, st2),
    decreases f,
{
    if eqs.len() > 0 && f > 0 {
        let a = resolve_t(st, eqs[0].0, 0);
        let b = resolve_t(st, eqs[0].1, 0);
        let rest = eqs.subrange(1, eqs.len() as int);
        let g = (f - 1) as nat;
        lemma_app_resolve(sigma, st, eqs[0].0, 0);
        lemma_app_resolve(sigma, st, eqs[0].1, 0);
        assert(subst_app(sigma, eqs[0].0) == subst_app(sigma, eqs[0].1));
        assert(subst_app(sigma, a) == subst_app(sigma, b));
        assert forall|i: int| 0 <= i < rest.len() implies subst_app(sigma, (#[trigger] rest[i]).0) == subst_app(sigma, rest[i].1) by {
            assert(rest[i] == eqs[i + 1]);
        }
        match (a, b) {
            (Ty::Unit, Ty::Unit) | (Ty::Int, Ty::Int) | (Ty::Bool, Ty::Bool) => {
                lemma_unify_most_general(sigma, st, rest, g);
            },
            (Ty::Var(v), _) => {
                if b == Ty::Var(v) {
                    lemma_unify_most_general(sigma, st, rest, g);
                } else if occurs(b, v) {
                    lemma_occurs_size(sigma, b, v);
                } else {
                    let st2 = st.push((v, b));
                    assert forall|j: int| 0 <= j < st2.len() implies sigma((#[trigger] st2[j]).0) == subst_app(sigma, st2[j].1) by {
                        if j < st.len() {
                            assert(st2[j] == st[j]);
                        }
                    }
                    lemma_unify_most_general(sigma, st2, rest, g);
                }
            },
            (_, Ty::Var(v)) => {
                if occurs(a, v) {
                    lemma_occurs_size(sigma, a, v);
                } else {
                    let st2 = st.push((v, a));
                    assert forall|j: int| 0 <= j < st2.len() implies sigma((#[trigger] st2[j]).0) == subst_app(sigma, st2[j].1) by {
                        if j < st.len() {
                            assert(st2[j] == st[j]);
                        }
                    }
                    lemma_unify_most_general(sigma, st2, rest, g);
                }
            },
            (Ty::Arrow(pa, ba), Ty::Arrow(pb, bb)) => {
                let l = seq![(*pa, *pb), (*ba, *bb)] + rest;
                assert forall|i: int| 0 <= i < l.len() implies subst_app(sigma, (#[trigger] l[i]).0) == subst_app(sigma, l[i].1) by {
                    if i >= 2 {
                        assert(l[i] == rest[i - 2]);
                    }
                }
                lemma_unify_most_general(sigma, st, l, g);
            },
            _ => {},
        }
    }
}

/// Where some `sigma` agrees with `st` and unifies `eqs`, unification does
/// not fail, and `sigma` agrees with what it builds.
pub proof fn lemma_unify_res_most_general(sigma: spec_fn(usize) -> Ty, st: TreeSubst, eqs: Seq<(Ty, Ty)>)
    requires
        satisfies(sigma, st),
        unifies(sigma, eqs),
    ensures
        !(unify_res(st, eqs) matches Some(Err(_))),
        unify_res(st, eqs) matches Some(Ok(st2)) ==> satisfies(sigma, st2),
{
    if unify_res(st, eqs) is Some {
        let f = lemma_unify_witness(st, eqs);
        lemma_unify_most_general(sigma, st, eqs, f);
    }
}


/// `t` is bound from `k` where each of its variables is free in `st` or
/// bound at `k` or later.
proof fn lemma_bound_from_vars(st: TreeSubst, t: Ty, k: int)
    requires
        forall|w: usize| #[trigger] occurs(t, w) ==> match find(skeys(st), w, 0) {
            Some(j) => j >= k,
            None => true,
        },
    ensures
        bound_from_t(st, t, k),
    decreases t,
{
    if let Ty::Var(v) = t {
        assert(occurs(t, v));
    }
    if let Ty::Arrow(p, b) = t {
        assert forall|w: usize| #[trigger] occurs(*p, w) implies match find(skeys(st), w, 0) {
            Some(j) => j >= k,
            None => true,
        } by {
            assert(occurs(t, w));
        }
        assert forall|w: usize| #[trigger] occurs(*b, w) implies match find(skeys(st), w, 0) {
            Some(j) => j >= k,
            None => true,
        } by {
            assert(occurs(t, w));
        }
        lemma_bound_from_vars(st, *p, k);
        lemma_bound_from_vars(st, *b, k);
    }
}

/// The variables of a triangular `t` bound from `k`: each is bound at `k`
/// or later, or free.
proof fn lemma_bound_from_occurs(st: TreeSubst, t: Ty, k: int, w: usize)
    requires
        bound_from_t(st, t, k),
        occurs(t, w),
    ensures
        match find(skeys(st), w, 0) {
            Some(j) => j >= k,
            None => true,
        },
    decreases t,
{
    if let Ty::Arrow(p, b) = t {
        if occurs(*p, w) {
            lemma_bound_from_occurs(st, *p, k, w);
        } else {
            lemma_bound_from_occurs(st, *b, k, w);
        }
    }
}

/// What a triangular substitution resolves from `k` mentions only variables
/// of the type that nothing binds from `k`, and variables of its bindings
/// that nothing binds at all.
proof fn lemma_resolve_vars(st: TreeSubst, t: Ty, k: int, w: usize)
    requires
        distinct_keys(st),
        triangular_t(st),
        0 <= k <= st.len(),
        occurs(resolve_t(st, t, k), w),
    ensures
        (occurs(t, w) && find(skeys(st), w, k) is None) || (find(skeys(st), w, 0) is None && exists|j: int|
            0 <= j < st.len() && occurs(#[trigger] st[j].1, w)),
    decreases st.len() - k, t,
{
    match t {
        Ty::Var(v) => {
            lemma_find(skeys(st), v, k);
            if let Some(j) = find(skeys(st), v, k) {
                let r = resolve_t(st, st[j].1, j + 1);
                lemma_resolve_vars(st, st[j].1, j + 1, w);
                lemma_find(skeys(st), w, 0);
                lemma_find(skeys(st), w, j + 1);
                if occurs(st[j].1, w) && find(skeys(st), w, j + 1) is None {
                    assert(bound_from_t(st, st[j].1, j + 1));
                    lemma_bound_from_occurs(st, st[j].1, j + 1, w);
                    if let Some(p) = find(skeys(st), w, 0) {
                        assert(skeys(st)[p].0 == w);
                        assert(false);
                    }
                }
            } else {
                assert(resolve_t(st, t, k) == t);
            }
        },
        Ty::Arrow(p, b) => {
            if occurs(resolve_t(st, *p, k), w) {
                lemma_resolve_vars(st, *p, k, w);
            } else {
                lemma_resolve_vars(st, *b, k, w);
            }
        },
        _ => {},
    }
}

/// A type that avoids `st` binds none of its variables in it.
proof fn lemma_avoids_occurs(t: Ty, st: TreeSubst, w: usize)
    requires
        avoids(t, st),
        occurs(t, w),
    ensures
        find(skeys(st), w, 0) is None,
    decreases t,
{
    if let Ty::Arrow(p, b) = t {
        if occurs(*p, w) {
            lemma_avoids_occurs(*p, st, w);
        } else {
            lemma_avoids_occurs(*b, st, w);
        }
    }
}

/// Composing two triangular substitutions whose variables are apart, where
/// no binding of `newer` mentions a variable of `older`, never fails.
pub proof fn lemma_compose_triangular(newer: TreeSubst, older: TreeSubst)
    requires
        composable(newer, older),
        triangular_t(newer),
        triangular_t(older),
    ensures
        compose_t(newer, older) is Ok,
{
    lemma_compose_tail_all(newer, older);
    let c = newer + compose_tail(newer, older);
    let nl = newer.len() as int;
    assert forall|j: int| 0 <= j < c.len() implies bound_from_t(c, (#[trigger] c[j]).1, j + 1) by {
        if j < nl {
            assert(c[j] == newer[j]);
            assert(bound_from_t(newer, newer[j].1, j + 1));
            assert forall|w: usize| #[trigger] occurs(newer[j].1, w) implies match find(skeys(c), w, 0) {
                Some(p) => p >= j + 1,
                None => true,
            } by {
                lemma_bound_from_occurs(newer, newer[j].1, j + 1, w);
                lemma_avoids_occurs(newer[j].1, older, w);
                lemma_find(skeys(newer), w, 0);
                lemma_find(skeys(older), w, 0);
                lemma_find(skeys(c), w, 0);
                if let Some(p) = find(skeys(c), w, 0) {
                    if p < nl {
                        assert(skeys(c)[p] == skeys(newer)[p]);
                    } else {
                        assert(skeys(older)[p - nl].0 == w);
                    }
                }
            }
            lemma_bound_from_vars(c, newer[j].1, j + 1);
        } else {
            let i = j - nl;
            let u = older[i].1;
            assert(c[j].1 == resolve_t(newer, u, 0));
            assert(bound_from_t(older, u, i + 1));
            assert forall|w: usize| #[trigger] occurs(resolve_t(newer, u, 0), w) implies match find(skeys(c), w, 0) {
                Some(p) => p >= j + 1,
                None => true,
            } by {
                lemma_resolve_vars(newer, u, 0, w);
                lemma_find(skeys(newer), w, 0);
                lemma_find(skeys(older), w, 0);
                lemma_find(skeys(c), w, 0);
                if occurs(u, w) && find(skeys(newer), w, 0) is None {
                    lemma_bound_from_occurs(older, u, i + 1, w);
                } else {
                    let q = choose|q: int| 0 <= q < newer.len() && occurs(#[trigger] newer[q].1, w);
                    lemma_avoids_occurs(newer[q].1, older, w);
                }
                if let Some(p) = find(skeys(c), w, 0) {
                    if p < nl {
                        assert(skeys(c)[p] == skeys(newer)[p]);
                    } else {
                        assert(skeys(older)[p - nl].0 == w);
                        if let Some(po) = find(skeys(older), w, 0) {
                            if po < p - nl {
                                assert(skeys(c)[nl + po].0 == w);
                            }
                            if po > p - nl {
                                assert(skeys(older)[p - nl].0 == w);
                            }
                        }
                    }
                }
            }
            lemma_bound_from_vars(c, resolve_t(newer, u, 0), j + 1);
        }
    }
}

} // verus!
