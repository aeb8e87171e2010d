use vstd::prelude::*;
use vstd::set_lib::{lemma_int_range, lemma_len_subset, set_int_range};

use crate::arena::{Arena, Id};

verus! {

/// A type variable, numbered in order of creation.
#[derive(Clone, Copy, Debug, PartialEq, Eq, Structural)]
pub struct TypeVar(pub usize);

pub type TypeId = Id<Type>;

/// A type, whose parts are other types of the same arena.
#[derive(Clone, Copy, Debug)]
pub enum Type {
    Unit,
    Int,
    Bool,
    Var(TypeVar),
    Abs(TypeId, TypeId),
}

/// A type as a tree: what an arena type means.
pub enum Ty {
    Unit,
    Int,
    Bool,
    Var(usize),
    Arrow(Box<Ty>, Box<Ty>),
}

/// The tree of arena type `id`.
pub open spec fn tree(ts: Seq<Type>, id: int) -> Ty
    decreases id,
{
    if 0 <= id < ts.len() {
        match ts[id] {
            Type::Unit => Ty::Unit,
            Type::Int => Ty::Int,
            Type::Bool => Ty::Bool,
            Type::Var(v) => Ty::Var(v.0),
            Type::Abs(p, b) => Ty::Arrow(
                Box::new(
                    if 0 <= p.0 < id {
                        tree(ts, p.0 as int)
                    } else {
                        Ty::Unit
                    },
                ),
                Box::new(
                    if 0 <= b.0 < id {
                        tree(ts, b.0 as int)
                    } else {
                        Ty::Unit
                    },
                ),
            ),
        }
    } else {
        Ty::Unit
    }
}

/// Every function type points at types allocated before it, and every type
/// variable is below `nvars`.
pub open spec fn types_wf(ts: Seq<Type>, nvars: int) -> bool {
    forall|i: int|
        0 <= i < ts.len() ==> match #[trigger] ts[i] {
            Type::Abs(p, b) => p.0 < i && b.0 < i,
            Type::Var(v) => v.0 < nvars,
            _ => true,
        }
}

/// The number of nodes of a tree.
pub open spec fn size(t: Ty) -> nat
    decreases t,
{
    match t {
        Ty::Arrow(p, b) => 1 + size(*p) + size(*b),
        _ => 1,
    }
}

/// `x` occurs in `t`.
pub open spec fn occurs(t: Ty, x: usize) -> bool
    decreases t,
{
    match t {
        Ty::Var(v) => v == x,
        Ty::Arrow(p, b) => occurs(*p, x) || occurs(*b, x),
        _ => false,
    }
}

/// `t` with every occurrence of variable `x` replaced by `u`.
pub open spec fn replace(t: Ty, x: usize, u: Ty) -> Ty
    decreases t,
{
    match t {
        Ty::Var(v) => if v == x {
            u
        } else {
            t
        },
        Ty::Arrow(p, b) => Ty::Arrow(Box::new(replace(*p, x, u)), Box::new(replace(*b, x, u))),
        _ => t,
    }
}

/// Each variable of `t`, once, in order of first occurrence, appended to `acc`
/// when `acc` does not hold it yet.
pub open spec fn add_vars(acc: Seq<usize>, t: Ty) -> Seq<usize>
    decreases t,
{
    match t {
        Ty::Var(v) => if acc.contains(v) {
            acc
        } else {
            acc.push(v)
        },
        Ty::Arrow(p, b) => add_vars(add_vars(acc, *p), *b),
        _ => acc,
    }
}

// ---------------------------------------------------------------------------
// Substitutions
// ---------------------------------------------------------------------------

/// The first binding of `x` at or after position `k`.
pub open spec fn find(s: Seq<(usize, usize)>, x: usize, k: int) -> Option<int>
    decreases s.len() - k,
{
    if k < 0 || k >= s.len() {
        None
    } else if s[k].0 == x {
        Some(k)
    } else {
        find(s, x, k + 1)
    }
}

/// `x` is bound by the substitution.
pub open spec fn bound(s: Seq<(usize, usize)>, x: usize) -> bool {
    find(s, x, 0) is Some
}

/// `t` mentions no variable that `s` binds.
pub open spec fn free_of(t: Ty, s: Seq<(usize, usize)>) -> bool
    decreases t,
{
    match t {
        Ty::Var(v) => !bound(s, v),
        Ty::Arrow(p, b) => free_of(*p, s) && free_of(*b, s),
        _ => true,
    }
}

/// Type `id` with every variable bound at or after position `k` of `s`
/// replaced by what it is bound to, resolved in turn.
pub open spec fn resolve_from(ts: Seq<Type>, s: Seq<(usize, usize)>, id: int, k: int) -> Ty
    decreases s.len() - k, id,
{
    if !(0 <= id < ts.len()) || k < 0 || k > s.len() {
        Ty::Unit
    } else {
        match ts[id] {
            Type::Unit => Ty::Unit,
            Type::Int => Ty::Int,
            Type::Bool => Ty::Bool,
            Type::Var(v) => match find(s, v.0, k) {
                Some(j) => if k <= j < s.len() {
                    resolve_from(ts, s, s[j].1 as int, j + 1)
                } else {
                    Ty::Var(v.0)
                },
                None => Ty::Var(v.0),
            },
            Type::Abs(p, b) => Ty::Arrow(
                Box::new(
                    if 0 <= p.0 < id {
                        resolve_from(ts, s, p.0 as int, k)
                    } else {
                        Ty::Unit
                    },
                ),
                Box::new(
                    if 0 <= b.0 < id {
                        resolve_from(ts, s, b.0 as int, k)
                    } else {
                        Ty::Unit
                    },
                ),
            ),
        }
    }
}

/// Type `id` under substitution `s`.
pub open spec fn resolve(ts: Seq<Type>, s: Seq<(usize, usize)>, id: int) -> Ty {
    resolve_from(ts, s, id, 0)
}

/// Every variable of type `id` that `s` binds is bound at position `k` or later.
pub open spec fn bound_from(ts: Seq<Type>, s: Seq<(usize, usize)>, id: int, k: int) -> bool
    decreases id,
{
    if 0 <= id < ts.len() {
        match ts[id] {
            Type::Var(v) => match find(s, v.0, 0) {
                Some(j) => j >= k,
                None => true,
            },
            Type::Abs(p, b) => (0 <= p.0 < id && bound_from(ts, s, p.0 as int, k)) && (0 <= b.0
                < id && bound_from(ts, s, b.0 as int, k)),
            _ => true,
        }
    } else {
        false
    }
}

/// `s` binds no variable twice, binds only variables below `nvars` to types of
/// `ts`, and is triangular: what position `j` binds mentions only variables that
/// are free or bound after `j`. A triangular substitution has no cycle.
pub open spec fn subst_wf(ts: Seq<Type>, s: Seq<(usize, usize)>, nvars: int) -> bool {
    &&& forall|i: int, j: int| 0 <= i < j < s.len() ==> s[i].0 != s[j].0
    &&& forall|j: int| 0 <= j < s.len() ==> (#[trigger] s[j]).0 < nvars && s[j].1 < ts.len()
    &&& forall|j: int| 0 <= j < s.len() ==> bound_from(ts, s, (#[trigger] s[j]).1 as int, j + 1)
}

pub proof fn lemma_find(s: Seq<(usize, usize)>, x: usize, k: int)
    requires
        0 <= k,
    ensures
        find(s, x, k) matches Some(j) ==> k <= j < s.len() && s[j].0 == x,
        find(s, x, k) is None ==> forall|j: int| k <= j < s.len() ==> s[j].0 != x,
        find(s, x, k) matches Some(j) ==> forall|i: int| k <= i < j ==> s[i].0 != x,
    decreases s.len() - k,
{
    if 0 <= k < s.len() && s[k].0 != x {
        lemma_find(s, x, k + 1);
    }
}

/// With distinct keys, the first binding is the only one.
pub proof fn lemma_find_unique(s: Seq<(usize, usize)>, x: usize, j: int, k: int)
    requires
        forall|a: int, b: int| 0 <= a < b < s.len() ==> s[a].0 != s[b].0,
        0 <= j < s.len(),
        s[j].0 == x,
        0 <= k <= j,
    ensures
        find(s, x, k) == Some(j),
        find(s, x, 0) == Some(j),
{
    lemma_find(s, x, k);
    lemma_find(s, x, 0);
}

/// Allocating more types keeps the trees of the old ones.
pub proof fn lemma_tree_frame(ts: Seq<Type>, ts2: Seq<Type>, id: int)
    requires
        ts.len() <= ts2.len(),
        forall|i: int| 0 <= i < ts.len() ==> ts2[i] == ts[i],
        0 <= id < ts.len(),
    ensures
        tree(ts2, id) == tree(ts, id),
    decreases id,
{
    match ts[id] {
        Type::Abs(p, b) => {
            if 0 <= p.0 < id {
                lemma_tree_frame(ts, ts2, p.0 as int);
            }
            if 0 <= b.0 < id {
                lemma_tree_frame(ts, ts2, b.0 as int);
            }
        },
        _ => {},
    }
}

/// Allocating more types keeps what the old ones resolve to.
pub proof fn lemma_resolve_frame(
    ts: Seq<Type>,
    ts2: Seq<Type>,
    s: Seq<(usize, usize)>,
    id: int,
    k: int,
)
    requires
        ts.len() <= ts2.len(),
        forall|i: int| 0 <= i < ts.len() ==> ts2[i] == ts[i],
        forall|j: int| 0 <= j < s.len() ==> (#[trigger] s[j]).1 < ts.len(),
        0 <= id < ts.len(),
    ensures
        resolve_from(ts2, s, id, k) == resolve_from(ts, s, id, k),
        bound_from(ts2, s, id, k) == bound_from(ts, s, id, k),
    decreases s.len() - k, id,
{
    if 0 <= k <= s.len() {
        match ts[id] {
            Type::Var(v) => {
                lemma_find(s, v.0, k);
                if let Some(j) = find(s, v.0, k) {
                    lemma_resolve_frame(ts, ts2, s, s[j].1 as int, j + 1);
                }
            },
            Type::Abs(p, b) => {
                if 0 <= p.0 < id {
                    lemma_resolve_frame(ts, ts2, s, p.0 as int, k);
                }
                if 0 <= b.0 < id {
                    lemma_resolve_frame(ts, ts2, s, b.0 as int, k);
                }
            },
            _ => {},
        }
    } else {
        lemma_bound_frame(ts, ts2, s, id, k);
    }
    lemma_bound_frame(ts, ts2, s, id, k);
}

pub proof fn lemma_bound_frame(
    ts: Seq<Type>,
    ts2: Seq<Type>,
    s: Seq<(usize, usize)>,
    id: int,
    k: int,
)
    requires
        ts.len() <= ts2.len(),
        forall|i: int| 0 <= i < ts.len() ==> ts2[i] == ts[i],
        0 <= id < ts.len(),
    ensures
        bound_from(ts2, s, id, k) == bound_from(ts, s, id, k),
    decreases id,
{
    match ts[id] {
        Type::Abs(p, b) => {
            if 0 <= p.0 < id {
                lemma_bound_frame(ts, ts2, s, p.0 as int, k);
            }
            if 0 <= b.0 < id {
                lemma_bound_frame(ts, ts2, s, b.0 as int, k);
            }
        },
        _ => {},
    }
}

/// A type with no bound variable resolves to its own tree.
pub proof fn lemma_resolve_free(ts: Seq<Type>, s: Seq<(usize, usize)>, id: int, k: int)
    requires
        free_of(tree(ts, id), s),
        0 <= id < ts.len(),
        0 <= k <= s.len(),
        types_wf(ts, usize::MAX as int + 1),
    ensures
        resolve_from(ts, s, id, k) == tree(ts, id),
    decreases id,
{
    assert(types_wf(ts, usize::MAX as int + 1) ==> match ts[id] {
        Type::Abs(p, b) => p.0 < id && b.0 < id,
        _ => true,
    });
    match ts[id] {
        Type::Var(v) => {
            lemma_find(s, v.0, k);
            lemma_find(s, v.0, 0);
        },
        Type::Abs(p, b) => {
            lemma_resolve_free(ts, s, p.0 as int, k);
            lemma_resolve_free(ts, s, b.0 as int, k);
        },
        _ => {},
    }
}

/// Resolving a type whose bound variables are bound at `k` or later, under a
/// well-formed substitution, leaves no bound variable.
pub proof fn lemma_resolved_free(ts: Seq<Type>, s: Seq<(usize, usize)>, id: int, k: int, n: int)
    requires
        types_wf(ts, n),
        subst_wf(ts, s, n),
        bound_from(ts, s, id, k),
        0 <= k <= s.len(),
    ensures
        free_of(resolve_from(ts, s, id, k), s),
    decreases s.len() - k, id,
{
    match ts[id] {
        Type::Var(v) => {
            lemma_find(s, v.0, k);
            lemma_find(s, v.0, 0);
            if let Some(j) = find(s, v.0, 0) {
                lemma_find_unique(s, v.0, j, k);
                lemma_resolved_free(ts, s, s[j].1 as int, j + 1, n);
            }
        },
        Type::Abs(p, b) => {
            lemma_resolved_free(ts, s, p.0 as int, k, n);
            lemma_resolved_free(ts, s, b.0 as int, k, n);
        },
        _ => {},
    }
}

/// Binding a free variable `x` to a tree `u` with no bound variable and without
/// `x` replaces `x` by `u` in everything that resolves.
pub proof fn lemma_resolve_push(
    ts: Seq<Type>,
    s: Seq<(usize, usize)>,
    x: usize,
    u: usize,
    id: int,
    k: int,
)
    requires
        !bound(s, x),
        0 <= u < ts.len(),
        free_of(tree(ts, u as int), s),
        !occurs(tree(ts, u as int), x),
        0 <= k <= s.len(),
        types_wf(ts, usize::MAX as int + 1),
    ensures
        resolve_from(ts, s.push((x, u)), id, k) == replace(resolve_from(ts, s, id, k), x, tree(ts, u as int)),
    decreases s.len() - k, id,
{
    let s2 = s.push((x, u));
    if 0 <= id < ts.len() {
        assert(match ts[id] {
            Type::Abs(p, b) => p.0 < id && b.0 < id,
            _ => true,
        });
        match ts[id] {
            Type::Var(v) => {
                lemma_find(s, v.0, k);
                lemma_find(s2, v.0, k);
                lemma_find(s, x, 0);
                if v.0 == x {
                    assert(find(s, x, k) is None);
                    assert(s2[s.len() as int].0 == x);
                    assert(find(s2, x, k) == Some(s.len() as int));
                    lemma_free_push(tree(ts, u as int), s, x, u);
                    lemma_resolve_free(ts, s2, u as int, s.len() as int + 1);
                } else {
                    match find(s, v.0, k) {
                        Some(j) => {
                            lemma_find_push(s, (x, u), v.0, k);
                            lemma_resolve_push(ts, s, x, u, s[j].1 as int, j + 1);
                        },
                        None => {
                            lemma_find_push(s, (x, u), v.0, k);
                        },
                    }
                }
            },
            Type::Abs(p, b) => {
                lemma_resolve_push(ts, s, x, u, p.0 as int, k);
                lemma_resolve_push(ts, s, x, u, b.0 as int, k);
            },
            _ => {},
        }
    }
}

/// A binding appended last is found only where no earlier one is.
pub proof fn lemma_find_push(s: Seq<(usize, usize)>, e: (usize, usize), v: usize, k: int)
    requires
        0 <= k,
    ensures
        find(s.push(e), v, k) == (if find(s, v, k) is Some {
            find(s, v, k)
        } else if e.0 == v && k <= s.len() {
            Some(s.len() as int)
        } else {
            None
        }),
    decreases s.len() - k,
{
    let s2 = s.push(e);
    if k < s.len() {
        assert(s2[k] == s[k]);
        if s[k].0 != v {
            lemma_find_push(s, e, v, k + 1);
        }
    } else if k == s.len() {
        assert(s2[k] == e);
        assert(find(s2, v, k + 1) is None);
    }
}

/// Binding after the last binding changes nothing for the old variables.
pub proof fn lemma_bound_push(s: Seq<(usize, usize)>, x: usize, u: usize, v: usize)
    ensures
        bound(s.push((x, u)), v) == (bound(s, v) || v == x),
{
    lemma_find_push(s, (x, u), v, 0);
}

/// A tree free of `s` and without `x` is free of `s` with `x` bound.
pub proof fn lemma_free_push(t: Ty, s: Seq<(usize, usize)>, x: usize, u: usize)
    requires
        free_of(t, s),
        !occurs(t, x),
    ensures
        free_of(t, s.push((x, u))),
    decreases t,
{
    match t {
        Ty::Var(v) => {
            lemma_bound_push(s, x, u, v);
        },
        Ty::Arrow(p, b) => {
            lemma_free_push(*p, s, x, u);
            lemma_free_push(*b, s, x, u);
        },
        _ => {},
    }
}

/// A substitution binds at most as many variables as there are below `n`.
pub proof fn lemma_subst_len(s: Seq<(usize, usize)>, n: int)
    requires
        n >= 0,
        forall|i: int, j: int| 0 <= i < j < s.len() ==> s[i].0 != s[j].0,
        forall|j: int| 0 <= j < s.len() ==> (#[trigger] s[j]).0 < n,
    ensures
        s.len() <= n,
{
    let keys = Seq::new(s.len(), |i: int| s[i].0 as int);
    assert(keys.no_duplicates());
    keys.unique_seq_to_set();
    lemma_int_range(0, n);
    assert(keys.to_set().subset_of(set_int_range(0, n)));
    lemma_len_subset(keys.to_set(), set_int_range(0, n));
}

/// `ts2` keeps every type of `ts` where it was.
pub open spec fn extends(ts: Seq<Type>, ts2: Seq<Type>) -> bool {
    &&& ts.len() <= ts2.len()
    &&& forall|i: int| 0 <= i < ts.len() ==> #[trigger] ts2[i] == ts[i]
}

/// `s2` begins with the bindings of `s`.
pub open spec fn is_prefix(s: Seq<(usize, usize)>, s2: Seq<(usize, usize)>) -> bool {
    &&& s.len() <= s2.len()
    &&& forall|i: int| 0 <= i < s.len() ==> #[trigger] s2[i] == s[i]
}

pub proof fn lemma_extends_trans(ts: Seq<Type>, ts2: Seq<Type>, ts3: Seq<Type>)
    requires
        extends(ts, ts2),
        extends(ts2, ts3),
    ensures
        extends(ts, ts3),
{
    assert forall|i: int| 0 <= i < ts.len() implies #[trigger] ts3[i] == ts[i] by {
        assert(ts2[i] == ts[i]);
    }
}

pub proof fn lemma_prefix_trans(s: Seq<(usize, usize)>, s2: Seq<(usize, usize)>, s3: Seq<(usize, usize)>)
    requires
        is_prefix(s, s2),
        is_prefix(s2, s3),
    ensures
        is_prefix(s, s3),
{
    assert forall|i: int| 0 <= i < s.len() implies #[trigger] s3[i] == s[i] by {
        assert(s2[i] == s[i]);
    }
}

/// With well-formed types every type's bound variables are bound from position 0.
pub proof fn lemma_bound_from_zero(ts: Seq<Type>, s: Seq<(usize, usize)>, id: int, n: int)
    requires
        types_wf(ts, n),
        0 <= id < ts.len(),
    ensures
        bound_from(ts, s, id, 0),
    decreases id,
{
    match ts[id] {
        Type::Abs(p, b) => {
            lemma_bound_from_zero(ts, s, p.0 as int, n);
            lemma_bound_from_zero(ts, s, b.0 as int, n);
        },
        Type::Var(v) => {
            lemma_find(s, v.0, 0);
        },
        _ => {},
    }
}

/// A type whose bound variables are bound past the end is free of the substitution.
pub proof fn lemma_bound_past_end(ts: Seq<Type>, s: Seq<(usize, usize)>, id: int, k: int)
    requires
        bound_from(ts, s, id, k),
        k >= s.len(),
    ensures
        free_of(tree(ts, id), s),
    decreases id,
{
    match ts[id] {
        Type::Abs(p, b) => {
            lemma_bound_past_end(ts, s, p.0 as int, k);
            lemma_bound_past_end(ts, s, b.0 as int, k);
        },
        Type::Var(v) => {
            lemma_find(s, v.0, 0);
        },
        _ => {},
    }
}

/// Dropping the last binding keeps `bound_from`.
pub proof fn lemma_bound_from_pop(ts: Seq<Type>, s: Seq<(usize, usize)>, e: (usize, usize), id: int, k: int)
    requires
        bound_from(ts, s.push(e), id, k),
    ensures
        bound_from(ts, s, id, k),
    decreases id,
{
    match ts[id] {
        Type::Abs(p, b) => {
            lemma_bound_from_pop(ts, s, e, p.0 as int, k);
            lemma_bound_from_pop(ts, s, e, b.0 as int, k);
        },
        Type::Var(v) => {
            lemma_find_push(s, e, v.0, 0);
        },
        _ => {},
    }
}

/// A tree free of `s` with `x` bound last is free of `s` and does not hold `x`.
pub proof fn lemma_free_pop(t: Ty, s: Seq<(usize, usize)>, x: usize, u: usize)
    requires
        free_of(t, s.push((x, u))),
    ensures
        free_of(t, s),
        !occurs(t, x),
    decreases t,
{
    match t {
        Ty::Var(v) => {
            lemma_bound_push(s, x, u, v);
        },
        Ty::Arrow(p, b) => {
            lemma_free_pop(*p, s, x, u);
            lemma_free_pop(*b, s, x, u);
        },
        _ => {},
    }
}

/// Replacing a variable that does not occur changes nothing.
pub proof fn lemma_replace_absent(t: Ty, x: usize, u: Ty)
    requires
        !occurs(t, x),
    ensures
        replace(t, x, u) == t,
    decreases t,
{
    match t {
        Ty::Arrow(p, b) => {
            lemma_replace_absent(*p, x, u);
            lemma_replace_absent(*b, x, u);
        },
        _ => {},
    }
}

/// The last binding of a well-formed substitution, and what is left without it.
pub proof fn lemma_subst_pop(ts: Seq<Type>, s2: Seq<(usize, usize)>, n: int)
    requires
        subst_wf(ts, s2, n),
        s2.len() > 0,
    ensures
        subst_wf(ts, s2.drop_last(), n),
        s2 == s2.drop_last().push(s2.last()),
        !bound(s2.drop_last(), s2.last().0),
        0 <= s2.last().1 < ts.len(),
        free_of(tree(ts, s2.last().1 as int), s2.drop_last()),
        !occurs(tree(ts, s2.last().1 as int), s2.last().0),
{
    let s = s2.drop_last();
    let e = s2.last();
    assert(s2 =~= s.push(e));
    assert forall|j: int| 0 <= j < s.len() implies bound_from(ts, s, (#[trigger] s[j]).1 as int, j + 1) by {
        assert(s2[j] == s[j]);
        lemma_bound_from_pop(ts, s, e, s[j].1 as int, j + 1);
    }
    assert forall|i: int, j: int| 0 <= i < j < s.len() implies s[i].0 != s[j].0 by {
        assert(s2[i] == s[i] && s2[j] == s[j]);
    }
    assert forall|j: int| 0 <= j < s.len() implies (#[trigger] s[j]).0 < n && s[j].1 < ts.len() by {
        assert(s2[j] == s[j]);
    }
    lemma_find(s, e.0, 0);
    if let Some(j) = find(s, e.0, 0) {
        assert(s2[j] == s[j]);
        assert(s2[s.len() as int] == e);
    }
    assert(s2[s.len() as int] == e);
    lemma_bound_past_end(ts, s2, e.1 as int, s.len() as int + 1);
    lemma_free_pop(tree(ts, e.1 as int), s, e.0, e.1);
}

/// Extending a well-formed substitution keeps every equality it already made.
pub proof fn lemma_extend_keeps(
    ts: Seq<Type>,
    s: Seq<(usize, usize)>,
    s2: Seq<(usize, usize)>,
    a: int,
    b: int,
    n: int,
)
    requires
        types_wf(ts, n),
        n <= usize::MAX as int + 1,
        subst_wf(ts, s2, n),
        is_prefix(s, s2),
        0 <= a < ts.len(),
        0 <= b < ts.len(),
        resolve(ts, s, a) == resolve(ts, s, b),
    ensures
        resolve(ts, s2, a) == resolve(ts, s2, b),
    decreases s2.len() - s.len(),
{
    if s2.len() == s.len() {
        assert(s2 =~= s);
    } else {
        lemma_subst_pop(ts, s2, n);
        let s3 = s2.drop_last();
        let e = s2.last();
        assert(is_prefix(s, s3)) by {
            assert forall|i: int| 0 <= i < s.len() implies #[trigger] s3[i] == s[i] by {
                assert(s2[i] == s[i]);
            }
        }
        lemma_extend_keeps(ts, s, s3, a, b, n);
        lemma_resolve_push(ts, s3, e.0, e.1, a, 0);
        lemma_resolve_push(ts, s3, e.0, e.1, b, 0);
    }
}

// ---------------------------------------------------------------------------
// The arena of types
// ---------------------------------------------------------------------------

/// The arena of types, with the three base types allocated up front.
pub struct Types {
    arena: Arena<Type>,
    int_t: TypeId,
    bool_t: TypeId,
    unit_t: TypeId,
}

impl View for Types {
    type V = Seq<Type>;

    closed spec fn view(&self) -> Seq<Type> {
        self.arena@
    }
}

impl Types {
    pub proof fn lemma_len_bound(&self)
        ensures
            self@.len() <= usize::MAX,
    {
        self.arena.lemma_len_bound();
    }

    pub closed spec fn int_id(&self) -> TypeId {
        self.int_t
    }

    pub closed spec fn bool_id(&self) -> TypeId {
        self.bool_t
    }

    pub closed spec fn unit_id(&self) -> TypeId {
        self.unit_t
    }

    /// The base types sit where the accessors say.
    pub open spec fn bases_wf(&self) -> bool {
        &&& self.int_id().0 < self@.len()
        &&& self@[self.int_id().0 as int] matches Type::Int
        &&& self.bool_id().0 < self@.len()
        &&& self@[self.bool_id().0 as int] matches Type::Bool
        &&& self.unit_id().0 < self@.len()
        &&& self@[self.unit_id().0 as int] matches Type::Unit
    }

    pub fn new() -> (res: Self)
        ensures
            res.bases_wf(),
            types_wf(res@, 0),
            res@ == seq![Type::Int, Type::Bool, Type::Unit],
            res.int_id().0 == 0,
            res.bool_id().0 == 1,
            res.unit_id().0 == 2,
    {
        let mut arena = Arena::new();
        let int_t = arena.allocate(Type::Int);
        let bool_t = arena.allocate(Type::Bool);
        let unit_t = arena.allocate(Type::Unit);
        let res = Types { arena, int_t, bool_t, unit_t };
        proof {
            assert(res@ =~= seq![Type::Int, Type::Bool, Type::Unit]);
        }
        res
    }

    pub fn int_type(&self) -> (res: TypeId)
        ensures
            res == self.int_id(),
    {
        self.int_t
    }

    pub fn bool_type(&self) -> (res: TypeId)
        ensures
            res == self.bool_id(),
    {
        self.bool_t
    }

    pub fn unit_type(&self) -> (res: TypeId)
        ensures
            res == self.unit_id(),
    {
        self.unit_t
    }

    pub fn len(&self) -> (res: usize)
        ensures
            res == self@.len(),
    {
        self.arena.len()
    }

    pub fn get(&self, id: TypeId) -> (res: Type)
        requires
            id.0 < self@.len(),
        ensures
            res == self@[id.0 as int],
    {
        *self.arena.get(id)
    }

    pub fn allocate(&mut self, ty: Type) -> (id: TypeId)
        ensures
            final(self)@ == old(self)@.push(ty),
            id.0 == old(self)@.len(),
            final(self).int_id() == old(self).int_id(),
            final(self).bool_id() == old(self).bool_id(),
            final(self).unit_id() == old(self).unit_id(),
    {
        self.arena.allocate(ty)
    }
}

/// A substitution from type variables to types, in binding order.
pub struct Subst {
    entries: Vec<(TypeVar, TypeId)>,
}

impl View for Subst {
    type V = Seq<(usize, usize)>;

    closed spec fn view(&self) -> Seq<(usize, usize)> {
        Seq::new(self.entries@.len(), |i: int| (self.entries@[i].0.0, self.entries@[i].1.0))
    }
}

impl Subst {
    pub fn new() -> (res: Subst)
        ensures
            res@ == Seq::<(usize, usize)>::empty(),
    {
        Subst { entries: Vec::new() }
    }

    pub fn len(&self) -> (res: usize)
        ensures
            res == self@.len(),
    {
        self.entries.len()
    }

    pub fn is_empty(&self) -> (res: bool)
        ensures
            res == (self@.len() == 0),
    {
        self.entries.len() == 0
    }

    /// The binding at position `i`.
    pub fn entry(&self, i: usize) -> (res: (TypeVar, TypeId))
        requires
            i < self@.len(),
        ensures
            res.0.0 == self@[i as int].0,
            res.1.0 == self@[i as int].1,
    {
        self.entries[i]
    }

    /// Where `var` is bound.
    pub fn position(&self, var: TypeVar) -> (res: Option<usize>)
        ensures
            res matches Some(r) ==> find(self@, var.0, 0) == Some(r as int),
            res is None ==> find(self@, var.0, 0) is None,
    {
        let mut i: usize = 0;
        while i < self.entries.len()
            invariant
                i <= self@.len(),
                find(self@, var.0, 0) == find(self@, var.0, i as int),
            decreases self@.len() - i,
        {
            if self.entries[i].0 == var {
                return Some(i);
            }
            i = i + 1;
        }
        None
    }

    /// What `var` is bound to.
    pub fn get(&self, var: TypeVar) -> (res: Option<TypeId>)
        ensures
            match find(self@, var.0, 0) {
                Some(j) => res matches Some(t) && t.0 == self@[j].1,
                None => res is None,
            },
    {
        let mut i: usize = 0;
        while i < self.entries.len()
            invariant
                i <= self@.len(),
                find(self@, var.0, 0) == find(self@, var.0, i as int),
            decreases self@.len() - i,
        {
            if self.entries[i].0 == var {
                return Some(self.entries[i].1);
            }
            i = i + 1;
        }
        None
    }

    /// Binds `var`, which must be free, after every other binding.
    pub fn push(&mut self, var: TypeVar, ty: TypeId)
        ensures
            final(self)@ == old(self)@.push((var.0, ty.0)),
    {
        self.entries.push((var, ty));
        assert(self@ =~= old(self)@.push((var.0, ty.0)));
    }
}

} // verus!
