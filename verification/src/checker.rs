use vstd::prelude::*;

use crate::ast::{Ast, AstTable, Expr, ExprId, Lit};
use crate::lexer::Token;
use crate::resolver::Local;
use crate::text::{decimal_chars, push_str, push_usize};
use crate::solve::{
    compose_t, compose_tail, lemma_bound_from_trees, lemma_find_keys, lemma_resolve_except_trees, lemma_resolve_trees, lemma_subst_trees_frame,
    lemma_unify_append, lemma_unify_res, lemma_unify_witness, resolve_except_t, resolve_t, subst_trees,
    unify_res, unify_t, TreeSubst, TyError,
};
use crate::types::{
    add_vars, bound, bound_from, extends, find, free_of, is_prefix, lemma_bound_frame,
    lemma_bound_from_zero, lemma_extend_keeps, lemma_extends_trans, lemma_find, lemma_find_push,
    lemma_find_unique, lemma_free_push, lemma_prefix_trans, lemma_replace_absent,
    lemma_resolve_frame, lemma_resolve_free, lemma_resolve_push, lemma_resolved_free,
    lemma_subst_len, lemma_tree_frame, occurs, replace, resolve, resolve_from, size, subst_wf,
    tree, types_wf, Subst, Ty, Type, TypeId, TypeVar, Types,
};

verus! {

/// A type with some variables quantified: `forall vars. ty`.
#[derive(Debug)]
pub struct Scheme {
    pub vars: Vec<TypeVar>,
    pub ty: TypeId,
}

/// Why two types could not be made equal.
#[derive(Clone, Copy, Debug)]
pub enum TypeError {
    Mismatch { left: TypeId, right: TypeId },
    InfiniteType { var: TypeVar, ty: TypeId },
    /// Composing two substitutions would bind a variable, through others, to
    /// a type that mentions it.
    Cyclic,
}

/// Two trees whose outermost constructors differ, neither being a variable.
pub open spec fn clash(a: Ty, b: Ty) -> bool {
    match (a, b) {
        (Ty::Var(_), _) | (_, Ty::Var(_)) => false,
        (Ty::Unit, Ty::Unit) | (Ty::Int, Ty::Int) | (Ty::Bool, Ty::Bool) => false,
        (Ty::Arrow(_, _), Ty::Arrow(_, _)) => false,
        _ => true,
    }
}

/// `c` is `newer` composed with `older`: the bindings of `newer`, then those of
/// `older` for the variables that `newer` leaves free, each with `newer`
/// applied to what it binds.
pub open spec fn composed(
    ts0: Seq<Type>,
    ts: Seq<Type>,
    newer: Seq<(usize, usize)>,
    older: Seq<(usize, usize)>,
    c: Seq<(usize, usize)>,
) -> bool {
    &&& is_prefix(newer, c)
    &&& forall|v: usize| bound(c, v) <==> (bound(newer, v) || bound(older, v))
    &&& forall|m: int|
        newer.len() <= m < c.len() ==> {
            &&& (#[trigger] c[m]).1 < ts.len()
            &&& !bound(newer, c[m].0)
            &&& find(older, c[m].0, 0) is Some
            &&& tree(ts, c[m].1 as int) == resolve(ts0, newer, older[find(older, c[m].0, 0)->0].1 as int)
        }
}

/// Every binding of `s` mentions only variables that are free or bound after it.
pub open spec fn triangular(ts: Seq<Type>, s: Seq<(usize, usize)>) -> bool {
    forall|j: int| 0 <= j < s.len() ==> bound_from(ts, s, (#[trigger] s[j]).1 as int, j + 1)
}

pub type Env = Vec<Scheme>;

/// The quantified variables are distinct and exist, and the type is in the arena.
pub open spec fn scheme_wf(ts: Seq<Type>, sc: Scheme, n: int) -> bool {
    &&& sc.ty.0 < ts.len()
    &&& sc.vars@.no_duplicates()
    &&& forall|i: int| 0 <= i < sc.vars@.len() ==> (#[trigger] sc.vars@[i]).0 < n
}

pub open spec fn env_wf(ts: Seq<Type>, env: Seq<Scheme>, n: int) -> bool {
    forall|i: int| 0 <= i < env.len() ==> scheme_wf(ts, #[trigger] env[i], n)
}

/// Each variable of `t` once, in order of first occurrence, appended to `acc`
/// when `acc` does not hold it yet.
pub open spec fn add_tvars(acc: Seq<TypeVar>, t: Ty) -> Seq<TypeVar>
    decreases t,
{
    match t {
        Ty::Var(v) => if acc.contains(TypeVar(v)) {
            acc
        } else {
            acc.push(TypeVar(v))
        },
        Ty::Arrow(p, b) => add_tvars(add_tvars(acc, *p), *b),
        _ => acc,
    }
}

/// `acc` with each variable of `vs`, in order, that neither `excl` nor `acc`
/// holds yet.
pub open spec fn push_new(acc: Seq<TypeVar>, vs: Seq<TypeVar>, excl: Seq<TypeVar>) -> Seq<TypeVar>
    decreases vs.len(),
{
    if vs.len() == 0 {
        acc
    } else {
        let a = push_new(acc, vs.drop_last(), excl);
        if excl.contains(vs.last()) || a.contains(vs.last()) {
            a
        } else {
            a.push(vs.last())
        }
    }
}

/// The free variables of a list of schemes, each given by its quantified
/// variables and its tree, appended to `acc` in order.
pub open spec fn env_fv(acc: Seq<TypeVar>, env: Seq<(Seq<TypeVar>, Ty)>) -> Seq<TypeVar>
    decreases env.len(),
{
    if env.len() == 0 {
        acc
    } else {
        push_new(env_fv(acc, env.drop_last()), add_tvars(seq![], env.last().1), env.last().0)
    }
}

/// The schemes of `env` as quantified variables and trees.
pub open spec fn scheme_trees(ts: Seq<Type>, env: Seq<Scheme>) -> Seq<(Seq<TypeVar>, Ty)> {
    Seq::new(env.len(), |i: int| (env[i].vars@, tree(ts, env[i].ty.0 as int)))
}

/// Type `id` under `s` from position `k` on, leaving the variables of `xs` alone.
pub open spec fn resolve_except(ts: Seq<Type>, s: Seq<(usize, usize)>, xs: Seq<TypeVar>, id: int, k: int) -> Ty
    decreases s.len() - k, id,
{
    if !(0 <= id < ts.len()) || k < 0 || k > s.len() {
        Ty::Unit
    } else {
        match ts[id] {
            Type::Unit => Ty::Unit,
            Type::Int => Ty::Int,
            Type::Bool => Ty::Bool,
            Type::Var(v) => if xs.contains(v) {
                Ty::Var(v.0)
            } else {
                match find(s, v.0, k) {
                    Some(j) => if k <= j < s.len() {
                        resolve_except(ts, s, xs, s[j].1 as int, j + 1)
                    } else {
                        Ty::Var(v.0)
                    },
                    None => Ty::Var(v.0),
                }
            },
            Type::Abs(p, b) => Ty::Arrow(
                Box::new(
                    if 0 <= p.0 < id {
                        resolve_except(ts, s, xs, p.0 as int, k)
                    } else {
                        Ty::Unit
                    },
                ),
                Box::new(
                    if 0 <= b.0 < id {
                        resolve_except(ts, s, xs, b.0 as int, k)
                    } else {
                        Ty::Unit
                    },
                ),
            ),
        }
    }
}

/// The schemes of `env` with `s` applied to each, quantified variables left alone.
pub open spec fn applied_env(ts: Seq<Type>, s: Seq<(usize, usize)>, env: Seq<Scheme>) -> Seq<(Seq<TypeVar>, Ty)> {
    Seq::new(env.len(), |i: int| (env[i].vars@, resolve_except(ts, s, env[i].vars@, env[i].ty.0 as int, 0)))
}

/// The position of the first `v` in `vars`.
pub open spec fn var_index(vars: Seq<TypeVar>, v: usize, k: int) -> Option<int>
    decreases vars.len() - k,
{
    if k < 0 || k >= vars.len() {
        None
    } else if vars[k].0 == v {
        Some(k)
    } else {
        var_index(vars, v, k + 1)
    }
}

/// `t` with the `i`-th variable of `vars` renamed to the new variable `base + i`.
pub open spec fn rename(t: Ty, vars: Seq<TypeVar>, base: int) -> Ty
    decreases t,
{
    match t {
        Ty::Var(v) => match var_index(vars, v, 0) {
            Some(i) => Ty::Var((base + i) as usize),
            None => t,
        },
        Ty::Arrow(p, b) => Ty::Arrow(Box::new(rename(*p, vars, base)), Box::new(rename(*b, vars, base))),
        _ => t,
    }
}

/// The operators that the checker gives a type.
pub open spec fn typed_op(op: Token) -> bool {
    op == Token::Plus || op == Token::Minus || op == Token::Star || op == Token::Slash || op
        == Token::Gt || op == Token::GtEq || op == Token::Lt || op == Token::LtEq || op == Token::EqEq
        || op == Token::BangEq
}

/// Node `id` is a well-shaped expression whose every variable has a binding
/// among the `depth` enclosing ones.
pub open spec fn scoped(nodes: Seq<crate::ast::Node>, uses: Seq<Option<Local>>, id: int, depth: int) -> bool
    decreases id,
{
    if !(0 <= id < nodes.len()) {
        false
    } else {
        match nodes[id].expr {
            Expr::Lit(_) => true,
            Expr::Var(_) => id < uses.len() && (uses[id] matches Some(l) && l.0 < depth),
            Expr::Abs(_, b) => b.0 < id && scoped(nodes, uses, b.0 as int, depth + 1),
            Expr::App(f, a) => f.0 < id && a.0 < id && scoped(nodes, uses, f.0 as int, depth)
                && scoped(nodes, uses, a.0 as int, depth),
            Expr::Bin(l, op, r) => typed_op(op) && l.0 < id && r.0 < id && scoped(nodes, uses, l.0 as int, depth)
                && scoped(nodes, uses, r.0 as int, depth),
            Expr::Bind { is_recursive, init, body, .. } => init.0 < id && body.0 < id && scoped(
                nodes,
                uses,
                init.0 as int,
                if is_recursive {
                    depth + 1
                } else {
                    depth
                },
            ) && scoped(nodes, uses, body.0 as int, depth + 1),
            Expr::Cond { cond, then_branch, else_branch } => cond.0 < id && then_branch.0 < id
                && else_branch.0 < id && scoped(nodes, uses, cond.0 as int, depth) && scoped(
                nodes,
                uses,
                then_branch.0 as int,
                depth,
            ) && scoped(nodes, uses, else_branch.0 as int, depth),
        }
    }
}

pub proof fn lemma_env_wf_frame(ts: Seq<Type>, ts2: Seq<Type>, env: Seq<Scheme>, n: int, n2: int)
    requires
        extends(ts, ts2),
        env_wf(ts, env, n),
        n <= n2,
    ensures
        env_wf(ts2, env, n2),
{
    assert forall|i: int| 0 <= i < env.len() implies scheme_wf(ts2, #[trigger] env[i], n2) by {
        assert(scheme_wf(ts, env[i], n));
    }
}

pub proof fn lemma_resolve_except_frame(
    ts: Seq<Type>,
    ts2: Seq<Type>,
    s: Seq<(usize, usize)>,
    xs: Seq<TypeVar>,
    id: int,
    k: int,
)
    requires
        extends(ts, ts2),
        forall|j: int| 0 <= j < s.len() ==> (#[trigger] s[j]).1 < ts.len(),
        0 <= id < ts.len(),
    ensures
        resolve_except(ts2, s, xs, id, k) == resolve_except(ts, s, xs, id, k),
    decreases s.len() - k, id,
{
    if 0 <= k <= s.len() {
        match ts[id] {
            Type::Var(v) => {
                lemma_find(s, v.0, k);
                if let Some(j) = find(s, v.0, k) {
                    lemma_resolve_except_frame(ts, ts2, s, xs, s[j].1 as int, j + 1);
                }
            },
            Type::Abs(p, b) => {
                if 0 <= p.0 < id {
                    lemma_resolve_except_frame(ts, ts2, s, xs, p.0 as int, k);
                }
                if 0 <= b.0 < id {
                    lemma_resolve_except_frame(ts, ts2, s, xs, b.0 as int, k);
                }
            },
            _ => {},
        }
    }
}

pub fn has_var(vars: &Vec<TypeVar>, v: TypeVar) -> (res: bool)
    ensures
        res == vars@.contains(v),
{
    let mut i: usize = 0;
    while i < vars.len()
        invariant
            i <= vars@.len(),
            forall|k: int| 0 <= k < i ==> vars@[k] != v,
        decreases vars@.len() - i,
    {
        if vars[i] == v {
            return true;
        }
        i = i + 1;
    }
    false
}

pub fn copy_vars(vars: &Vec<TypeVar>) -> (res: Vec<TypeVar>)
    ensures
        res@ == vars@,
{
    let mut out: Vec<TypeVar> = Vec::new();
    let mut i: usize = 0;
    while i < vars.len()
        invariant
            i <= vars@.len(),
            out@ == vars@.take(i as int),
        decreases vars@.len() - i,
    {
        out.push(vars[i]);
        i = i + 1;
        assert(out@ =~= vars@.take(i as int));
    }
    assert(vars@.take(vars@.len() as int) =~= vars@);
    out
}

pub proof fn lemma_add_tvars_distinct(acc: Seq<TypeVar>, t: Ty)
    requires
        acc.no_duplicates(),
    ensures
        add_tvars(acc, t).no_duplicates(),
    decreases t,
{
    match t {
        Ty::Arrow(p, b) => {
            lemma_add_tvars_distinct(acc, *p);
            lemma_add_tvars_distinct(add_tvars(acc, *p), *b);
        },
        _ => {},
    }
}

pub proof fn lemma_add_tvars_members(acc: Seq<TypeVar>, t: Ty, v: TypeVar)
    ensures
        add_tvars(acc, t).contains(v) ==> acc.contains(v) || occurs(t, v.0),
    decreases t,
{
    match t {
        Ty::Arrow(p, b) => {
            lemma_add_tvars_members(acc, *p, v);
            lemma_add_tvars_members(add_tvars(acc, *p), *b, v);
        },
        Ty::Var(x) => {
            if !acc.contains(TypeVar(x)) && acc.push(TypeVar(x)).contains(v) {
                let i = choose|i: int| 0 <= i < acc.push(TypeVar(x)).len() && acc.push(TypeVar(x))[i] == v;
                if i < acc.len() {
                    assert(acc[i] == v);
                }
            }
        },
        _ => {},
    }
}

/// The variables of a well-formed type exist.
pub proof fn lemma_tree_vars(ts: Seq<Type>, id: int, n: int, x: usize)
    requires
        types_wf(ts, n),
        0 <= id < ts.len(),
        occurs(tree(ts, id), x),
    ensures
        x < n,
    decreases id,
{
    match ts[id] {
        Type::Abs(p, b) => {
            if occurs(tree(ts, p.0 as int), x) {
                lemma_tree_vars(ts, p.0 as int, n, x);
            } else {
                lemma_tree_vars(ts, b.0 as int, n, x);
            }
        },
        _ => {},
    }
}

/// Position `base + j` of `ts` holds the new variable `n0 + j`.
pub open spec fn fresh_at(ts: Seq<Type>, base: int, n0: int, j: int) -> bool {
    &&& n0 + j <= usize::MAX
    &&& ts[base + j] == Type::Var(TypeVar((n0 + j) as usize))
}

pub proof fn lemma_find_var_index(s: Seq<(usize, usize)>, vars: Seq<TypeVar>, base: int, v: usize, k: int)
    requires
        s == Seq::new(vars.len(), |j: int| (vars[j].0, (base + j) as usize)),
        0 <= k,
    ensures
        find(s, v, k) == var_index(vars, v, k),
    decreases vars.len() - k,
{
    if k < vars.len() {
        assert(s[k].0 == vars[k].0);
        lemma_find_var_index(s, vars, base, v, k + 1);
    }
}

/// Resolving under a substitution that binds each of `vars` to a new
/// variable renames them.
pub proof fn lemma_resolve_rename(
    ts: Seq<Type>,
    s: Seq<(usize, usize)>,
    vars: Seq<TypeVar>,
    base: int,
    n0: int,
    id: int,
    nmax: int,
)
    requires
        types_wf(ts, nmax),
        0 <= n0,
        0 <= id < base,
        base + vars.len() <= ts.len(),
        s == Seq::new(vars.len(), |j: int| (vars[j].0, (base + j) as usize)),
        forall|j: int| 0 <= j < vars.len() ==> (#[trigger] vars[j]).0 < n0,
        forall|j: int| 0 <= j < vars.len() ==> #[trigger] fresh_at(ts, base, n0, j),
        base <= usize::MAX - vars.len(),
    ensures
        resolve(ts, s, id) == rename(tree(ts, id), vars, n0),
    decreases id,
{
    match ts[id] {
        Type::Var(v) => {
            lemma_find_var_index(s, vars, base, v.0, 0);
            lemma_find(s, v.0, 0);
            if let Some(j) = find(s, v.0, 0) {
                let t = base + j;
                assert(s[j].1 == t);
                assert(fresh_at(ts, base, n0, j));
                assert(0 <= t < ts.len());
                let x = (n0 + j) as usize;
                assert(ts[t] == Type::Var(TypeVar(x)));
                lemma_find(s, x, j + 1);
                assert forall|i: int| j + 1 <= i < s.len() implies s[i].0 != x by {
                    assert(vars[i].0 < n0);
                }
                assert(find(s, x, j + 1) is None);
                assert(resolve_from(ts, s, t, j + 1) == Ty::Var(x));
                assert(resolve(ts, s, id) == resolve_from(ts, s, t, j + 1));
                assert(rename(tree(ts, id), vars, n0) == Ty::Var(x));
            } else {
                assert(resolve(ts, s, id) == Ty::Var(v.0));
                assert(rename(tree(ts, id), vars, n0) == Ty::Var(v.0));
            }
        },
        Type::Abs(p, b) => {
            assert(p.0 < id && b.0 < id);
            lemma_resolve_rename(ts, s, vars, base, n0, p.0 as int, nmax);
            lemma_resolve_rename(ts, s, vars, base, n0, b.0 as int, nmax);
        },
        _ => {},
    }
}

/// Types allocated in a grown arena keep what they resolve to, and a
/// substitution stays well formed there.
pub proof fn lemma_subst_wf_frame(ts: Seq<Type>, ts2: Seq<Type>, s: Seq<(usize, usize)>, n: int, n2: int)
    requires
        extends(ts, ts2),
        subst_wf(ts, s, n),
        n <= n2,
    ensures
        subst_wf(ts2, s, n2),
{
    assert forall|j: int| 0 <= j < s.len() implies bound_from(ts2, s, (#[trigger] s[j]).1 as int, j + 1) by {
        lemma_bound_frame(ts, ts2, s, s[j].1 as int, j + 1);
    }
}

/// A type with no bound variable has all its bound variables bound anywhere.
pub proof fn lemma_free_bound_from(ts: Seq<Type>, s: Seq<(usize, usize)>, id: int, k: int, n: int)
    requires
        types_wf(ts, n),
        0 <= id < ts.len(),
        free_of(tree(ts, id), s),
    ensures
        bound_from(ts, s, id, k),
    decreases id,
{
    match ts[id] {
        Type::Abs(p, b) => {
            lemma_free_bound_from(ts, s, p.0 as int, k, n);
            lemma_free_bound_from(ts, s, b.0 as int, k, n);
        },
        _ => {},
    }
}

pub proof fn lemma_bound_from_push(ts: Seq<Type>, s: Seq<(usize, usize)>, e: (usize, usize), id: int, k: int)
    requires
        bound_from(ts, s, id, k),
        k <= s.len(),
    ensures
        bound_from(ts, s.push(e), id, k),
    decreases id,
{
    match ts[id] {
        Type::Abs(p, b) => {
            lemma_bound_from_push(ts, s, e, p.0 as int, k);
            lemma_bound_from_push(ts, s, e, b.0 as int, k);
        },
        Type::Var(v) => {
            lemma_find_push(s, e, v.0, 0);
        },
        _ => {},
    }
}

/// Binding a free variable to a type free of the substitution and without the
/// variable keeps the substitution well formed.
pub proof fn lemma_subst_push_wf(ts: Seq<Type>, s: Seq<(usize, usize)>, x: usize, u: usize, n: int)
    requires
        types_wf(ts, n),
        subst_wf(ts, s, n),
        !bound(s, x),
        x < n,
        u < ts.len(),
        free_of(tree(ts, u as int), s),
        !occurs(tree(ts, u as int), x),
    ensures
        subst_wf(ts, s.push((x, u)), n),
{
    let s2 = s.push((x, u));
    lemma_find(s, x, 0);
    assert forall|i: int, j: int| 0 <= i < j < s2.len() implies s2[i].0 != s2[j].0 by {
        if j == s.len() {
            assert(s2[i] == s[i]);
        } else {
            assert(s2[i] == s[i] && s2[j] == s[j]);
        }
    }
    assert forall|j: int| 0 <= j < s2.len() implies (#[trigger] s2[j]).0 < n && s2[j].1 < ts.len() by {
        if j < s.len() {
            assert(s2[j] == s[j]);
        }
    }
    assert forall|j: int| 0 <= j < s2.len() implies bound_from(ts, s2, (#[trigger] s2[j]).1 as int, j + 1) by {
        if j < s.len() {
            assert(s2[j] == s[j]);
            lemma_bound_from_push(ts, s, (x, u), s[j].1 as int, j + 1);
        } else {
            lemma_free_push(tree(ts, u as int), s, x, u);
            lemma_free_bound_from(ts, s2, u as int, j + 1, n);
        }
    }
}

/// Whether node `id` is a well-shaped expression whose every variable has a
/// binding among the `depth` enclosing ones: what inference needs of its input.
pub fn well_scoped(ast: &Ast, locals: &AstTable<Option<Local>>, id: ExprId, depth: usize) -> (res: bool)
    requires
        depth + id.0 <= usize::MAX,
    ensures
        res == scoped(ast@, locals@, id.0 as int, depth as int),
    decreases id.0,
{
    if id.0 >= ast.len() {
        return false;
    }
    match ast.expr(id) {
        Expr::Lit(_) => true,
        Expr::Var(_) => {
            if id.0 >= locals.len() {
                return false;
            }
            match *locals.get(id) {
                Some(l) => l.0 < depth,
                None => false,
            }
        },
        Expr::Abs(_, b) => b.0 < id.0 && well_scoped(ast, locals, b, depth + 1),
        Expr::App(f, a) => f.0 < id.0 && a.0 < id.0 && well_scoped(ast, locals, f, depth)
            && well_scoped(ast, locals, a, depth),
        Expr::Bin(l, op, r) => {
            let typed = op == Token::Plus || op == Token::Minus || op == Token::Star || op
                == Token::Slash || op == Token::Gt || op == Token::GtEq || op == Token::Lt || op
                == Token::LtEq || op == Token::EqEq || op == Token::BangEq;
            typed && l.0 < id.0 && r.0 < id.0 && well_scoped(ast, locals, l, depth) && well_scoped(
                ast,
                locals,
                r,
                depth,
            )
        },
        Expr::Bind { is_recursive, init, body, .. } => {
            init.0 < id.0 && body.0 < id.0 && well_scoped(
                ast,
                locals,
                init,
                if is_recursive {
                    depth + 1
                } else {
                    depth
                },
            ) && well_scoped(ast, locals, body, depth + 1)
        },
        Expr::Cond { cond, then_branch, else_branch } => cond.0 < id.0 && then_branch.0 < id.0
            && else_branch.0 < id.0 && well_scoped(ast, locals, cond, depth) && well_scoped(
            ast,
            locals,
            then_branch,
            depth,
        ) && well_scoped(ast, locals, else_branch, depth),
    }
}

/// A copy of `env`.
fn copy_env(env: &Env) -> (res: Env)
    ensures
        res@.len() == env@.len(),
        forall|i: int| 0 <= i < env@.len() ==> (#[trigger] res@[i]).vars@ == env@[i].vars@ && res@[i].ty == env@[i].ty,
{
    let mut out: Env = Vec::new();
    let mut i: usize = 0;
    while i < env.len()
        invariant
            i <= env@.len(),
            out@.len() == i,
            forall|k: int| 0 <= k < i ==> (#[trigger] out@[k]).vars@ == env@[k].vars@ && out@[k].ty == env@[k].ty,
        decreases env@.len() - i,
    {
        let sc = Scheme { vars: copy_vars(&env[i].vars), ty: env[i].ty };
        out.push(sc);
        i = i + 1;
    }
    out
}

pub proof fn lemma_copy_env_wf(ts: Seq<Type>, env: Seq<Scheme>, copy: Seq<Scheme>, n: int, ty: TypeId)
    requires
        env_wf(ts, env, n),
        copy.len() == env.len() + 1,
        forall|i: int| 0 <= i < env.len() ==> (#[trigger] copy[i]).vars@ == env[i].vars@ && copy[i].ty == env[i].ty,
        copy.last().vars@.len() == 0,
        copy.last().ty == ty,
        ty.0 < ts.len(),
    ensures
        env_wf(ts, copy, n),
{
    assert forall|i: int| 0 <= i < copy.len() implies scheme_wf(ts, #[trigger] copy[i], n) by {
        if i < env.len() {
            assert(scheme_wf(ts, env[i], n));
        }
    }
}

/// How a type variable is written: `t` and its number.
pub open spec fn var_str(v: usize) -> Seq<char> {
    seq!['t'] + decimal_chars(v as nat)
}

/// How a type is written; a function type in parameter position is
/// parenthesized.
pub open spec fn type_str(t: Ty) -> Seq<char>
    decreases t,
{
    match t {
        Ty::Unit => "()"@,
        Ty::Int => "int"@,
        Ty::Bool => "bool"@,
        Ty::Var(v) => var_str(v),
        Ty::Arrow(p, r) => (match *p {
            Ty::Arrow(_, _) => "("@ + type_str(*p) + ")"@,
            _ => type_str(*p),
        }) + " -> "@ + type_str(*r),
    }
}

/// The variables of `vars`, written and separated by spaces.
pub open spec fn vars_str(vars: Seq<TypeVar>) -> Seq<char>
    decreases vars.len(),
{
    if vars.len() == 0 {
        Seq::empty()
    } else if vars.len() == 1 {
        var_str(vars[0].0)
    } else {
        vars_str(vars.drop_last()) + " "@ + var_str(vars.last().0)
    }
}

/// The message for a type error.
pub open spec fn error_str(ts: Seq<Type>, e: TypeError) -> Seq<char> {
    match e {
        TypeError::Mismatch { left, right } => "type mismatch: "@ + type_str(tree(ts, left.0 as int))
            + " != "@ + type_str(tree(ts, right.0 as int)),
        TypeError::InfiniteType { var, ty } => "illegal recursive type: "@ + var_str(var.0)
            + " occurs in "@ + type_str(tree(ts, ty.0 as int)),
        TypeError::Cyclic => "cyclic substitution"@,
    }
}

/// Unifying types `a` and `b` fails at once: their outermost forms differ
/// and neither is a variable.
pub open spec fn top_clash(a: Ty, b: Ty) -> bool {
    &&& !(a is Var) && !(b is Var)
    &&& !(a is Int && b is Int) && !(a is Bool && b is Bool) && !(a is Unit && b is Unit)
    &&& !(a is Arrow && b is Arrow)
}

/// Unifying `a` with `b` from `st` in the tree model.
pub open spec fn unify_one(st: TreeSubst, a: Ty, b: Ty) -> Result<TreeSubst, TyError> {
    match unify_res(st, seq![(a, b)]) {
        Some(r) => r,
        None => Err(TyError::Cyclic),
    }
}

/// The schemes of `genv` with `st` applied, their quantified variables left
/// alone.
pub open spec fn apply_env_t(st: TreeSubst, genv: Seq<(Seq<TypeVar>, Ty)>) -> Seq<(Seq<TypeVar>, Ty)> {
    Seq::new(genv.len(), |i: int| (genv[i].0, resolve_except_t(st, genv[i].0, genv[i].1, 0)))
}

/// The scheme that a `let` gives its name: type `t` under `st`, with every
/// variable that the environment under `st` does not mention quantified.
pub open spec fn gen_t(st: TreeSubst, genv: Seq<(Seq<TypeVar>, Ty)>, t: Ty) -> (Seq<TypeVar>, Ty) {
    let r = resolve_t(st, t, 0);
    (add_tvars(seq![], r).filter(|v: TypeVar| !env_fv(seq![], apply_env_t(st, genv)).contains(v)), r)
}

/// Algorithm W on expression `id`, over trees: the substitution it finds, the
/// type, and the count of type variables after it; or the error it stops
/// with. `genv` holds the scheme of each variable in scope, and `n` is the
/// count of type variables so far.
///
/// A literal has its base type. A variable has its scheme with the
/// quantified variables renamed to fresh ones. An abstraction gives its
/// parameter a fresh variable and infers its body. An application infers the
/// function, then the argument under what that found, and unifies the
/// function's type with one from the argument's type to a fresh variable. An
/// operator infers both operands and unifies them with each other (`==`,
/// `!=`) or each with `int`; its type is `int`, comparisons included. A `let` infers its initializer and gives the
/// name the generalized type; a `let rec` first gives the name a fresh
/// variable and unifies it with the initializer's type. A conditional
/// unifies its condition with `bool` and its branches with each other.
/// Substitutions are composed newest first. A child that does not come
/// before its parent, or a variable that resolves to no scheme, gives
/// `Cyclic` as a placeholder: the checker is only called on expressions that
/// have neither.
pub open spec fn infer_t(
    nodes: Seq<crate::ast::Node>,
    uses: Seq<Option<Local>>,
    genv: Seq<(Seq<TypeVar>, Ty)>,
    n: int,
    id: int,
) -> Result<(TreeSubst, Ty, int), TyError>
    decreases id,
{
    if !(0 <= id < nodes.len()) {
        Err(TyError::Cyclic)
    } else {
        match nodes[id].expr {
            Expr::Lit(Lit::Unit) => Ok((Seq::empty(), Ty::Unit, n)),
            Expr::Lit(Lit::Int(_)) => Ok((Seq::empty(), Ty::Int, n)),
            Expr::Lit(Lit::Bool(_)) => Ok((Seq::empty(), Ty::Bool, n)),
            Expr::Var(_) => if id < uses.len() && uses[id] is Some && (uses[id]->0).0 < genv.len() {
                let sc = genv[(uses[id]->0).0 as int];
                Ok((Seq::empty(), rename(sc.1, sc.0, n), n + sc.0.len()))
            } else {
                Err(TyError::Cyclic)
            },
            Expr::Abs(_, b) => if !(b.0 < id) {
                Err(TyError::Cyclic)
            } else {
                match infer_t(nodes, uses, genv.push((Seq::empty(), Ty::Var(n as usize))), n + 1, b.0 as int) {
                    Err(e) => Err(e),
                    Ok((st, t, m)) => Ok(
                        (st, Ty::Arrow(Box::new(resolve_t(st, Ty::Var(n as usize), 0)), Box::new(t)), m),
                    ),
                }
            },
            Expr::App(f, a) => if !(f.0 < id && a.0 < id) {
                Err(TyError::Cyclic)
            } else {
                match infer_t(nodes, uses, genv, n, f.0 as int) {
                    Err(e) => Err(e),
                    Ok((s1, tf, n1)) => match infer_t(nodes, uses, apply_env_t(s1, genv), n1, a.0 as int) {
                        Err(e) => Err(e),
                        Ok((s2, ta, n2)) => match compose_t(s2, s1) {
                            Err(e) => Err(e),
                            Ok(c) => match unify_one(
                                c,
                                tf,
                                Ty::Arrow(Box::new(resolve_t(c, ta, 0)), Box::new(Ty::Var(n2 as usize))),
                            ) {
                                Err(e) => Err(e),
                                Ok(u) => Ok((u, resolve_t(u, Ty::Var(n2 as usize), 0), n2 + 1)),
                            },
                        },
                    },
                }
            },
            Expr::Bin(l, op, r) => if !(l.0 < id && r.0 < id) {
                Err(TyError::Cyclic)
            } else {
                match infer_t(nodes, uses, genv, n, l.0 as int) {
                    Err(e) => Err(e),
                    Ok((s1, tl, n1)) => match infer_t(nodes, uses, apply_env_t(s1, genv), n1, r.0 as int) {
                        Err(e) => Err(e),
                        Ok((s2, tr, n2)) => match compose_t(s2, s1) {
                            Err(e) => Err(e),
                            Ok(c) => if op == Token::EqEq || op == Token::BangEq {
                                match unify_one(c, tl, tr) {
                                    Err(e) => Err(e),
                                    Ok(u) => Ok((u, Ty::Int, n2)),
                                }
                            } else {
                                match unify_one(c, tl, Ty::Int) {
                                    Err(e) => Err(e),
                                    Ok(u1) => match unify_one(u1, tr, Ty::Int) {
                                        Err(e) => Err(e),
                                        Ok(u) => Ok((u, Ty::Int, n2)),
                                    },
                                }
                            },
                        },
                    },
                }
            },
            Expr::Bind { is_recursive, init, body, .. } => if !(init.0 < id && body.0 < id) {
                Err(TyError::Cyclic)
            } else if !is_recursive {
                match infer_t(nodes, uses, genv, n, init.0 as int) {
                    Err(e) => Err(e),
                    Ok((s1, ti, n1)) => match infer_t(
                        nodes,
                        uses,
                        apply_env_t(s1, genv).push(gen_t(s1, genv, ti)),
                        n1,
                        body.0 as int,
                    ) {
                        Err(e) => Err(e),
                        Ok((s2, tb, n2)) => match compose_t(s2, s1) {
                            Err(e) => Err(e),
                            Ok(c) => Ok((c, resolve_t(c, tb, 0), n2)),
                        },
                    },
                }
            } else {
                let p = Ty::Var(n as usize);
                match infer_t(nodes, uses, genv.push((Seq::empty(), p)), n + 1, init.0 as int) {
                    Err(e) => Err(e),
                    Ok((s1, ti, n1)) => match unify_one(s1, p, ti) {
                        Err(e) => Err(e),
                        Ok(u) => match infer_t(
                            nodes,
                            uses,
                            apply_env_t(u, genv).push(gen_t(u, genv, p)),
                            n1,
                            body.0 as int,
                        ) {
                            Err(e) => Err(e),
                            Ok((s2, tb, n2)) => match compose_t(s2, u) {
                                Err(e) => Err(e),
                                Ok(c) => Ok((c, resolve_t(c, tb, 0), n2)),
                            },
                        },
                    },
                }
            },
            Expr::Cond { cond, then_branch, else_branch } => if !(cond.0 < id && then_branch.0 < id
                && else_branch.0 < id) {
                Err(TyError::Cyclic)
            } else {
                match infer_t(nodes, uses, genv, n, cond.0 as int) {
                    Err(e) => Err(e),
                    Ok((s1, tc, n1)) => match unify_one(s1, tc, Ty::Bool) {
                        Err(e) => Err(e),
                        Ok(u1) => match infer_t(nodes, uses, apply_env_t(u1, genv), n1, then_branch.0 as int) {
                            Err(e) => Err(e),
                            Ok((s2, tt, n2)) => match compose_t(s2, u1) {
                                Err(e) => Err(e),
                                Ok(c1) => match infer_t(
                                    nodes,
                                    uses,
                                    apply_env_t(c1, genv),
                                    n2,
                                    else_branch.0 as int,
                                ) {
                                    Err(e) => Err(e),
                                    Ok((s3, te, n3)) => match compose_t(s3, c1) {
                                        Err(e) => Err(e),
                                        Ok(c2) => match unify_one(c2, tt, te) {
                                            Err(e) => Err(e),
                                            Ok(u) => Ok((u, resolve_t(u, tt, 0), n3)),
                                        },
                                    },
                                },
                            },
                        },
                    },
                }
            },
        }
    }
}

/// What inference returned agrees with the model's outcome `r`: the same
/// substitution, type and count of type variables, or the same error.
pub open spec fn infer_agrees(
    ts: Seq<Type>,
    nv: int,
    r: Result<(TreeSubst, Ty, int), TyError>,
    res: Result<(Subst, TypeId), TypeError>,
) -> bool {
    match r {
        Ok((st, t, m)) => res matches Ok((s, ty)) && subst_trees(ts, s@) == st && ty.0 < ts.len() && tree(
            ts,
            ty.0 as int,
        ) == t && nv == m,
        Err(e) => res matches Err(err) && err_tree(ts, err) == e,
    }
}

/// The message for a type error of the tree model.
pub open spec fn ty_error_str(e: TyError) -> Seq<char> {
    match e {
        TyError::Mismatch(a, b) => "type mismatch: "@ + type_str(a) + " != "@ + type_str(b),
        TyError::Infinite(v, t) => "illegal recursive type: "@ + var_str(v) + " occurs in "@ + type_str(t),
        TyError::Cyclic => "cyclic substitution"@,
    }
}

/// Applying a substitution to an environment in the arena is applying it to
/// the trees.
proof fn lemma_applied_env_trees(ts: Seq<Type>, s: Seq<(usize, usize)>, env: Seq<Scheme>)
    requires
        forall|i: int| 0 <= i < env.len() ==> (#[trigger] env[i]).ty.0 < ts.len(),
    ensures
        applied_env(ts, s, env) == apply_env_t(subst_trees(ts, s), scheme_trees(ts, env)),
{
    assert forall|i: int| 0 <= i < env.len() implies #[trigger] applied_env(ts, s, env)[i] == apply_env_t(
        subst_trees(ts, s),
        scheme_trees(ts, env),
    )[i] by {
        lemma_resolve_except_trees(ts, s, env[i].vars@, env[i].ty.0 as int, 0);
    }
    assert(applied_env(ts, s, env) =~= apply_env_t(subst_trees(ts, s), scheme_trees(ts, env)));
}

/// The schemes of an environment read the same in an arena that extends it.
proof fn lemma_scheme_trees_frame(ts: Seq<Type>, ts2: Seq<Type>, env: Seq<Scheme>)
    requires
        extends(ts, ts2),
        forall|i: int| 0 <= i < env.len() ==> (#[trigger] env[i]).ty.0 < ts.len(),
    ensures
        scheme_trees(ts2, env) == scheme_trees(ts, env),
{
    assert forall|i: int| 0 <= i < env.len() implies #[trigger] scheme_trees(ts2, env)[i] == scheme_trees(ts, env)[i] by {
        lemma_tree_frame(ts, ts2, env[i].ty.0 as int);
    }
    assert(scheme_trees(ts2, env) =~= scheme_trees(ts, env));
}

/// A type of `ts` whose tree is a base type is that base type, also in an
/// arena `ts2` that extends `ts`.
proof fn lemma_base_tree(ts: Seq<Type>, ts2: Seq<Type>, id: int)
    requires
        extends(ts, ts2),
        0 <= id < ts.len(),
    ensures
        tree(ts, id) == Ty::Int ==> ts2[id] is Int && tree(ts2, id) == Ty::Int,
        tree(ts, id) == Ty::Bool ==> ts2[id] is Bool && tree(ts2, id) == Ty::Bool,
        tree(ts, id) == Ty::Unit ==> ts2[id] is Unit && tree(ts2, id) == Ty::Unit,
        ts[id] is Int ==> tree(ts, id) == Ty::Int,
        ts[id] is Bool ==> tree(ts, id) == Ty::Bool,
        ts[id] is Unit ==> tree(ts, id) == Ty::Unit,
{
    assert(ts2[id] == ts[id]);
}

/// Error `e` with its types read as trees of `ts`.
pub open spec fn err_tree(ts: Seq<Type>, e: TypeError) -> TyError {
    match e {
        TypeError::Mismatch { left, right } => TyError::Mismatch(tree(ts, left.0 as int), tree(ts, right.0 as int)),
        TypeError::InfiniteType { var, ty } => TyError::Infinite(var.0, tree(ts, ty.0 as int)),
        TypeError::Cyclic => TyError::Cyclic,
    }
}

/// What a run that ends in `res` leaves, as a value of the tree model: the
/// substitution it built, or its error.
pub open spec fn unify_outcome(ts: Seq<Type>, s: Seq<(usize, usize)>, res: Result<(), TypeError>) -> Result<TreeSubst, TyError> {
    match res {
        Ok(()) => Ok(subst_trees(ts, s)),
        Err(e) => Err(err_tree(ts, e)),
    }
}

/// `a` and `b` stand at the same place in `t1` and `t2`: they are the two
/// trees themselves, or stand at the same place in both parameters or in both
/// results of two function types.
pub open spec fn same_place(t1: Ty, t2: Ty, a: Ty, b: Ty) -> bool
    decreases t1,
{
    ||| t1 == a && t2 == b
    ||| match (t1, t2) {
        (Ty::Arrow(p1, r1), Ty::Arrow(p2, r2)) => same_place(*p1, *p2, a, b) || same_place(*r1, *r2, a, b),
        _ => false,
    }
}

/// Types `a` and `b` of `ts` are base types of different kinds.
pub open spec fn base_clash(ts: Seq<Type>, a: TypeId, b: TypeId) -> bool {
    &&& (ts[a.0 as int] is Int || ts[a.0 as int] is Bool || ts[a.0 as int] is Unit)
    &&& (ts[b.0 as int] is Int || ts[b.0 as int] is Bool || ts[b.0 as int] is Unit)
    &&& !same_base(ts, a, b)
}

/// Types `a` and `b` of `ts` are the same base type.
pub open spec fn same_base(ts: Seq<Type>, a: TypeId, b: TypeId) -> bool {
    ||| ts[a.0 as int] is Int && ts[b.0 as int] is Int
    ||| ts[a.0 as int] is Bool && ts[b.0 as int] is Bool
    ||| ts[a.0 as int] is Unit && ts[b.0 as int] is Unit
}

/// Type `ty` of `ts` is a base type, or a variable that `s` does not bind,
/// so that applying `s` leaves it as it is.
pub open spec fn unchanged_by(ts: Seq<Type>, s: Seq<(usize, usize)>, ty: TypeId) -> bool {
    match ts[ty.0 as int] {
        Type::Var(v) => find(s, v.0, 0) is None,
        Type::Abs(_, _) => false,
        _ => true,
    }
}

/// What every step of inference promises: the checker grew, and a result is a
/// well-formed substitution and a type of the arena.
pub open spec fn infer_post(before: Checker, after: Checker, res: Result<(Subst, TypeId), TypeError>) -> bool {
    &&& after.grew(&before)
    &&& res matches Ok((s, t)) ==> subst_wf(after.ts(), s@, after.nvars()) && t.0 < after.ts().len()
    &&& res matches Err(e) ==> error_wf(after.ts(), e)
}

/// The types that error `e` names are in the arena `ts`, and they show what
/// went wrong: two types of different forms, or a variable in a type that
/// contains it and is not the variable itself.
pub open spec fn error_wf(ts: Seq<Type>, e: TypeError) -> bool {
    match e {
        TypeError::Mismatch { left, right } => left.0 < ts.len() && right.0 < ts.len() && clash(
            tree(ts, left.0 as int),
            tree(ts, right.0 as int),
        ),
        TypeError::InfiniteType { var, ty } => ty.0 < ts.len() && occurs(tree(ts, ty.0 as int), var.0) && tree(
            ts,
            ty.0 as int,
        ) != Ty::Var(var.0),
        TypeError::Cyclic => true,
    }
}

/// Infers the types of an expression tree, Hindley–Milner style.
pub struct Checker<'a> {
    ast: &'a Ast,
    locals: &'a AstTable<Option<Local>>,
    tvar_count: usize,
    types: Types,
}

impl<'a> Checker<'a> {
    /// The arena of types.
    pub closed spec fn ts(&self) -> Seq<Type> {
        self.types@
    }

    /// How many type variables have been created.
    pub closed spec fn nvars(&self) -> int {
        self.tvar_count as int
    }

    pub closed spec fn int_id(&self) -> TypeId {
        self.types.int_id()
    }

    pub closed spec fn bool_id(&self) -> TypeId {
        self.types.bool_id()
    }

    pub closed spec fn unit_id(&self) -> TypeId {
        self.types.unit_id()
    }

    pub closed spec fn nodes(&self) -> Seq<crate::ast::Node> {
        self.ast@
    }

    pub closed spec fn uses(&self) -> Seq<Option<Local>> {
        self.locals@
    }

    /// The base types are where they belong, every type is well formed and
    /// there are more types than type variables.
    pub closed spec fn inv(&self) -> bool {
        &&& self.types.bases_wf()
        &&& types_wf(self.types@, self.tvar_count as int)
        &&& (self.tvar_count as int) < self.types@.len()
    }

    /// What every operation keeps: the program, and the base types.
    pub open spec fn same_program(&self, other: &Self) -> bool {
        &&& self.nodes() == other.nodes()
        &&& self.uses() == other.uses()
        &&& self.int_id() == other.int_id()
        &&& self.bool_id() == other.bool_id()
        &&& self.unit_id() == other.unit_id()
    }

    pub proof fn lemma_inv(&self)
        requires
            self.inv(),
        ensures
            types_wf(self.ts(), self.nvars()),
            types_wf(self.ts(), usize::MAX as int + 1),
            0 <= self.nvars() < self.ts().len(),
            self.ts().len() <= usize::MAX,
            self.int_id().0 < self.ts().len(),
            self.ts()[self.int_id().0 as int] == Type::Int,
            self.bool_id().0 < self.ts().len(),
            self.ts()[self.bool_id().0 as int] == Type::Bool,
            self.unit_id().0 < self.ts().len(),
            self.ts()[self.unit_id().0 as int] == Type::Unit,
    {
        self.types.lemma_len_bound();
    }

    pub fn new(ast: &'a Ast, locals: &'a AstTable<Option<Local>>) -> (res: Self)
        ensures
            res.inv(),
            res.nvars() == 0,
            res.nodes() == ast@,
            res.uses() == locals@,
            res.ts() == seq![Type::Int, Type::Bool, Type::Unit],
            res.int_id().0 == 0,
            res.bool_id().0 == 1,
            res.unit_id().0 == 2,
    {
        Checker { ast, locals, tvar_count: 0, types: Types::new() }
    }

    /// A new type variable.
    fn fresh_tvar(&mut self) -> (res: TypeId)
        requires
            old(self).inv(),
        ensures
            final(self).inv(),
            final(self).same_program(old(self)),
            final(self).nvars() == old(self).nvars() + 1,
            final(self).ts() == old(self).ts().push(Type::Var(TypeVar(old(self).nvars() as usize))),
            res.0 == old(self).ts().len(),
    {
        let count = self.types.len();
        assert(self.tvar_count < count);
        let tvar = TypeVar(self.tvar_count);
        self.tvar_count = self.tvar_count + 1;
        self.types.allocate(Type::Var(tvar))
    }

    /// `ty` with no quantified variable.
    fn mono(&self, ty: TypeId) -> (res: Scheme)
        ensures
            res.vars@.len() == 0,
            res.ty == ty,
    {
        Scheme { vars: Vec::new(), ty }
    }

    /// `ty` under `subst`, from position `k` on.
    fn apply_from(&mut self, ty: TypeId, subst: &Subst, Ghost(k): Ghost<int>) -> (res: TypeId)
        requires
            old(self).inv(),
            subst_wf(old(self).ts(), subst@, old(self).nvars()),
            0 <= k <= subst@.len(),
            ty.0 < old(self).ts().len(),
            bound_from(old(self).ts(), subst@, ty.0 as int, k),
        ensures
            final(self).inv(),
            final(self).same_program(old(self)),
            final(self).nvars() == old(self).nvars(),
            extends(old(self).ts(), final(self).ts()),
            res.0 < final(self).ts().len(),
            tree(final(self).ts(), res.0 as int) == resolve_from(old(self).ts(), subst@, ty.0 as int, k),
            unchanged_by(old(self).ts(), subst@, ty) ==> res == ty && final(self).ts() == old(self).ts(),
        decreases subst@.len() - k, ty.0,
    {
        let ghost ts0 = self.ts();
        proof {
            self.lemma_inv();
        }
        match self.types.get(ty) {
            Type::Var(v) => {
                match subst.get(v) {
                    Some(t) => {
                        let ghost j = find(subst@, v.0, 0)->0;
                        proof {
                            lemma_find(subst@, v.0, 0);
                            lemma_find_unique(subst@, v.0, j, k);
                        }
                        self.apply_from(t, subst, Ghost(j + 1))
                    },
                    None => {
                        proof {
                            lemma_find(subst@, v.0, 0);
                            lemma_find(subst@, v.0, k);
                        }
                        ty
                    },
                }
            },
            Type::Abs(p, b) => {
                let p2 = self.apply_from(p, subst, Ghost(k));
                let ghost ts1 = self.ts();
                proof {
                    lemma_subst_wf_frame(ts0, ts1, subst@, self.nvars(), self.nvars());
                    lemma_bound_frame(ts0, ts1, subst@, b.0 as int, k);
                    lemma_resolve_frame(ts0, ts1, subst@, b.0 as int, k);
                }
                let b2 = self.apply_from(b, subst, Ghost(k));
                let ghost ts2 = self.ts();
                proof {
                    lemma_tree_frame(ts1, ts2, p2.0 as int);
                    self.lemma_inv();
                }
                let r = self.types.allocate(Type::Abs(p2, b2));
                proof {
                    let ts3 = self.ts();
                    lemma_tree_frame(ts2, ts3, p2.0 as int);
                    lemma_tree_frame(ts2, ts3, b2.0 as int);
                    lemma_extends_trans(ts0, ts1, ts2);
                    lemma_extends_trans(ts0, ts2, ts3);
                    assert forall|i: int| 0 <= i < ts3.len() implies match #[trigger] ts3[i] {
                        Type::Abs(p, b) => p.0 < i && b.0 < i,
                        Type::Var(v) => v.0 < self.nvars(),
                        _ => true,
                    } by {
                        if i < ts2.len() {
                            assert(ts3[i] == ts2[i]);
                        }
                    }
                    assert(ts3[self.int_id().0 as int] == ts2[self.int_id().0 as int]);
                    assert(ts3[self.bool_id().0 as int] == ts2[self.bool_id().0 as int]);
                    assert(ts3[self.unit_id().0 as int] == ts2[self.unit_id().0 as int]);
                }
                r
            },
            _ => ty,
        }
    }

    /// `ty` with every bound variable replaced by what `subst` binds it to.
    fn apply(&mut self, ty: TypeId, subst: &Subst) -> (res: TypeId)
        requires
            old(self).inv(),
            subst_wf(old(self).ts(), subst@, old(self).nvars()),
            ty.0 < old(self).ts().len(),
        ensures
            final(self).inv(),
            final(self).same_program(old(self)),
            final(self).nvars() == old(self).nvars(),
            extends(old(self).ts(), final(self).ts()),
            res.0 < final(self).ts().len(),
            tree(final(self).ts(), res.0 as int) == resolve(old(self).ts(), subst@, ty.0 as int),
            free_of(tree(final(self).ts(), res.0 as int), subst@),
            unchanged_by(old(self).ts(), subst@, ty) ==> res == ty && final(self).ts() == old(self).ts(),
            resolve(final(self).ts(), subst@, res.0 as int) == tree(final(self).ts(), res.0 as int),
    {
        proof {
            self.lemma_inv();
            lemma_bound_from_zero(self.ts(), subst@, ty.0 as int, self.nvars());
            lemma_resolved_free(self.ts(), subst@, ty.0 as int, 0, self.nvars());
        }
        let res = self.apply_from(ty, subst, Ghost(0));
        proof {
            self.lemma_inv();
            lemma_resolve_free(self.ts(), subst@, res.0 as int, 0);
        }
        res
    }

    /// Whether `needle` occurs in `ty` under `subst`.
    fn occurs_in(&mut self, needle: TypeVar, ty: TypeId, subst: &Subst) -> (res: bool)
        requires
            old(self).inv(),
            subst_wf(old(self).ts(), subst@, old(self).nvars()),
            ty.0 < old(self).ts().len(),
        ensures
            final(self).inv(),
            final(self).same_program(old(self)),
            final(self).nvars() == old(self).nvars(),
            extends(old(self).ts(), final(self).ts()),
            res == occurs(resolve(old(self).ts(), subst@, ty.0 as int), needle.0),
        decreases size(resolve(old(self).ts(), subst@, ty.0 as int)),
    {
        let ghost ts0 = self.ts();
        let t = self.apply(ty, subst);
        let ghost ts1 = self.ts();
        proof {
            self.lemma_inv();
        }
        match self.types.get(t) {
            Type::Var(v) => v == needle,
            Type::Abs(p, b) => {
                proof {
                    lemma_subst_wf_frame(ts0, ts1, subst@, self.nvars(), self.nvars());
                    lemma_resolve_free(ts1, subst@, p.0 as int, 0);
                    lemma_resolve_free(ts1, subst@, b.0 as int, 0);
                }
                if self.occurs_in(needle, p, subst) {
                    proof {
                        lemma_extends_trans(ts0, ts1, self.ts());
                    }
                    true
                } else {
                    let ghost ts2 = self.ts();
                    proof {
                        lemma_subst_wf_frame(ts1, ts2, subst@, self.nvars(), self.nvars());
                        lemma_resolve_frame(ts1, ts2, subst@, b.0 as int, 0);
                    }
                    let r = self.occurs_in(needle, b, subst);
                    proof {
                        lemma_extends_trans(ts0, ts1, ts2);
                        lemma_extends_trans(ts0, ts2, self.ts());
                    }
                    r
                }
            },
            _ => false,
        }
    }

    /// Binds the free variable `var` to `ty` under `subst`, unless that would
    /// make an infinite type.
    fn bind(&mut self, var: TypeVar, ty: TypeId, subst: &mut Subst) -> (res: Result<(), TypeError>)
        requires
            old(self).inv(),
            subst_wf(old(self).ts(), old(subst)@, old(self).nvars()),
            ty.0 < old(self).ts().len(),
            var.0 < old(self).nvars(),
            !bound(old(subst)@, var.0),
        ensures
            final(self).inv(),
            final(self).same_program(old(self)),
            final(self).nvars() == old(self).nvars(),
            extends(old(self).ts(), final(self).ts()),
            subst_wf(final(self).ts(), final(subst)@, final(self).nvars()),
            ({
                let r = resolve(old(self).ts(), old(subst)@, ty.0 as int);
                if r == Ty::Var(var.0) {
                    res is Ok && final(subst)@ == old(subst)@
                } else if occurs(r, var.0) {
                    &&& res matches Err(TypeError::InfiniteType { var: v, ty: t })
                    &&& v == var
                    &&& t.0 < final(self).ts().len()
                    &&& tree(final(self).ts(), t.0 as int) == r
                    &&& final(subst)@ == old(subst)@
                } else {
                    &&& res is Ok
                    &&& final(subst)@.len() == old(subst)@.len() + 1
                    &&& is_prefix(old(subst)@, final(subst)@)
                    &&& final(subst)@.last().0 == var.0
                    &&& final(subst)@.last().1 < final(self).ts().len()
                    &&& tree(final(self).ts(), final(subst)@.last().1 as int) == r
                }
            }),
    {
        let ghost ts0 = self.ts();
        let t = self.apply(ty, subst);
        let ghost ts1 = self.ts();
        proof {
            self.lemma_inv();
            lemma_subst_wf_frame(ts0, ts1, subst@, self.nvars(), self.nvars());
            lemma_resolve_free(ts1, subst@, t.0 as int, 0);
        }
        if let Type::Var(found) = self.types.get(t) {
            if found == var {
                return Ok(());
            }
        }
        if self.occurs_in(var, t, subst) {
            proof {
                lemma_extends_trans(ts0, ts1, self.ts());
                lemma_tree_frame(ts1, self.ts(), t.0 as int);
                lemma_subst_wf_frame(ts0, self.ts(), subst@, self.nvars(), self.nvars());
            }
            return Err(TypeError::InfiniteType { var, ty: t });
        }
        let ghost ts2 = self.ts();
        let ghost s0 = subst@;
        proof {
            lemma_extends_trans(ts0, ts1, ts2);
            lemma_tree_frame(ts1, ts2, t.0 as int);
            lemma_subst_wf_frame(ts1, ts2, s0, self.nvars(), self.nvars());
            self.lemma_inv();
            lemma_subst_push_wf(ts2, s0, var.0, t.0, self.nvars());
        }
        subst.push(var, t);
        proof {
            assert(is_prefix(s0, subst@));
        }
        Ok(())
    }

    /// Extends `subst` so that `left` and `right` become the same type.
    #[verifier::rlimit(100)]
    #[verifier::spinoff_prover]
    fn unify(&mut self, left: TypeId, right: TypeId, subst: &mut Subst) -> (res: Result<(), TypeError>)
        requires
            old(self).inv(),
            subst_wf(old(self).ts(), old(subst)@, old(self).nvars()),
            left.0 < old(self).ts().len(),
            right.0 < old(self).ts().len(),
        ensures
            final(self).inv(),
            final(self).same_program(old(self)),
            final(self).nvars() == old(self).nvars(),
            extends(old(self).ts(), final(self).ts()),
            subst_wf(final(self).ts(), final(subst)@, final(self).nvars()),
            is_prefix(old(subst)@, final(subst)@),
            res is Ok ==> resolve(final(self).ts(), final(subst)@, left.0 as int) == resolve(
                final(self).ts(),
                final(subst)@,
                right.0 as int,
            ),
            res matches Err(TypeError::Mismatch { left: l, right: r }) ==> l.0 < final(self).ts().len()
                && r.0 < final(self).ts().len() && clash(
                tree(final(self).ts(), l.0 as int),
                tree(final(self).ts(), r.0 as int),
            ) && same_place(
                resolve(final(self).ts(), final(subst)@, left.0 as int),
                resolve(final(self).ts(), final(subst)@, right.0 as int),
                tree(final(self).ts(), l.0 as int),
                tree(final(self).ts(), r.0 as int),
            ),
            res matches Err(TypeError::InfiniteType { var: v, ty: t }) ==> t.0 < final(self).ts().len()
                && occurs(tree(final(self).ts(), t.0 as int), v.0) && tree(final(self).ts(), t.0 as int)
                != Ty::Var(v.0),
            same_base(old(self).ts(), left, right) ==> res is Ok && final(subst)@ == old(subst)@,
            resolve(old(self).ts(), old(subst)@, left.0 as int) == resolve(old(self).ts(), old(subst)@, right.0 as int)
                ==> res is Ok && final(subst)@ == old(subst)@,
            top_clash(resolve(old(self).ts(), old(subst)@, left.0 as int), resolve(old(self).ts(), old(subst)@, right.0 as int))
                ==> (res matches Err(TypeError::Mismatch { left: l, right: r }) && tree(final(self).ts(), l.0 as int)
                == resolve(old(self).ts(), old(subst)@, left.0 as int) && tree(final(self).ts(), r.0 as int) == resolve(
                old(self).ts(),
                old(subst)@,
                right.0 as int,
            )),
            base_clash(old(self).ts(), left, right) ==> res == Err::<(), TypeError>(
                TypeError::Mismatch { left, right },
            ) && final(self).ts() == old(self).ts(),
            unify_res(
                subst_trees(old(self).ts(), old(subst)@),
                seq![(tree(old(self).ts(), left.0 as int), tree(old(self).ts(), right.0 as int))],
            ) == Some(unify_outcome(final(self).ts(), final(subst)@, res)),
        decreases old(self).nvars() - old(subst)@.len(), size(
            resolve(old(self).ts(), old(subst)@, left.0 as int),
        ) + size(resolve(old(self).ts(), old(subst)@, right.0 as int)),
    {
        let ghost ts0 = self.ts();
        let ghost s0 = subst@;
        let l = self.apply(left, subst);
        let ghost ts1 = self.ts();
        proof {
            lemma_subst_wf_frame(ts0, ts1, s0, self.nvars(), self.nvars());
            lemma_resolve_frame(ts0, ts1, s0, right.0 as int, 0);
        }
        let r = self.apply(right, subst);
        let ghost ts2 = self.ts();
        proof {
            self.lemma_inv();
            lemma_extends_trans(ts0, ts1, ts2);
            lemma_subst_wf_frame(ts0, ts2, s0, self.nvars(), self.nvars());
            lemma_tree_frame(ts1, ts2, l.0 as int);
            lemma_resolve_frame(ts0, ts2, s0, left.0 as int, 0);
            lemma_resolve_frame(ts0, ts2, s0, right.0 as int, 0);
            lemma_resolve_free(ts2, s0, l.0 as int, 0);
            lemma_resolve_free(ts2, s0, r.0 as int, 0);
            // Now resolve(ts2, s0, left) == resolve(ts2, s0, l), and likewise on the right.
        }
        let ghost st0 = subst_trees(ts0, s0);
        let ghost eqs0 = seq![(tree(ts0, left.0 as int), tree(ts0, right.0 as int))];
        let ghost ta = tree(ts2, l.0 as int);
        let ghost tb = tree(ts2, r.0 as int);
        proof {
            lemma_resolve_trees(ts0, s0, left.0 as int, 0);
            lemma_resolve_trees(ts0, s0, right.0 as int, 0);
            lemma_resolve_frame(ts0, ts1, s0, left.0 as int, 0);
            assert(ta == resolve_t(st0, eqs0[0].0, 0));
            assert(tb == resolve_t(st0, eqs0[0].1, 0));
            lemma_subst_trees_frame(ts0, ts2, s0);
            assert(eqs0.subrange(1, 1) =~= Seq::<(Ty, Ty)>::empty());
        }
        match (self.types.get(l), self.types.get(r)) {
            (Type::Unit, Type::Unit) | (Type::Int, Type::Int) | (Type::Bool, Type::Bool) => {
                proof {
                    assert(unify_t(st0, eqs0.subrange(1, 1), 0) == Some(Ok::<TreeSubst, TyError>(st0)));
                    assert(unify_t(st0, eqs0, 1) == Some(Ok::<TreeSubst, TyError>(st0)));
                    lemma_unify_res(st0, eqs0, 1);
                }
                Ok(())
            },
            (Type::Var(a), Type::Var(b)) if a == b => {
                proof {
                    assert(unify_t(st0, eqs0.subrange(1, 1), 0) == Some(Ok::<TreeSubst, TyError>(st0)));
                    assert(unify_t(st0, eqs0, 1) == Some(Ok::<TreeSubst, TyError>(st0)));
                    lemma_unify_res(st0, eqs0, 1);
                }
                Ok(())
            },
            (Type::Var(v), _) => {
                proof {
                    lemma_find(s0, v.0, 0);
                }
                let res = self.bind(v, right, subst);
                proof {
                    self.unify_bind_law(ts0, ts2, s0, subst@, v, left, right, l);
                    self.lemma_unify_bind_model(ts0, ts2, s0, subst@, v, tb, st0, eqs0, res);
                    assert(ta == Ty::Var(v.0));
                    if !occurs(tb, v.0) {
                        assert(unify_t(st0, eqs0, 1) == unify_t(st0.push((v.0, tb)), eqs0.subrange(1, 1), 0));
                    }
                    lemma_unify_res(st0, eqs0, 1);
                }
                res
            },
            (_, Type::Var(v)) => {
                proof {
                    lemma_find(s0, v.0, 0);
                }
                let res = self.bind(v, left, subst);
                proof {
                    self.unify_bind_law(ts0, ts2, s0, subst@, v, right, left, r);
                    self.lemma_unify_bind_model(ts0, ts2, s0, subst@, v, ta, st0, eqs0, res);
                    assert(tb == Ty::Var(v.0));
                    assert(!(ta is Var));
                    if !occurs(ta, v.0) {
                        assert(unify_t(st0, eqs0, 1) == unify_t(st0.push((v.0, ta)), eqs0.subrange(1, 1), 0));
                    }
                    lemma_unify_res(st0, eqs0, 1);
                }
                res
            },
            (Type::Abs(pa, ba), Type::Abs(pb, bb)) => {
                proof {
                    lemma_resolve_free(ts2, s0, pa.0 as int, 0);
                    lemma_resolve_free(ts2, s0, pb.0 as int, 0);
                    lemma_subst_len(s0, self.nvars());
                }
                match self.unify(pa, pb, subst) {
                    Err(e) => {
                        proof {
                            lemma_extends_trans(ts0, ts2, self.ts());
                            if e is Mismatch {
                                let tsf = self.ts();
                                let sf = subst@;
                                self.lemma_inv();
                                lemma_subst_wf_frame(ts0, ts2, s0, self.nvars(), self.nvars());
                                lemma_resolve_frame(ts2, tsf, s0, left.0 as int, 0);
                                lemma_resolve_frame(ts2, tsf, s0, right.0 as int, 0);
                                lemma_resolve_frame(ts2, tsf, s0, l.0 as int, 0);
                                lemma_resolve_frame(ts2, tsf, s0, r.0 as int, 0);
                                lemma_extend_keeps(tsf, s0, sf, left.0 as int, l.0 as int, self.nvars());
                                lemma_extend_keeps(tsf, s0, sf, right.0 as int, r.0 as int, self.nvars());
                                assert(tsf[l.0 as int] == ts2[l.0 as int]);
                                assert(tsf[r.0 as int] == ts2[r.0 as int]);
                            }
                            let eq1 = seq![(tree(ts2, pa.0 as int), tree(ts2, pb.0 as int))];
                            let eq2 = seq![(tree(ts2, ba.0 as int), tree(ts2, bb.0 as int))];
                            let f1 = lemma_unify_witness(st0, eq1);
                            lemma_unify_append(st0, eq1, eq2, f1, 0);
                            Self::lemma_unify_arrow_model(st0, eqs0, ta, tb, eq1, eq2, f1);
                            lemma_unify_res(st0, eqs0, f1 + 1);
                        }
                        return Err(e);
                    },
                    Ok(()) => {},
                }
                let ghost ts3 = self.ts();
                let ghost s1 = subst@;
                proof {
                    lemma_subst_len(s1, self.nvars());
                    lemma_resolve_frame(ts2, ts3, s0, ba.0 as int, 0);
                    lemma_resolve_frame(ts2, ts3, s0, bb.0 as int, 0);
                    if s1.len() == s0.len() {
                        assert(s1 =~= s0);
                    }
                }
                let res = self.unify(ba, bb, subst);
                proof {
                    let ts4 = self.ts();
                    let s2 = subst@;
                    let eq1 = seq![(tree(ts2, pa.0 as int), tree(ts2, pb.0 as int))];
                    let eq2 = seq![(tree(ts2, ba.0 as int), tree(ts2, bb.0 as int))];
                    lemma_tree_frame(ts2, ts3, ba.0 as int);
                    lemma_tree_frame(ts2, ts3, bb.0 as int);
                    let st1 = subst_trees(ts3, s1);
                    let f1 = lemma_unify_witness(st0, eq1);
                    let f2 = lemma_unify_witness(st1, eq2);
                    lemma_unify_append(st0, eq1, eq2, f1, f2);
                    Self::lemma_unify_arrow_model(st0, eqs0, ta, tb, eq1, eq2, f1 + f2);
                    lemma_unify_res(st0, eqs0, f1 + f2 + 1);
                    lemma_extends_trans(ts0, ts2, ts3);
                    lemma_extends_trans(ts0, ts3, ts4);
                    lemma_prefix_trans(s0, s1, s2);
                    if res matches Err(TypeError::Mismatch { .. }) {
                        self.lemma_inv();
                        lemma_resolve_frame(ts2, ts4, s0, left.0 as int, 0);
                        lemma_resolve_frame(ts2, ts4, s0, right.0 as int, 0);
                        lemma_resolve_frame(ts2, ts4, s0, l.0 as int, 0);
                        lemma_resolve_frame(ts2, ts4, s0, r.0 as int, 0);
                        lemma_extend_keeps(ts4, s0, s2, left.0 as int, l.0 as int, self.nvars());
                        lemma_extend_keeps(ts4, s0, s2, right.0 as int, r.0 as int, self.nvars());
                        assert(ts4[l.0 as int] == ts2[l.0 as int]);
                        assert(ts4[r.0 as int] == ts2[r.0 as int]);
                    }
                    if res is Ok {
                        self.lemma_inv();
                        lemma_resolve_frame(ts3, ts4, s1, pa.0 as int, 0);
                        lemma_resolve_frame(ts3, ts4, s1, pb.0 as int, 0);
                        lemma_extend_keeps(ts4, s1, s2, pa.0 as int, pb.0 as int, self.nvars());
                        lemma_resolve_frame(ts2, ts4, s0, left.0 as int, 0);
                        lemma_resolve_frame(ts2, ts4, s0, right.0 as int, 0);
                        lemma_resolve_frame(ts2, ts4, s0, l.0 as int, 0);
                        lemma_resolve_frame(ts2, ts4, s0, r.0 as int, 0);
                        lemma_extend_keeps(ts4, s0, s2, left.0 as int, l.0 as int, self.nvars());
                        lemma_extend_keeps(ts4, s0, s2, right.0 as int, r.0 as int, self.nvars());
                        assert(ts4[l.0 as int] == ts2[l.0 as int]);
                        assert(ts4[r.0 as int] == ts2[r.0 as int]);
                    }
                }
                res
            },
            _ => {
                proof {
                    lemma_subst_wf_frame(ts0, ts2, s0, self.nvars(), self.nvars());
                    assert(!(ta is Var) && !(tb is Var));
                    assert(unify_t(st0, eqs0, 1) == Some(Err::<TreeSubst, TyError>(TyError::Mismatch(ta, tb))));
                    lemma_unify_res(st0, eqs0, 1);
                }
                Err(TypeError::Mismatch { left: l, right: r })
            },
        }
    }

    /// The tree model's reading of a binding step of `unify`.
    proof fn lemma_unify_bind_model(
        &self,
        ts0: Seq<Type>,
        ts2: Seq<Type>,
        s0: Seq<(usize, usize)>,
        s1: Seq<(usize, usize)>,
        v: TypeVar,
        other: Ty,
        st0: TreeSubst,
        eqs0: Seq<(Ty, Ty)>,
        res: Result<(), TypeError>,
    )
        requires
            extends(ts0, ts2),
            extends(ts2, self.ts()),
            forall|j: int| 0 <= j < s0.len() ==> (#[trigger] s0[j]).1 < ts0.len(),
            st0 == subst_trees(ts0, s0),
            other != Ty::Var(v.0),
            ({
                if occurs(other, v.0) {
                    &&& res matches Err(TypeError::InfiniteType { var: w, ty: t })
                    &&& w == v
                    &&& t.0 < self.ts().len()
                    &&& tree(self.ts(), t.0 as int) == other
                    &&& s1 == s0
                } else {
                    &&& res is Ok
                    &&& s1.len() == s0.len() + 1
                    &&& is_prefix(s0, s1)
                    &&& s1.last().0 == v.0
                    &&& s1.last().1 < self.ts().len()
                    &&& tree(self.ts(), s1.last().1 as int) == other
                }
            }),
        ensures
            occurs(other, v.0) ==> unify_outcome(self.ts(), s1, res) == Err::<TreeSubst, TyError>(TyError::Infinite(v.0, other)),
            !occurs(other, v.0) ==> unify_outcome(self.ts(), s1, res) == Ok::<TreeSubst, TyError>(st0.push((v.0, other))),
    {
        let ts = self.ts();
        lemma_extends_trans(ts0, ts2, ts);
        lemma_subst_trees_frame(ts0, ts, s0);
        if !occurs(other, v.0) {
            assert forall|j: int| 0 <= j < s0.len() implies #[trigger] s1[j] == s0[j] by {}
            assert(subst_trees(ts, s1) =~= subst_trees(ts, s0).push((v.0, other)));
        }
    }

    /// One step of the tree model on two function types: the pairs of their
    /// parameters and of their results come next.
    proof fn lemma_unify_arrow_model(
        st0: TreeSubst,
        eqs0: Seq<(Ty, Ty)>,
        ta: Ty,
        tb: Ty,
        eq1: Seq<(Ty, Ty)>,
        eq2: Seq<(Ty, Ty)>,
        f: nat,
    )
        requires
            eqs0.len() == 1,
            ta == resolve_t(st0, eqs0[0].0, 0),
            tb == resolve_t(st0, eqs0[0].1, 0),
            eq1.len() == 1,
            eq2.len() == 1,
            ta == Ty::Arrow(Box::new(eq1[0].0), Box::new(eq2[0].0)),
            tb == Ty::Arrow(Box::new(eq1[0].1), Box::new(eq2[0].1)),
        ensures
            unify_t(st0, eqs0, f + 1) == unify_t(st0, eq1 + eq2, f),
    {
        assert(seq![(eq1[0].0, eq1[0].1), (eq2[0].0, eq2[0].1)] + eqs0.subrange(1, 1) =~= eq1 + eq2);
    }

    /// What `unify` gets from `bind`: after binding the variable that `var_side`
    /// resolves to, both sides resolve alike.
    proof fn unify_bind_law(
        &self,
        ts0: Seq<Type>,
        ts2: Seq<Type>,
        s0: Seq<(usize, usize)>,
        s1: Seq<(usize, usize)>,
        v: TypeVar,
        var_side: TypeId,
        other: TypeId,
        applied: TypeId,
    )
        requires
            self.inv(),
            extends(ts0, ts2),
            extends(ts2, self.ts()),
            subst_wf(ts2, s0, self.nvars()),
            subst_wf(self.ts(), s1, self.nvars()),
            var_side.0 < ts0.len(),
            other.0 < ts0.len(),
            applied.0 < ts2.len(),
            resolve(ts2, s0, var_side.0 as int) == tree(ts2, applied.0 as int),
            tree(ts2, applied.0 as int) == Ty::Var(v.0),
            resolve(ts2, s0, other.0 as int) != Ty::Var(v.0),
            !bound(s0, v.0),
            free_of(resolve(ts2, s0, other.0 as int), s0),
            ({
                let r = resolve(ts2, s0, other.0 as int);
                if occurs(r, v.0) {
                    s1 == s0
                } else {
                    &&& s1.len() == s0.len() + 1
                    &&& is_prefix(s0, s1)
                    &&& s1.last().0 == v.0
                    &&& s1.last().1 < self.ts().len()
                    &&& tree(self.ts(), s1.last().1 as int) == r
                }
            }),
        ensures
            is_prefix(s0, s1),
            !occurs(resolve(ts2, s0, other.0 as int), v.0) ==> resolve(self.ts(), s1, var_side.0 as int)
                == resolve(self.ts(), s1, other.0 as int),
    {
        let ts = self.ts();
        self.lemma_inv();
        let r = resolve(ts2, s0, other.0 as int);
        if !occurs(r, v.0) {
            assert(s1 =~= s0.push((v.0, s1.last().1)));
            let u = s1.last().1;
            lemma_subst_wf_frame(ts2, ts, s0, self.nvars(), self.nvars());
            lemma_resolve_frame(ts2, ts, s0, var_side.0 as int, 0);
            lemma_resolve_frame(ts2, ts, s0, other.0 as int, 0);
            lemma_resolve_push(ts, s0, v.0, u, var_side.0 as int, 0);
            lemma_resolve_push(ts, s0, v.0, u, other.0 as int, 0);
            lemma_replace_absent(r, v.0, r);
        }
    }

    /// Whether every variable of `ty` that `subst` binds is bound at `k` or later.
    fn bound_after(&self, ty: TypeId, subst: &Subst, k: usize) -> (res: bool)
        requires
            self.inv(),
            ty.0 < self.ts().len(),
        ensures
            res == bound_from(self.ts(), subst@, ty.0 as int, k as int),
        decreases ty.0,
    {
        proof {
            self.lemma_inv();
        }
        match self.types.get(ty) {
            Type::Var(v) => {
                proof {
                    lemma_find(subst@, v.0, 0);
                }
                match subst.position(v) {
                    Some(j) => {
                        assert(find(subst@, v.0, 0) == Some(j as int));
                        j >= k
                    },
                    None => true,
                }
            },
            Type::Abs(p, b) => {
                assert(p.0 < ty.0 && b.0 < ty.0);
                let bp = self.bound_after(p, subst, k);
                let bb = self.bound_after(b, subst, k);
                bp && bb
            },
            _ => true,
        }
    }

    /// Whether `subst` is triangular.
    fn is_triangular(&self, subst: &Subst) -> (res: bool)
        requires
            self.inv(),
            forall|j: int| 0 <= j < subst@.len() ==> (#[trigger] subst@[j]).1 < self.ts().len(),
        ensures
            res == triangular(self.ts(), subst@),
    {
        let mut j: usize = 0;
        while j < subst.len()
            invariant
                self.inv(),
                j <= subst@.len(),
                forall|i: int| 0 <= i < subst@.len() ==> (#[trigger] subst@[i]).1 < self.ts().len(),
                forall|i: int| 0 <= i < j ==> bound_from(self.ts(), subst@, (#[trigger] subst@[i]).1 as int, i + 1),
            decreases subst@.len() - j,
        {
            let (_, t) = subst.entry(j);
            if !self.bound_after(t, subst, j + 1) {
                return false;
            }
            j = j + 1;
        }
        true
    }

    /// `newer` after `older`: one substitution that does what applying `older`
    /// and then `newer` does.
    fn compose(&mut self, newer: &Subst, older: &Subst) -> (res: Result<Subst, TypeError>)
        requires
            old(self).inv(),
            subst_wf(old(self).ts(), newer@, old(self).nvars()),
            subst_wf(old(self).ts(), older@, old(self).nvars()),
        ensures
            final(self).inv(),
            final(self).same_program(old(self)),
            final(self).nvars() == old(self).nvars(),
            extends(old(self).ts(), final(self).ts()),
            res matches Ok(c) ==> subst_wf(final(self).ts(), c@, final(self).nvars()) && composed(
                old(self).ts(),
                final(self).ts(),
                newer@,
                older@,
                c@,
            ),
            newer@.len() == 0 && older@.len() == 0 ==> (res matches Ok(c) && c@.len() == 0),
            match compose_t(subst_trees(old(self).ts(), newer@), subst_trees(old(self).ts(), older@)) {
                Ok(c) => res matches Ok(cs) && subst_trees(final(self).ts(), cs@) == c,
                Err(e) => res matches Err(err) && err_tree(final(self).ts(), err) == e,
            },
            res is Err ==> (res matches Err(TypeError::Cyclic)) && exists|c: Seq<(usize, usize)>|
                composed(old(self).ts(), final(self).ts(), newer@, older@, c) && !triangular(
                    final(self).ts(),
                    c,
                ),
    {
        let ghost ts0 = self.ts();
        let ghost n = self.nvars();
        let ghost nw = newer@;
        let ghost od = older@;
        let ghost nn = nw.len() as int;
        let ghost nt = subst_trees(ts0, nw);
        let ghost ot = subst_trees(ts0, od);
        let mut c = Subst::new();
        let mut i: usize = 0;
        while i < newer.len()
            invariant
                i <= nw.len(),
                newer@ == nw,
                c@ == nw.take(i as int),
            decreases nw.len() - i,
        {
            let (x, t) = newer.entry(i);
            c.push(x, t);
            i = i + 1;
            proof {
                assert(c@ =~= nw.take(i as int));
            }
        }
        proof {
            assert(nw.take(nn) =~= nw);
            assert(ot.take(0) =~= Seq::<(usize, Ty)>::empty());
            assert(subst_trees(ts0, c@) =~= nt + compose_tail(nt, ot.take(0)));
        }
        let ghost mut src: Seq<int> = Seq::empty();
        let mut i: usize = 0;
        while i < older.len()
            invariant
                self.inv(),
                self.same_program(old(self)),
                self.nvars() == n,
                extends(ts0, self.ts()),
                subst_wf(ts0, nw, n),
                subst_wf(ts0, od, n),
                newer@ == nw,
                older@ == od,
                i <= od.len(),
                nn == nw.len(),
                c@.len() == nn + src.len(),
                nt == subst_trees(ts0, nw),
                ot == subst_trees(ts0, od),
                forall|j: int| 0 <= j < c@.len() ==> (#[trigger] c@[j]).1 < self.ts().len(),
                subst_trees(self.ts(), c@) == nt + compose_tail(nt, ot.take(i as int)),
                is_prefix(nw, c@),
                forall|a: int, b: int| 0 <= a < b < src.len() ==> src[a] < src[b],
                forall|m: int|
                    0 <= m < src.len() ==> {
                        &&& 0 <= #[trigger] src[m] < i
                        &&& c@[nn + m].0 == od[src[m]].0
                        &&& !bound(nw, od[src[m]].0)
                        &&& c@[nn + m].1 < self.ts().len()
                        &&& tree(self.ts(), c@[nn + m].1 as int) == resolve(ts0, nw, od[src[m]].1 as int)
                    },
                forall|k: int| 0 <= k < i && !bound(nw, (#[trigger] od[k]).0) ==> exists|m: int| 0 <= m < src.len() && src[m] == k,
            decreases od.len() - i,
        {
            let (x, t) = older.entry(i);
            let ghost tk = ot.take(i as int + 1);
            proof {
                assert(tk.drop_last() =~= ot.take(i as int));
                assert(tk.last() == (x.0, tree(ts0, t.0 as int)));
                lemma_find_keys(nw, crate::solve::skeys(nt), x.0, 0);
            }
            match newer.get(x) {
                Some(_) => {
                    proof {
                        assert(bound(nw, od[i as int].0));
                        assert(compose_tail(nt, tk) == compose_tail(nt, ot.take(i as int)));
                    }
                },
                None => {
                    let ghost ts1 = self.ts();
                    proof {
                        lemma_subst_wf_frame(ts0, ts1, nw, n, n);
                        lemma_resolve_frame(ts0, ts1, nw, t.0 as int, 0);
                    }
                    let u = self.apply(t, newer);
                    let ghost ts2 = self.ts();
                    let ghost c0 = c@;
                    c.push(x, u);
                    proof {
                        lemma_resolve_trees(ts0, nw, t.0 as int, 0);
                        assert(compose_tail(nt, tk) == compose_tail(nt, ot.take(i as int)).push((x.0, resolve_t(nt, tree(ts0, t.0 as int), 0))));
                        lemma_extends_trans(ts0, ts1, ts2);
                        assert forall|j: int| 0 <= j < c0.len() implies #[trigger] subst_trees(ts2, c@)[j] == subst_trees(ts1, c0)[j] by {
                            lemma_tree_frame(ts1, ts2, c0[j].1 as int);
                        }
                        assert(subst_trees(ts2, c@) =~= subst_trees(ts1, c0).push((x.0, tree(ts2, u.0 as int))));
                        lemma_extends_trans(ts0, ts1, ts2);
                        assert(c@ == c0.push((x.0, u.0)));
                        assert(c0.len() == nn + src.len());
                        let m0 = src.len() as int;
                        let src0 = src;
                        src = src.push(i as int);
                        assert forall|m: int| 0 <= m < src.len() implies {
                            &&& 0 <= #[trigger] src[m] < i + 1
                            &&& c@[nn + m].0 == od[src[m]].0
                            &&& !bound(nw, od[src[m]].0)
                            &&& c@[nn + m].1 < self.ts().len()
                            &&& tree(self.ts(), c@[nn + m].1 as int) == resolve(ts0, nw, od[src[m]].1 as int)
                        } by {
                            if m < m0 {
                                assert(src[m] == src0[m]);

                                assert(c@[nn + m] == c0[nn + m]);
                                lemma_tree_frame(ts1, ts2, c0[nn + m].1 as int);
                            }
                        }
                        assert forall|k: int| 0 <= k < i + 1 && !bound(nw, (#[trigger] od[k]).0) implies exists|m: int| 0 <= m < src.len() && src[m] == k by {
                            if k < i {
                                let m1 = choose|m: int| 0 <= m < src0.len() && src0[m] == k;
                                assert(src[m1] == k);
                            } else {
                                assert(src[m0] == k);
                            }
                        }
                        assert forall|a: int| 0 <= a < nw.len() implies #[trigger] c@[a] == nw[a] by {
                            assert(c0[a] == nw[a]);
                        }
                    }
                },
            }
            i = i + 1;
        }
        proof {
            self.compose_law(ts0, nw, od, c@, src, n, nn);
            if nw.len() == 0 && od.len() == 0 && c@.len() > 0 {
                assert(find(od, c@[0].0, 0) is None);
                assert(false);
            }
        }
        proof {
            assert(ot.take(od.len() as int) =~= ot);
            self.lemma_inv();
            let ct = subst_trees(self.ts(), c@);
            assert forall|j: int| 0 <= j < c@.len() implies bound_from(self.ts(), c@, (#[trigger] c@[j]).1 as int, j + 1)
                == crate::solve::bound_from_t(ct, ct[j].1, j + 1) by {
                lemma_bound_from_trees(self.ts(), c@, c@[j].1 as int, j + 1);
            }
            assert(triangular(self.ts(), c@) == crate::solve::triangular_t(ct));
        }
        if self.is_triangular(&c) {
            Ok(c)
        } else {
            Err(TypeError::Cyclic)
        }
    }

    /// What the loops of `compose` built is the composition.
    proof fn compose_law(
        &self,
        ts0: Seq<Type>,
        nw: Seq<(usize, usize)>,
        od: Seq<(usize, usize)>,
        c: Seq<(usize, usize)>,
        src: Seq<int>,
        n: int,
        nn: int,
    )
        requires
            self.inv(),
            self.nvars() == n,
            nn == nw.len(),
            extends(ts0, self.ts()),
            subst_wf(ts0, nw, n),
            subst_wf(ts0, od, n),
            c.len() == nn + src.len(),
            is_prefix(nw, c),
            forall|a: int, b: int| 0 <= a < b < src.len() ==> src[a] < src[b],
            forall|m: int|
                0 <= m < src.len() ==> {
                    &&& 0 <= #[trigger] src[m] < od.len()
                    &&& c[nn + m].0 == od[src[m]].0
                    &&& !bound(nw, od[src[m]].0)
                    &&& c[nn + m].1 < self.ts().len()
                    &&& tree(self.ts(), c[nn + m].1 as int) == resolve(ts0, nw, od[src[m]].1 as int)
                },
            forall|k: int| 0 <= k < od.len() && !bound(nw, (#[trigger] od[k]).0) ==> exists|m: int| 0 <= m < src.len() && src[m] == k,
        ensures
            composed(ts0, self.ts(), nw, od, c),
            forall|j: int| 0 <= j < c.len() ==> (#[trigger] c[j]).1 < self.ts().len(),
            triangular(self.ts(), c) ==> subst_wf(self.ts(), c, n),
    {
        let ts = self.ts();
        assert forall|a: int, b: int| 0 <= a < b < c.len() implies c[a].0 != c[b].0 by {
            if b < nn {
                assert(c[a] == nw[a] && c[b] == nw[b]);
            } else if a < nn {
                let k = src[b - nn];
                assert(c[b].0 == od[k].0);
                assert(!bound(nw, od[k].0));
                lemma_find(nw, od[k].0, 0);
                assert(c[a] == nw[a]);
            } else {
                let ka = src[a - nn];
                let kb = src[b - nn];
                assert(ka < kb);
                assert(c[a].0 == od[ka].0);
                assert(c[b].0 == od[kb].0);
                assert(0 <= ka && kb < od.len());
            }
        }
        assert forall|v: usize| bound(c, v) implies (bound(nw, v) || bound(od, v)) by {
            lemma_find(c, v, 0);
            lemma_find(nw, v, 0);
            lemma_find(od, v, 0);
            let p = find(c, v, 0)->0;
            if p < nn {
                assert(c[p] == nw[p]);
            } else {
                let m = p - nn;
                assert(0 <= src[m] < od.len());
                assert(od[src[m]].0 == v);
            }
        }
        assert forall|v: usize| (bound(nw, v) || bound(od, v)) implies bound(c, v) by {
            lemma_find(c, v, 0);
            lemma_find(nw, v, 0);
            lemma_find(od, v, 0);
            if bound(nw, v) {
                let p = find(nw, v, 0)->0;
                assert(c[p] == nw[p]);
            } else {
                let p = find(od, v, 0)->0;
                assert(!bound(nw, od[p].0));
                let m = choose|m: int| 0 <= m < src.len() && src[m] == p;
                assert(c[nn + m].0 == v);
            }
        }
        assert forall|m: int| nn <= m < c.len() implies {
            &&& (#[trigger] c[m]).1 < ts.len()
            &&& !bound(nw, c[m].0)
            &&& find(od, c[m].0, 0) is Some
            &&& tree(ts, c[m].1 as int) == resolve(ts0, nw, od[find(od, c[m].0, 0)->0].1 as int)
        } by {
            let k = src[m - nn];
            lemma_find_unique(od, od[k].0, k, 0);
        }
        assert forall|j: int| 0 <= j < c.len() implies (#[trigger] c[j]).1 < ts.len() by {
            if j < nn {
                assert(c[j] == nw[j]);
            } else {
                assert(src[j - nn] == src[j - nn]);
            }
        }
        assert forall|j: int| 0 <= j < c.len() implies (#[trigger] c[j]).0 < n by {
            if j < nn {
                assert(c[j] == nw[j]);
            } else {
                let k = src[j - nn];
                assert(0 <= k < od.len());
                assert(od[k].0 < n);
            }
        }
    }

    /// `ty` under `subst`, from position `k` on, leaving the variables of
    /// `except` alone.
    fn apply_except_from(
        &mut self,
        ty: TypeId,
        subst: &Subst,
        except: &Vec<TypeVar>,
        Ghost(k): Ghost<int>,
    ) -> (res: TypeId)
        requires
            old(self).inv(),
            subst_wf(old(self).ts(), subst@, old(self).nvars()),
            0 <= k <= subst@.len(),
            ty.0 < old(self).ts().len(),
            bound_from(old(self).ts(), subst@, ty.0 as int, k),
        ensures
            final(self).inv(),
            final(self).same_program(old(self)),
            final(self).nvars() == old(self).nvars(),
            extends(old(self).ts(), final(self).ts()),
            res.0 < final(self).ts().len(),
            tree(final(self).ts(), res.0 as int) == resolve_except(
                old(self).ts(),
                subst@,
                except@,
                ty.0 as int,
                k,
            ),
        decreases subst@.len() - k, ty.0,
    {
        let ghost ts0 = self.ts();
        proof {
            self.lemma_inv();
        }
        match self.types.get(ty) {
            Type::Var(v) => {
                if has_var(except, v) {
                    return ty;
                }
                match subst.get(v) {
                    Some(t) => {
                        let ghost j = find(subst@, v.0, 0)->0;
                        proof {
                            lemma_find(subst@, v.0, 0);
                            lemma_find_unique(subst@, v.0, j, k);
                        }
                        self.apply_except_from(t, subst, except, Ghost(j + 1))
                    },
                    None => {
                        proof {
                            lemma_find(subst@, v.0, 0);
                            lemma_find(subst@, v.0, k);
                        }
                        ty
                    },
                }
            },
            Type::Abs(p, b) => {
                let p2 = self.apply_except_from(p, subst, except, Ghost(k));
                let ghost ts1 = self.ts();
                proof {
                    lemma_subst_wf_frame(ts0, ts1, subst@, self.nvars(), self.nvars());
                    lemma_bound_frame(ts0, ts1, subst@, b.0 as int, k);
                    lemma_resolve_except_frame(ts0, ts1, subst@, except@, b.0 as int, k);
                }
                let b2 = self.apply_except_from(b, subst, except, Ghost(k));
                let ghost ts2 = self.ts();
                proof {
                    lemma_tree_frame(ts1, ts2, p2.0 as int);
                    self.lemma_inv();
                }
                let r = self.types.allocate(Type::Abs(p2, b2));
                proof {
                    let ts3 = self.ts();
                    lemma_tree_frame(ts2, ts3, p2.0 as int);
                    lemma_tree_frame(ts2, ts3, b2.0 as int);
                    lemma_extends_trans(ts0, ts1, ts2);
                    lemma_extends_trans(ts0, ts2, ts3);
                    assert forall|i: int| 0 <= i < ts3.len() implies match #[trigger] ts3[i] {
                        Type::Abs(p, b) => p.0 < i && b.0 < i,
                        Type::Var(v) => v.0 < self.nvars(),
                        _ => true,
                    } by {
                        if i < ts2.len() {
                            assert(ts3[i] == ts2[i]);
                        }
                    }
                    assert(ts3[self.int_id().0 as int] == ts2[self.int_id().0 as int]);
                    assert(ts3[self.bool_id().0 as int] == ts2[self.bool_id().0 as int]);
                    assert(ts3[self.unit_id().0 as int] == ts2[self.unit_id().0 as int]);
                }
                r
            },
            _ => ty,
        }
    }

    /// `scheme` under `subst`, its quantified variables left alone.
    fn apply_scheme(&mut self, scheme: &Scheme, subst: &Subst) -> (res: Scheme)
        requires
            old(self).inv(),
            subst_wf(old(self).ts(), subst@, old(self).nvars()),
            scheme.ty.0 < old(self).ts().len(),
        ensures
            final(self).inv(),
            final(self).same_program(old(self)),
            final(self).nvars() == old(self).nvars(),
            extends(old(self).ts(), final(self).ts()),
            res.vars@ == scheme.vars@,
            res.ty.0 < final(self).ts().len(),
            tree(final(self).ts(), res.ty.0 as int) == resolve_except(
                old(self).ts(),
                subst@,
                scheme.vars@,
                scheme.ty.0 as int,
                0,
            ),
    {
        proof {
            self.lemma_inv();
            lemma_bound_from_zero(self.ts(), subst@, scheme.ty.0 as int, self.nvars());
        }
        let ty = self.apply_except_from(scheme.ty, subst, &scheme.vars, Ghost(0));
        Scheme { vars: copy_vars(&scheme.vars), ty }
    }

    /// Every scheme of `env` under `subst`.
    fn apply_env(&mut self, env: &Env, subst: &Subst) -> (res: Env)
        requires
            old(self).inv(),
            subst_wf(old(self).ts(), subst@, old(self).nvars()),
            env_wf(old(self).ts(), env@, old(self).nvars()),
        ensures
            final(self).inv(),
            final(self).same_program(old(self)),
            final(self).nvars() == old(self).nvars(),
            extends(old(self).ts(), final(self).ts()),
            env_wf(final(self).ts(), res@, final(self).nvars()),
            res@.len() == env@.len(),
            scheme_trees(final(self).ts(), res@) == applied_env(old(self).ts(), subst@, env@),
    {
        let ghost ts0 = self.ts();
        let mut out: Env = Vec::new();
        let mut i: usize = 0;
        while i < env.len()
            invariant
                self.inv(),
                self.same_program(old(self)),
                self.nvars() == old(self).nvars(),
                extends(ts0, self.ts()),
                ts0 == old(self).ts(),
                subst_wf(ts0, subst@, self.nvars()),
                env_wf(ts0, env@, self.nvars()),
                i <= env@.len(),
                out@.len() == i,
                env_wf(self.ts(), out@, self.nvars()),
                forall|m: int| 0 <= m < i ==> (#[trigger] out@[m]).vars@ == env@[m].vars@ && tree(
                    self.ts(),
                    out@[m].ty.0 as int,
                ) == resolve_except(ts0, subst@, env@[m].vars@, env@[m].ty.0 as int, 0),
            decreases env@.len() - i,
        {
            let ghost ts1 = self.ts();
            proof {
                lemma_subst_wf_frame(ts0, ts1, subst@, self.nvars(), self.nvars());
                assert(scheme_wf(ts0, env@[i as int], self.nvars()));
                lemma_resolve_except_frame(ts0, ts1, subst@, env@[i as int].vars@, env@[i as int].ty.0 as int, 0);
            }
            let sc = self.apply_scheme(&env[i], subst);
            let ghost ts2 = self.ts();
            let ghost out0 = out@;
            out.push(sc);
            proof {
                lemma_extends_trans(ts0, ts1, ts2);
                assert forall|m: int| 0 <= m < i + 1 implies (#[trigger] out@[m]).vars@ == env@[m].vars@ && tree(
                    ts2,
                    out@[m].ty.0 as int,
                ) == resolve_except(ts0, subst@, env@[m].vars@, env@[m].ty.0 as int, 0) by {
                    if m < i {
                        assert(out@[m] == out0[m]);
                        lemma_tree_frame(ts1, ts2, out0[m].ty.0 as int);
                    }
                }
                assert forall|m: int| 0 <= m < out@.len() implies scheme_wf(ts2, #[trigger] out@[m], self.nvars()) by {
                    if m < i {
                        assert(out@[m] == out0[m]);
                        assert(scheme_wf(ts1, out0[m], self.nvars()));
                    } else {
                        assert(scheme_wf(ts0, env@[m], self.nvars()));
                    }
                }
            }
            i = i + 1;
        }
        proof {
            assert(scheme_trees(self.ts(), out@) =~= applied_env(ts0, subst@, env@));
        }
        out
    }

    /// Appends the variables of `ty` that `acc` does not hold, in order.
    fn free_type_vars(&self, ty: TypeId, acc: &mut Vec<TypeVar>)
        requires
            self.inv(),
            ty.0 < self.ts().len(),
        ensures
            final(acc)@ == add_tvars(old(acc)@, tree(self.ts(), ty.0 as int)),
        decreases ty.0,
    {
        proof {
            self.lemma_inv();
        }
        match self.types.get(ty) {
            Type::Var(var) => {
                if !has_var(acc, var) {
                    acc.push(var);
                }
            },
            Type::Abs(param, body) => {
                self.free_type_vars(param, acc);
                self.free_type_vars(body, acc);
            },
            _ => {},
        }
    }

    /// Appends the free variables of `scheme` that `acc` does not hold, in order.
    fn free_scheme_vars(&self, scheme: &Scheme, acc: &mut Vec<TypeVar>)
        requires
            self.inv(),
            scheme.ty.0 < self.ts().len(),
        ensures
            final(acc)@ == push_new(old(acc)@, add_tvars(seq![], tree(self.ts(), scheme.ty.0 as int)), scheme.vars@),
    {
        let mut vars: Vec<TypeVar> = Vec::new();
        self.free_type_vars(scheme.ty, &mut vars);
        proof {
            assert(seq![] =~= Seq::<TypeVar>::empty());
        }
        let ghost vs = vars@;
        let ghost acc0 = acc@;
        let mut i: usize = 0;
        while i < vars.len()
            invariant
                vars@ == vs,
                i <= vs.len(),
                acc@ == push_new(acc0, vs.take(i as int), scheme.vars@),
            decreases vs.len() - i,
        {
            let var = vars[i];
            proof {
                assert(vs.take(i + 1).drop_last() =~= vs.take(i as int));
                assert(vs.take(i + 1).last() == var);
            }
            if !has_var(&scheme.vars, var) && !has_var(acc, var) {
                acc.push(var);
            }
            i = i + 1;
        }
        proof {
            assert(vs.take(vs.len() as int) =~= vs);
        }
    }

    /// Appends the free variables of every scheme of `env` that `acc` does not
    /// hold, in order.
    fn free_env_vars(&self, env: &Env, acc: &mut Vec<TypeVar>)
        requires
            self.inv(),
            forall|i: int| 0 <= i < env@.len() ==> (#[trigger] env@[i]).ty.0 < self.ts().len(),
        ensures
            final(acc)@ == env_fv(old(acc)@, scheme_trees(self.ts(), env@)),
    {
        let ghost acc0 = acc@;
        let ghost st = scheme_trees(self.ts(), env@);
        let mut i: usize = 0;
        while i < env.len()
            invariant
                self.inv(),
                st == scheme_trees(self.ts(), env@),
                forall|i: int| 0 <= i < env@.len() ==> (#[trigger] env@[i]).ty.0 < self.ts().len(),
                i <= env@.len(),
                acc@ == env_fv(acc0, st.take(i as int)),
            decreases env@.len() - i,
        {
            proof {
                assert(st.take(i + 1).drop_last() =~= st.take(i as int));
                assert(st.take(i + 1).last() == st[i as int]);
            }
            self.free_scheme_vars(&env[i], acc);
            i = i + 1;
        }
        proof {
            assert(st.take(st.len() as int) =~= st);
        }
    }

    /// A type of `scheme` with new variables for the quantified ones.
    fn instantiate(&mut self, scheme: &Scheme) -> (res: TypeId)
        requires
            old(self).inv(),
            scheme_wf(old(self).ts(), *scheme, old(self).nvars()),
        ensures
            final(self).inv(),
            final(self).same_program(old(self)),
            final(self).nvars() == old(self).nvars() + scheme.vars@.len(),
            extends(old(self).ts(), final(self).ts()),
            res.0 < final(self).ts().len(),
            tree(final(self).ts(), res.0 as int) == rename(
                tree(old(self).ts(), scheme.ty.0 as int),
                scheme.vars@,
                old(self).nvars(),
            ),
    {
        let ghost ts0 = self.ts();
        let ghost n0 = self.nvars();
        let ghost base = ts0.len() as int;
        let ghost vars = scheme.vars@;
        let mut subst = Subst::new();
        let mut i: usize = 0;
        while i < scheme.vars.len()
            invariant
                self.inv(),
                self.same_program(old(self)),
                ts0 == old(self).ts(),
                n0 == old(self).nvars(),
                base == ts0.len(),
                vars == scheme.vars@,
                scheme_wf(ts0, *scheme, n0),
                i <= vars.len(),
                self.nvars() == n0 + i,
                self.ts().len() == base + i,
                extends(ts0, self.ts()),
                forall|j: int| 0 <= j < i ==> #[trigger] fresh_at(self.ts(), base, n0, j),
                subst@ == Seq::new(i as nat, |j: int| (vars[j].0, (base + j) as usize)),
            decreases vars.len() - i,
        {
            let ghost ts1 = self.ts();
            let t = self.fresh_tvar();
            subst.push(scheme.vars[i], t);
            proof {
                let ts2 = self.ts();
                self.lemma_inv();
                assert forall|j: int| 0 <= j < i + 1 implies #[trigger] fresh_at(ts2, base, n0, j) by {
                    if j < i {
                        assert(fresh_at(ts1, base, n0, j));
                        assert(ts2[base + j] == ts1[base + j]);
                    }
                }
                assert forall|k: int| 0 <= k < ts0.len() implies #[trigger] ts2[k] == ts0[k] by {
                    assert(ts1[k] == ts0[k]);
                }
                assert(subst@ =~= Seq::new((i + 1) as nat, |j: int| (vars[j].0, (base + j) as usize)));
            }
            i = i + 1;
        }
        proof {
            let ts = self.ts();
            let s = subst@;
            self.lemma_inv();
            assert(base <= usize::MAX - vars.len());
            assert forall|a: int, b: int| 0 <= a < b < s.len() implies s[a].0 != s[b].0 by {
                assert(vars.no_duplicates());
                assert(vars[a] != vars[b]);
            }
            assert forall|j: int| 0 <= j < s.len() implies (#[trigger] s[j]).0 < self.nvars() && s[j].1 < ts.len() by {
                assert(vars[j].0 < n0);
            }
            assert forall|j: int| 0 <= j < s.len() implies bound_from(ts, s, (#[trigger] s[j]).1 as int, j + 1) by {
                assert(fresh_at(ts, base, n0, j));
                lemma_find(s, (n0 + j) as usize, 0);
                assert forall|m: int| 0 <= m < s.len() implies s[m].0 != (n0 + j) as usize by {
                    assert(vars[m].0 < n0);
                }
            }
            assert forall|j: int| 0 <= j < vars.len() implies (#[trigger] vars[j]).0 < n0 by {
            }
            lemma_resolve_rename(ts, s, vars, base, n0, scheme.ty.0 as int, self.nvars());
            lemma_tree_frame(ts0, ts, scheme.ty.0 as int);
        }
        self.apply(scheme.ty, &subst)
    }

    /// `ty` under `subst`, with every variable quantified that the schemes of
    /// `env` under `subst` leave free.
    fn generalize(&mut self, env: &Env, ty: TypeId, subst: &Subst) -> (res: Scheme)
        requires
            old(self).inv(),
            subst_wf(old(self).ts(), subst@, old(self).nvars()),
            env_wf(old(self).ts(), env@, old(self).nvars()),
            ty.0 < old(self).ts().len(),
        ensures
            final(self).inv(),
            final(self).same_program(old(self)),
            final(self).nvars() == old(self).nvars(),
            extends(old(self).ts(), final(self).ts()),
            scheme_wf(final(self).ts(), res, final(self).nvars()),
            tree(final(self).ts(), res.ty.0 as int) == resolve(old(self).ts(), subst@, ty.0 as int),
            res.vars@ == add_tvars(seq![], resolve(old(self).ts(), subst@, ty.0 as int)).filter(
                |v: TypeVar| !env_fv(seq![], applied_env(old(self).ts(), subst@, env@)).contains(v),
            ),
    {
        let ghost ts0 = self.ts();
        let t = self.apply(ty, subst);
        let ghost ts1 = self.ts();
        proof {
            lemma_subst_wf_frame(ts0, ts1, subst@, self.nvars(), self.nvars());
            lemma_env_wf_frame(ts0, ts1, env@, self.nvars(), self.nvars());
            assert forall|i: int| 0 <= i < env@.len() implies resolve_except(ts1, subst@, env@[i].vars@, env@[i].ty.0 as int, 0)
                == resolve_except(ts0, subst@, env@[i].vars@, env@[i].ty.0 as int, 0) by {
                assert(scheme_wf(ts0, env@[i], self.nvars()));
                lemma_resolve_except_frame(ts0, ts1, subst@, env@[i].vars@, env@[i].ty.0 as int, 0);
            }
            assert(applied_env(ts1, subst@, env@) =~= applied_env(ts0, subst@, env@));
        }
        let env2 = self.apply_env(env, subst);
        let ghost ts2 = self.ts();
        proof {
            lemma_tree_frame(ts1, ts2, t.0 as int);
            lemma_extends_trans(ts0, ts1, ts2);
            assert forall|i: int| 0 <= i < env2@.len() implies (#[trigger] env2@[i]).ty.0 < ts2.len() by {
                assert(scheme_wf(ts2, env2@[i], self.nvars()));
            }
        }
        let mut ty_vars: Vec<TypeVar> = Vec::new();
        self.free_type_vars(t, &mut ty_vars);
        let mut env_vars: Vec<TypeVar> = Vec::new();
        self.free_env_vars(&env2, &mut env_vars);
        let ghost tv = ty_vars@;
        let ghost ev = env_vars@;
        proof {
            assert(seq![] =~= Seq::<TypeVar>::empty());
            lemma_add_tvars_distinct(seq![], tree(ts2, t.0 as int));
        }
        let mut vars: Vec<TypeVar> = Vec::new();
        let mut i: usize = 0;
        while i < ty_vars.len()
            invariant
                ty_vars@ == tv,
                env_vars@ == ev,
                tv.no_duplicates(),
                i <= tv.len(),
                vars@ == tv.take(i as int).filter(|v: TypeVar| !ev.contains(v)),
                vars@.no_duplicates(),
                forall|m: int| 0 <= m < vars@.len() ==> tv.take(i as int).contains(#[trigger] vars@[m]),
            decreases tv.len() - i,
        {
            let var = ty_vars[i];
            let ghost before = vars@;
            proof {
                assert(tv.take(i + 1).drop_last() =~= tv.take(i as int));
                assert(tv.take(i + 1).last() == var);
                reveal_with_fuel(Seq::filter, 1);
                assert(tv.take(i + 1).filter(|v: TypeVar| !ev.contains(v)) == (if !ev.contains(var) {
                    tv.take(i as int).filter(|v: TypeVar| !ev.contains(v)).push(var)
                } else {
                    tv.take(i as int).filter(|v: TypeVar| !ev.contains(v))
                }));
            }
            let keep = !has_var(&env_vars, var);
            if keep {
                vars.push(var);
                proof {
                    assert forall|a: int, b: int| 0 <= a < b < vars@.len() implies vars@[a] != vars@[b] by {
                        if b == before.len() {
                            assert(tv.take(i as int).contains(before[a]));
                            let k = choose|k: int| 0 <= k < i && tv.take(i as int)[k] == before[a];
                            assert(tv[k] == before[a]);
                        } else {
                            assert(before[a] != before[b]);
                        }
                    }
                }
            }
            proof {
                assert forall|m: int| 0 <= m < vars@.len() implies tv.take(i + 1).contains(#[trigger] vars@[m]) by {
                    if m < before.len() {
                        let k = choose|k: int| 0 <= k < i && tv.take(i as int)[k] == before[m];
                        assert(tv.take(i + 1)[k] == before[m]);
                    } else {
                        assert(tv.take(i + 1)[i as int] == var);
                    }
                }
            }
            i = i + 1;
        }
        proof {
            assert(tv.take(tv.len() as int) =~= tv);
            assert forall|m: int| 0 <= m < vars@.len() implies (#[trigger] vars@[m]).0 < self.nvars() by {
                let v = vars@[m];
                assert(tv.contains(v));
                lemma_add_tvars_members(seq![], tree(ts2, t.0 as int), v);
                self.lemma_inv();
                lemma_tree_vars(ts2, t.0 as int, self.nvars(), v.0);
            }
        }
        Scheme { vars, ty: t }
    }

    /// The outcome that every step of inference keeps: the invariant, the
    /// program, the old types, and no fewer type variables.
    pub open spec fn grew(&self, old: &Self) -> bool {
        &&& self.inv()
        &&& self.same_program(old)
        &&& extends(old.ts(), self.ts())
        &&& old.nvars() <= self.nvars()
    }

    /// The substitution and type that inference found for `expr` under `env`.
    fn infer(&mut self, expr: ExprId, env: &Env) -> (res: Result<(Subst, TypeId), TypeError>)
        requires
            old(self).inv(),
            env_wf(old(self).ts(), env@, old(self).nvars()),
            scoped(old(self).nodes(), old(self).uses(), expr.0 as int, env@.len() as int),
        ensures
            infer_post(*old(self), *final(self), res),
            infer_agrees(
                final(self).ts(),
                final(self).nvars(),
                infer_t(old(self).nodes(), old(self).uses(), scheme_trees(old(self).ts(), env@), old(self).nvars(), expr.0 as int),
                res,
            ),
        decreases expr.0, 2int,
    {
        self.infer_impl(expr, env)
    }

    fn infer_impl(&mut self, expr: ExprId, env: &Env) -> (res: Result<(Subst, TypeId), TypeError>)
        requires
            old(self).inv(),
            env_wf(old(self).ts(), env@, old(self).nvars()),
            scoped(old(self).nodes(), old(self).uses(), expr.0 as int, env@.len() as int),
        ensures
            infer_post(*old(self), *final(self), res),
            infer_agrees(
                final(self).ts(),
                final(self).nvars(),
                infer_t(old(self).nodes(), old(self).uses(), scheme_trees(old(self).ts(), env@), old(self).nvars(), expr.0 as int),
                res,
            ),
        decreases expr.0, 1int,
    {
        let ghost ts0 = self.ts();
        let ghost n0 = self.nvars();
        proof {
            self.lemma_inv();
        }
        match self.ast.expr(expr) {
            Expr::Lit(lit) => {
                let ty = match lit {
                    Lit::Unit => self.types.unit_type(),
                    Lit::Int(_) => self.types.int_type(),
                    Lit::Bool(_) => self.types.bool_type(),
                };
                proof {
                    lemma_base_tree(ts0, ts0, ty.0 as int);
                    assert(subst_trees(ts0, Seq::<(usize, usize)>::empty()) =~= Seq::<(usize, Ty)>::empty());
                }
                Ok((Subst::new(), ty))
            },
            Expr::Var(_) => {
                let local = self.locals.get(expr).unwrap();
                let scheme = &env[local.0];
                proof {
                    assert(scheme_wf(ts0, env@[local.0 as int], n0));
                    assert(scheme_trees(ts0, env@)[local.0 as int] == (scheme.vars@, tree(ts0, scheme.ty.0 as int)));
                }
                let ty = self.instantiate(scheme);
                proof {
                    assert(subst_trees(self.ts(), Seq::<(usize, usize)>::empty()) =~= Seq::<(usize, Ty)>::empty());
                }
                Ok((Subst::new(), ty))
            },
            Expr::Abs(_, body) => self.infer_abs(expr, body, env),
            Expr::App(lhs, arg) => self.infer_app(expr, lhs, arg, env),
            Expr::Bin(lhs, op, rhs) => self.infer_bin(expr, lhs, op, rhs, env),
            Expr::Bind { is_recursive, name: _, init, body } => {
                if is_recursive {
                    self.infer_let_rec(expr, init, body, env)
                } else {
                    self.infer_let(expr, init, body, env)
                }
            },
            Expr::Cond { cond, then_branch, else_branch } => self.infer_cond(
                expr,
                cond,
                then_branch,
                else_branch,
                env,
            ),
        }
    }

    #[verifier::rlimit(40)]
    fn infer_abs(&mut self, expr: ExprId, body: ExprId, env: &Env) -> (res: Result<(Subst, TypeId), TypeError>)
        requires
            old(self).inv(),
            env_wf(old(self).ts(), env@, old(self).nvars()),
            scoped(old(self).nodes(), old(self).uses(), expr.0 as int, env@.len() as int),
            old(self).nodes()[expr.0 as int].expr matches Expr::Abs(_, b) && b == body,
        ensures
            infer_post(*old(self), *final(self), res),
            infer_agrees(
                final(self).ts(),
                final(self).nvars(),
                infer_t(old(self).nodes(), old(self).uses(), scheme_trees(old(self).ts(), env@), old(self).nvars(), expr.0 as int),
                res,
            ),
        decreases expr.0, 0int,
    {
        let ghost ts0 = self.ts();
        let ghost n0 = self.nvars();
        let ghost genv = scheme_trees(ts0, env@);
        proof {
            self.lemma_inv();
        }
        let param_ty = self.fresh_tvar();
        let ghost p0 = param_ty;
        let mut body_env = copy_env(env);
        body_env.push(self.mono(param_ty));
        let ghost ts1 = self.ts();
        proof {
            lemma_env_wf_frame(ts0, self.ts(), env@, n0, self.nvars());
            lemma_copy_env_wf(self.ts(), env@, body_env@, self.nvars(), param_ty);
            lemma_scheme_trees_frame(ts0, ts1, env@);
            let want = genv.push((Seq::<TypeVar>::empty(), Ty::Var(n0 as usize)));
            assert(body_env@.len() == env@.len() + 1);
            assert forall|i: int| 0 <= i < body_env@.len() implies #[trigger] scheme_trees(ts1, body_env@)[i] == want[i] by {
                if i < env@.len() {
                    assert(scheme_trees(ts1, env@)[i] == genv[i]);
                    assert(body_env@[i].vars@ == env@[i].vars@ && body_env@[i].ty == env@[i].ty);
                } else {
                    assert(body_env@[i].ty == p0);
                    assert(body_env@[i].vars@ =~= Seq::<TypeVar>::empty());
                    assert(ts1[p0.0 as int] == Type::Var(TypeVar(n0 as usize)));
                }
            }
            assert(scheme_trees(ts1, body_env@) =~= want);
        }
        let (subst, body_ty) = self.infer(body, &body_env)?;
        let ghost tsb = self.ts();
        proof {
            lemma_tree_frame(ts1, tsb, p0.0 as int);
            lemma_resolve_trees(tsb, subst@, p0.0 as int, 0);
        }
        let param_ty = self.apply(param_ty, &subst);
        let ghost ts2 = self.ts();
        proof {
            self.lemma_inv();
            lemma_subst_wf_frame(tsb, ts2, subst@, self.nvars(), self.nvars());
            lemma_tree_frame(tsb, ts2, body_ty.0 as int);
            lemma_subst_trees_frame(tsb, ts2, subst@);
        }
        let ghost before = *self;
        let fun_ty = self.types.allocate(Type::Abs(param_ty, body_ty));
        proof {
            self.lemma_after_abs(before);
            lemma_subst_wf_frame(ts2, self.ts(), subst@, self.nvars(), self.nvars());
            lemma_tree_frame(ts2, self.ts(), body_ty.0 as int);
            lemma_tree_frame(ts2, self.ts(), param_ty.0 as int);
            lemma_subst_trees_frame(ts2, self.ts(), subst@);
        }
        Ok((subst, fun_ty))
    }

    #[verifier::rlimit(60)]
    #[verifier::spinoff_prover]
    fn infer_app(&mut self, expr: ExprId, lhs: ExprId, arg: ExprId, env: &Env) -> (res: Result<(Subst, TypeId), TypeError>)
        requires
            old(self).inv(),
            env_wf(old(self).ts(), env@, old(self).nvars()),
            scoped(old(self).nodes(), old(self).uses(), expr.0 as int, env@.len() as int),
            old(self).nodes()[expr.0 as int].expr == Expr::App(lhs, arg),
        ensures
            infer_post(*old(self), *final(self), res),
            infer_agrees(
                final(self).ts(),
                final(self).nvars(),
                infer_t(old(self).nodes(), old(self).uses(), scheme_trees(old(self).ts(), env@), old(self).nvars(), expr.0 as int),
                res,
            ),
        decreases expr.0, 0int,
    {
        let ghost ts0 = self.ts();
        let ghost n0 = self.nvars();
        let ghost genv = scheme_trees(ts0, env@);
        proof {
            self.lemma_inv();
        }
        let (subst_fun, fun_ty) = self.infer(lhs, env)?;
        let ghost ts1 = self.ts();
        proof {
            lemma_env_wf_frame(ts0, ts1, env@, n0, self.nvars());
            lemma_scheme_trees_frame(ts0, ts1, env@);
            lemma_applied_env_trees(ts1, subst_fun@, env@);
        }
        let arg_env = self.apply_env(env, &subst_fun);
        proof {
            lemma_subst_wf_frame(ts1, self.ts(), subst_fun@, self.nvars(), self.nvars());
        }
        let ghost ts2 = self.ts();
        let (subst_arg, arg_ty) = self.infer(arg, &arg_env)?;
        let ghost ts3 = self.ts();
        proof {
            lemma_subst_wf_frame(ts2, ts3, subst_fun@, self.nvars(), self.nvars());
            lemma_extends_trans(ts1, ts2, ts3);
            lemma_subst_trees_frame(ts1, ts3, subst_fun@);
            lemma_tree_frame(ts1, ts3, fun_ty.0 as int);
        }
        let mut subst = self.compose(&subst_arg, &subst_fun)?;
        let ghost tsc = self.ts();
        proof {
            lemma_tree_frame(ts3, tsc, fun_ty.0 as int);
            lemma_tree_frame(ts3, tsc, arg_ty.0 as int);
        }
        let result_ty = self.fresh_tvar();
        let ghost ts3b = self.ts();
        proof {
            lemma_subst_wf_frame(tsc, ts3b, subst@, self.nvars() - 1, self.nvars());
            lemma_subst_trees_frame(tsc, ts3b, subst@);
            lemma_tree_frame(tsc, ts3b, fun_ty.0 as int);
            lemma_tree_frame(tsc, ts3b, arg_ty.0 as int);
            lemma_resolve_trees(ts3b, subst@, arg_ty.0 as int, 0);
        }
        let arg_ty = self.apply(arg_ty, &subst);
        proof {
            self.lemma_inv();
            lemma_subst_wf_frame(ts3b, self.ts(), subst@, self.nvars(), self.nvars());
            lemma_subst_trees_frame(ts3b, self.ts(), subst@);
            lemma_tree_frame(ts3b, self.ts(), fun_ty.0 as int);
            lemma_tree_frame(ts3b, self.ts(), result_ty.0 as int);
        }
        let ghost ts4 = self.ts();
        let ghost before = *self;
        let expected_fun_ty = self.types.allocate(Type::Abs(arg_ty, result_ty));
        proof {
            self.lemma_after_abs(before);
            lemma_subst_wf_frame(ts4, self.ts(), subst@, self.nvars(), self.nvars());
            lemma_subst_trees_frame(ts4, self.ts(), subst@);
            lemma_tree_frame(ts4, self.ts(), fun_ty.0 as int);
            lemma_tree_frame(ts4, self.ts(), result_ty.0 as int);
            lemma_tree_frame(ts4, self.ts(), arg_ty.0 as int);
        }
        self.unify(fun_ty, expected_fun_ty, &mut subst)?;
        let ghost tsz = self.ts();
        proof {
            lemma_tree_frame(ts3b, tsz, result_ty.0 as int);
            lemma_resolve_trees(tsz, subst@, result_ty.0 as int, 0);
        }
        let ty = self.apply(result_ty, &subst);
        proof {
            lemma_subst_wf_frame(tsz, self.ts(), subst@, self.nvars(), self.nvars());
            lemma_subst_trees_frame(tsz, self.ts(), subst@);
        }
        Ok((subst, ty))
    }

    #[verifier::rlimit(80)]
    #[verifier::spinoff_prover]
    fn infer_bin(&mut self, expr: ExprId, lhs: ExprId, op: Token, rhs: ExprId, env: &Env) -> (res: Result<(Subst, TypeId), TypeError>)
        requires
            old(self).inv(),
            env_wf(old(self).ts(), env@, old(self).nvars()),
            scoped(old(self).nodes(), old(self).uses(), expr.0 as int, env@.len() as int),
            old(self).nodes()[expr.0 as int].expr == Expr::Bin(lhs, op, rhs),
        ensures
            infer_post(*old(self), *final(self), res),
            infer_agrees(
                final(self).ts(),
                final(self).nvars(),
                infer_t(old(self).nodes(), old(self).uses(), scheme_trees(old(self).ts(), env@), old(self).nvars(), expr.0 as int),
                res,
            ),
        decreases expr.0, 0int,
    {
        let ghost ts0 = self.ts();
        let ghost n0 = self.nvars();
        let ghost genv = scheme_trees(ts0, env@);
        proof {
            self.lemma_inv();
        }
        let (subst_lhs, lhs_ty) = self.infer(lhs, env)?;
        let ghost ts1 = self.ts();
        proof {
            lemma_env_wf_frame(ts0, ts1, env@, n0, self.nvars());
            lemma_scheme_trees_frame(ts0, ts1, env@);
            lemma_applied_env_trees(ts1, subst_lhs@, env@);
        }
        let rhs_env = self.apply_env(env, &subst_lhs);
        let ghost ts2 = self.ts();
        proof {
            lemma_subst_wf_frame(ts1, ts2, subst_lhs@, self.nvars(), self.nvars());
        }
        let (subst_rhs, rhs_ty) = self.infer(rhs, &rhs_env)?;
        let ghost ts3 = self.ts();
        proof {
            lemma_subst_wf_frame(ts2, ts3, subst_lhs@, self.nvars(), self.nvars());
            lemma_extends_trans(ts1, ts2, ts3);
            lemma_subst_trees_frame(ts1, ts3, subst_lhs@);
            lemma_tree_frame(ts1, ts3, lhs_ty.0 as int);
        }
        let mut subst = self.compose(&subst_rhs, &subst_lhs)?;
        let int_ty = self.types.int_type();
        let ghost ts4 = self.ts();
        proof {
            self.lemma_inv();
            lemma_tree_frame(ts3, ts4, lhs_ty.0 as int);
            lemma_tree_frame(ts3, ts4, rhs_ty.0 as int);
            lemma_base_tree(ts4, ts4, int_ty.0 as int);
        }
        if op == Token::EqEq || op == Token::BangEq {
            self.unify(lhs_ty, rhs_ty, &mut subst)?;
        } else {
            self.unify(lhs_ty, int_ty, &mut subst)?;
            let ghost ts5 = self.ts();
            proof {
                self.lemma_inv();
                lemma_tree_frame(ts4, ts5, rhs_ty.0 as int);
                lemma_base_tree(ts4, ts5, int_ty.0 as int);
            }
            self.unify(rhs_ty, int_ty, &mut subst)?;
        }
        proof {
            self.lemma_inv();
        }
        let ghost tsz = self.ts();
        proof {
            lemma_base_tree(ts4, tsz, int_ty.0 as int);
        }
        let ty = self.apply(int_ty, &subst);
        proof {
            lemma_subst_wf_frame(tsz, self.ts(), subst@, self.nvars(), self.nvars());
            lemma_subst_trees_frame(tsz, self.ts(), subst@);
            lemma_base_tree(tsz, self.ts(), int_ty.0 as int);
        }
        Ok((subst, ty))
    }

    #[verifier::rlimit(80)]
    #[verifier::spinoff_prover]
    fn infer_let(&mut self, expr: ExprId, init: ExprId, body: ExprId, env: &Env) -> (res: Result<(Subst, TypeId), TypeError>)
        requires
            old(self).inv(),
            env_wf(old(self).ts(), env@, old(self).nvars()),
            scoped(old(self).nodes(), old(self).uses(), expr.0 as int, env@.len() as int),
            old(self).nodes()[expr.0 as int].expr matches Expr::Bind { is_recursive, init: i, body: b, .. } && !is_recursive && i == init && b == body,
        ensures
            infer_post(*old(self), *final(self), res),
            infer_agrees(
                final(self).ts(),
                final(self).nvars(),
                infer_t(old(self).nodes(), old(self).uses(), scheme_trees(old(self).ts(), env@), old(self).nvars(), expr.0 as int),
                res,
            ),
        decreases expr.0, 0int,
    {
        let ghost ts0 = self.ts();
        let ghost n0 = self.nvars();
        let ghost genv = scheme_trees(ts0, env@);
        proof {
            self.lemma_inv();
        }
        let (subst_init, init_ty) = self.infer(init, env)?;
        let ghost ts1 = self.ts();
        proof {
            lemma_env_wf_frame(ts0, ts1, env@, n0, self.nvars());
            lemma_scheme_trees_frame(ts0, ts1, env@);
        }
        let mut body_env = self.apply_env(env, &subst_init);
        let ghost ts2 = self.ts();
        proof {
            lemma_env_wf_frame(ts0, ts2, env@, n0, self.nvars());
            lemma_subst_wf_frame(ts1, ts2, subst_init@, self.nvars(), self.nvars());
            lemma_scheme_trees_frame(ts0, ts2, env@);
            lemma_subst_trees_frame(ts1, ts2, subst_init@);
            lemma_tree_frame(ts1, ts2, init_ty.0 as int);
            lemma_applied_env_trees(ts1, subst_init@, env@);
            lemma_applied_env_trees(ts2, subst_init@, env@);
            lemma_resolve_trees(ts2, subst_init@, init_ty.0 as int, 0);
        }
        let scheme = self.generalize(env, init_ty, &subst_init);
        let ghost tsg = self.ts();
        proof {
            lemma_env_wf_frame(ts2, tsg, body_env@, self.nvars(), self.nvars());
            lemma_scheme_trees_frame(ts2, tsg, body_env@);
        }
        let ghost env0 = body_env@;
        body_env.push(scheme);
        proof {
            Self::lemma_push_scheme(tsg, env0, scheme, self.nvars());
            let s1 = subst_trees(ts1, subst_init@);
            let ti = tree(ts1, init_ty.0 as int);
            assert(apply_env_t(s1, genv) == scheme_trees(tsg, env0));
            assert(scheme.vars@ == gen_t(s1, genv, ti).0);
            assert(tree(tsg, scheme.ty.0 as int) == gen_t(s1, genv, ti).1);
            assert(scheme_trees(tsg, body_env@) =~= apply_env_t(s1, genv).push(gen_t(s1, genv, ti)));
        }
        let (subst_body, body_ty) = self.infer(body, &body_env)?;
        let ghost ts3 = self.ts();
        proof {
            lemma_subst_wf_frame(ts2, ts3, subst_init@, self.nvars(), self.nvars());
            lemma_extends_trans(ts1, ts2, ts3);
            lemma_subst_trees_frame(ts1, ts3, subst_init@);
        }
        let subst = self.compose(&subst_body, &subst_init)?;
        let ghost tsz = self.ts();
        proof {
            lemma_tree_frame(ts3, tsz, body_ty.0 as int);
            lemma_resolve_trees(tsz, subst@, body_ty.0 as int, 0);
        }
        let ty = self.apply(body_ty, &subst);
        proof {
            lemma_subst_wf_frame(tsz, self.ts(), subst@, self.nvars(), self.nvars());
            lemma_subst_trees_frame(tsz, self.ts(), subst@);
        }
        Ok((subst, ty))
    }

    #[verifier::rlimit(80)]
    #[verifier::spinoff_prover]
    fn infer_let_rec(&mut self, expr: ExprId, init: ExprId, body: ExprId, env: &Env) -> (res: Result<(Subst, TypeId), TypeError>)
        requires
            old(self).inv(),
            env_wf(old(self).ts(), env@, old(self).nvars()),
            scoped(old(self).nodes(), old(self).uses(), expr.0 as int, env@.len() as int),
            old(self).nodes()[expr.0 as int].expr matches Expr::Bind { is_recursive, init: i, body: b, .. } && is_recursive && i == init && b == body,
        ensures
            infer_post(*old(self), *final(self), res),
            infer_agrees(
                final(self).ts(),
                final(self).nvars(),
                infer_t(old(self).nodes(), old(self).uses(), scheme_trees(old(self).ts(), env@), old(self).nvars(), expr.0 as int),
                res,
            ),
        decreases expr.0, 0int,
    {
        let ghost ts0 = self.ts();
        let ghost n0 = self.nvars();
        let ghost genv = scheme_trees(ts0, env@);
        proof {
            self.lemma_inv();
        }
        let placeholder_ty = self.fresh_tvar();
        let mut init_env = copy_env(env);
        init_env.push(self.mono(placeholder_ty));
        let ghost ts1 = self.ts();
        proof {
            lemma_env_wf_frame(ts0, self.ts(), env@, n0, self.nvars());
            lemma_copy_env_wf(self.ts(), env@, init_env@, self.nvars(), placeholder_ty);
            lemma_scheme_trees_frame(ts0, ts1, env@);
            let want = genv.push((Seq::<TypeVar>::empty(), Ty::Var(n0 as usize)));
            assert(init_env@.len() == env@.len() + 1);
            assert forall|i: int| 0 <= i < init_env@.len() implies #[trigger] scheme_trees(ts1, init_env@)[i] == want[i] by {
                if i < env@.len() {
                    assert(scheme_trees(ts1, env@)[i] == genv[i]);
                    assert(init_env@[i].vars@ == env@[i].vars@ && init_env@[i].ty == env@[i].ty);
                } else {
                    assert(init_env@[i].ty == placeholder_ty);
                    assert(init_env@[i].vars@ =~= Seq::<TypeVar>::empty());
                    assert(ts1[placeholder_ty.0 as int] == Type::Var(TypeVar(n0 as usize)));
                }
            }
            assert(scheme_trees(ts1, init_env@) =~= want);
        }
        let (subst_init, init_ty) = self.infer(init, &init_env)?;
        let mut subst = subst_init;
        proof {
            lemma_tree_frame(ts1, self.ts(), placeholder_ty.0 as int);
        }
        self.unify(placeholder_ty, init_ty, &mut subst)?;
        proof {
            lemma_env_wf_frame(ts0, self.ts(), env@, n0, self.nvars());
        }
        let ghost tsu = self.ts();
        let mut body_env = self.apply_env(env, &subst);
        let ghost ts2 = self.ts();
        proof {
            lemma_env_wf_frame(ts0, ts2, env@, n0, self.nvars());
            lemma_subst_wf_frame(tsu, ts2, subst@, self.nvars(), self.nvars());
            lemma_scheme_trees_frame(ts0, tsu, env@);
            lemma_scheme_trees_frame(ts0, ts2, env@);
            lemma_subst_trees_frame(tsu, ts2, subst@);
            lemma_tree_frame(ts1, ts2, placeholder_ty.0 as int);
            lemma_applied_env_trees(tsu, subst@, env@);
            lemma_applied_env_trees(ts2, subst@, env@);
            lemma_resolve_trees(ts2, subst@, placeholder_ty.0 as int, 0);
        }
        let scheme = self.generalize(env, placeholder_ty, &subst);
        let ghost tsg = self.ts();
        proof {
            lemma_env_wf_frame(ts2, tsg, body_env@, self.nvars(), self.nvars());
            lemma_scheme_trees_frame(ts2, tsg, body_env@);
        }
        let ghost env0 = body_env@;
        body_env.push(scheme);
        proof {
            Self::lemma_push_scheme(tsg, env0, scheme, self.nvars());
            let u = subst_trees(tsu, subst@);
            let p = Ty::Var(n0 as usize);
            assert(apply_env_t(u, genv) == scheme_trees(tsg, env0));
            assert(scheme.vars@ == gen_t(u, genv, p).0);
            assert(tree(tsg, scheme.ty.0 as int) == gen_t(u, genv, p).1);
            assert(scheme_trees(tsg, body_env@) =~= apply_env_t(u, genv).push(gen_t(u, genv, p)));
        }
        let (subst_body, body_ty) = self.infer(body, &body_env)?;
        let ghost ts3 = self.ts();
        proof {
            lemma_subst_wf_frame(ts2, ts3, subst@, self.nvars(), self.nvars());
            lemma_extends_trans(tsu, ts2, ts3);
            lemma_subst_trees_frame(tsu, ts3, subst@);
        }
        let subst = self.compose(&subst_body, &subst)?;
        let ghost tsz = self.ts();
        proof {
            lemma_tree_frame(ts3, tsz, body_ty.0 as int);
            lemma_resolve_trees(tsz, subst@, body_ty.0 as int, 0);
        }
        let ty = self.apply(body_ty, &subst);
        proof {
            lemma_subst_wf_frame(tsz, self.ts(), subst@, self.nvars(), self.nvars());
            lemma_subst_trees_frame(tsz, self.ts(), subst@);
        }
        Ok((subst, ty))
    }

    #[verifier::rlimit(80)]
    #[verifier::spinoff_prover]
    fn infer_cond(&mut self, expr: ExprId, cond: ExprId, then_branch: ExprId, else_branch: ExprId, env: &Env) -> (res: Result<(Subst, TypeId), TypeError>)
        requires
            old(self).inv(),
            env_wf(old(self).ts(), env@, old(self).nvars()),
            scoped(old(self).nodes(), old(self).uses(), expr.0 as int, env@.len() as int),
            old(self).nodes()[expr.0 as int].expr == (Expr::Cond { cond, then_branch, else_branch }),
        ensures
            infer_post(*old(self), *final(self), res),
            infer_agrees(
                final(self).ts(),
                final(self).nvars(),
                infer_t(old(self).nodes(), old(self).uses(), scheme_trees(old(self).ts(), env@), old(self).nvars(), expr.0 as int),
                res,
            ),
        decreases expr.0, 0int,
    {
        let ghost ts0 = self.ts();
        let ghost n0 = self.nvars();
        let ghost genv = scheme_trees(ts0, env@);
        proof {
            self.lemma_inv();
        }
        let (subst_cond, cond_ty) = self.infer(cond, env)?;
        let mut subst = subst_cond;
        let bool_ty = self.types.bool_type();
        proof {
            self.lemma_inv();
            lemma_base_tree(self.ts(), self.ts(), bool_ty.0 as int);
        }
        self.unify(cond_ty, bool_ty, &mut subst)?;
        proof {
            lemma_env_wf_frame(ts0, self.ts(), env@, n0, self.nvars());
            lemma_scheme_trees_frame(ts0, self.ts(), env@);
            lemma_applied_env_trees(self.ts(), subst@, env@);
        }
        let ghost tsu = self.ts();
        let then_env = self.apply_env(env, &subst);
        let ghost ts1b = self.ts();
        proof {
            lemma_subst_wf_frame(tsu, ts1b, subst@, self.nvars(), self.nvars());
        }
        let (subst_then, then_ty) = self.infer(then_branch, &then_env)?;
        let ghost ts2 = self.ts();
        proof {
            lemma_subst_wf_frame(ts1b, ts2, subst@, self.nvars(), self.nvars());
            lemma_extends_trans(tsu, ts1b, ts2);
            lemma_subst_trees_frame(tsu, ts2, subst@);
        }
        subst = self.compose(&subst_then, &subst)?;
        proof {
            lemma_env_wf_frame(ts0, self.ts(), env@, n0, self.nvars());
            lemma_scheme_trees_frame(ts0, self.ts(), env@);
            lemma_applied_env_trees(self.ts(), subst@, env@);
            lemma_tree_frame(ts2, self.ts(), then_ty.0 as int);
        }
        let ghost tsv = self.ts();
        let else_env = self.apply_env(env, &subst);
        let ghost ts2b = self.ts();
        proof {
            lemma_subst_wf_frame(tsv, ts2b, subst@, self.nvars(), self.nvars());
        }
        let (subst_else, else_ty) = self.infer(else_branch, &else_env)?;
        let ghost ts3 = self.ts();
        proof {
            lemma_subst_wf_frame(ts2b, ts3, subst@, self.nvars(), self.nvars());
            lemma_extends_trans(tsv, ts2b, ts3);
            lemma_subst_trees_frame(tsv, ts3, subst@);
            lemma_tree_frame(tsv, ts3, then_ty.0 as int);
        }
        subst = self.compose(&subst_else, &subst)?;
        let ghost ts4 = self.ts();
        proof {
            self.lemma_inv();
            lemma_tree_frame(ts3, ts4, then_ty.0 as int);
            lemma_tree_frame(ts3, ts4, else_ty.0 as int);
        }
        self.unify(then_ty, else_ty, &mut subst)?;
        let ghost tsz = self.ts();
        proof {
            lemma_tree_frame(ts4, tsz, then_ty.0 as int);
            lemma_resolve_trees(tsz, subst@, then_ty.0 as int, 0);
        }
        let ty = self.apply(then_ty, &subst);
        proof {
            lemma_subst_wf_frame(tsz, self.ts(), subst@, self.nvars(), self.nvars());
            lemma_subst_trees_frame(tsz, self.ts(), subst@);
        }
        Ok((subst, ty))
    }

    /// Allocating a function type of two existing types keeps the invariant.
    proof fn lemma_after_abs(&self, before: Checker)
        requires
            before.inv(),
            self.same_program(&before),
            self.nvars() == before.nvars(),
            self.ts().len() == before.ts().len() + 1,
            extends(before.ts(), self.ts()),
            self.ts().last() matches Type::Abs(p, b) && p.0 < before.ts().len() && b.0 < before.ts().len(),
        ensures
            self.inv(),
    {
        let ts = self.ts();
        let ts0 = before.ts();
        assert forall|i: int| 0 <= i < ts.len() implies match #[trigger] ts[i] {
            Type::Abs(p, b) => p.0 < i && b.0 < i,
            Type::Var(v) => v.0 < self.nvars(),
            _ => true,
        } by {
            if i < ts0.len() {
                assert(ts[i] == ts0[i]);
            }
        }
        assert(ts[self.int_id().0 as int] == ts0[self.int_id().0 as int]);
        assert(ts[self.bool_id().0 as int] == ts0[self.bool_id().0 as int]);
        assert(ts[self.unit_id().0 as int] == ts0[self.unit_id().0 as int]);
    }

    /// A scheme that is well formed keeps the environment it joins well formed.
    proof fn lemma_push_scheme(ts: Seq<Type>, env: Seq<Scheme>, sc: Scheme, n: int)
        requires
            env_wf(ts, env, n),
            scheme_wf(ts, sc, n),
        ensures
            env_wf(ts, env.push(sc), n),
    {
        assert forall|i: int| 0 <= i < env.len() + 1 implies scheme_wf(ts, #[trigger] env.push(sc)[i], n) by {
            if i < env.len() {
                assert(env.push(sc)[i] == env[i]);
            }
        }
    }

    /// The type of the whole expression `expr`, with every variable that
    /// inference bound replaced.
    pub fn infer_top(&mut self, expr: ExprId) -> (res: Result<TypeId, TypeError>)
        requires
            old(self).inv(),
            scoped(old(self).nodes(), old(self).uses(), expr.0 as int, 0),
        ensures
            final(self).grew(old(self)),
            res matches Ok(t) ==> t.0 < final(self).ts().len(),
            res matches Err(e) ==> error_wf(final(self).ts(), e),
            match infer_t(old(self).nodes(), old(self).uses(), seq![], old(self).nvars(), expr.0 as int) {
                Ok((st, t, _)) => res matches Ok(ty) && tree(final(self).ts(), ty.0 as int) == resolve_t(st, t, 0),
                Err(e) => res matches Err(err) && err_tree(final(self).ts(), err) == e,
            },
    {
        let env: Env = Vec::new();
        proof {
            assert(scheme_trees(self.ts(), env@) =~= seq![]);
        }
        let (subst, ty) = self.infer(expr, &env)?;
        let ghost ts1 = self.ts();
        proof {
            lemma_resolve_trees(ts1, subst@, ty.0 as int, 0);
        }
        let t = self.apply(ty, &subst);
        proof {
            self.lemma_inv();
        }
        Ok(t)
    }

    /// Appends how type `id` is written.
    fn push_type(&self, out: &mut String, id: TypeId)
        requires
            self.inv(),
            id.0 < self.ts().len(),
        ensures
            final(out)@ == old(out)@ + type_str(tree(self.ts(), id.0 as int)),
        decreases id.0,
    {
        proof {
            self.lemma_inv();
        }
        match self.types.get(id) {
            Type::Unit => push_str(out, "()"),
            Type::Int => push_str(out, "int"),
            Type::Bool => push_str(out, "bool"),
            Type::Var(var) => {
                push_str(out, "t");
                push_usize(out, var.0);
                proof {
                    reveal_strlit("t");
                    assert(old(out)@ + "t"@ + decimal_chars(var.0 as nat) =~= old(out)@ + var_str(var.0));
                }
            },
            Type::Abs(param, ret) => {
                let ghost before = out@;
                proof {
                    assert(param.0 < id.0 && ret.0 < id.0);
                }
                match self.types.get(param) {
                    Type::Abs(_, _) => {
                        push_str(out, "(");
                        self.push_type(out, param);
                        push_str(out, ")");
                    },
                    _ => self.push_type(out, param),
                }
                push_str(out, " -> ");
                self.push_type(out, ret);
                proof {
                    let p = tree(self.ts(), param.0 as int);
                    let r = tree(self.ts(), ret.0 as int);
                    let ps = match p {
                        Ty::Arrow(_, _) => "("@ + type_str(p) + ")"@,
                        _ => type_str(p),
                    };
                    assert(out@ =~= before + (ps + " -> "@ + type_str(r)));
                }
            },
        }
    }

    /// How type `id` is written.
    pub fn type_to_string(&self, id: TypeId) -> (res: String)
        requires
            self.inv(),
            id.0 < self.ts().len(),
        ensures
            res@ == type_str(tree(self.ts(), id.0 as int)),
    {
        let mut out = String::new();
        self.push_type(&mut out, id);
        proof {
            assert(out@ =~= type_str(tree(self.ts(), id.0 as int)));
        }
        out
    }

    /// How a type variable is written.
    pub fn type_var_to_string(&self, var: TypeVar) -> (res: String)
        ensures
            res@ == var_str(var.0),
    {
        let mut out = String::new();
        push_str(&mut out, "t");
        push_usize(&mut out, var.0);
        proof {
            reveal_strlit("t");
            assert(out@ =~= var_str(var.0));
        }
        out
    }

    /// How a scheme is written: its type, after `forall` and its variables when
    /// it has any.
    pub fn scheme_to_string(&self, scheme: &Scheme) -> (res: String)
        requires
            self.inv(),
            scheme.ty.0 < self.ts().len(),
        ensures
            res@ == if scheme.vars@.len() == 0 {
                type_str(tree(self.ts(), scheme.ty.0 as int))
            } else {
                "forall "@ + vars_str(scheme.vars@) + ". "@ + type_str(tree(self.ts(), scheme.ty.0 as int))
            },
    {
        if scheme.vars.len() == 0 {
            return self.type_to_string(scheme.ty);
        }
        let mut out = String::new();
        push_str(&mut out, "forall ");
        let mut i: usize = 0;
        while i < scheme.vars.len()
            invariant
                i <= scheme.vars@.len(),
                scheme.vars@.len() > 0,
                out@ == "forall "@ + vars_str(scheme.vars@.take(i as int)),
            decreases scheme.vars@.len() - i,
        {
            let ghost before = out@;
            if i > 0 {
                push_str(&mut out, " ");
            }
            let v = self.type_var_to_string(scheme.vars[i]);
            push_str(&mut out, v.as_str());
            proof {
                let vs = scheme.vars@.take(i + 1);
                assert(vs.drop_last() =~= scheme.vars@.take(i as int));
                assert(vs.last() == scheme.vars@[i as int]);
                if i == 0 {
                    assert(vars_str(scheme.vars@.take(0)) =~= Seq::<char>::empty());
                    assert(out@ =~= "forall "@ + vars_str(vs));
                } else {
                    assert(out@ =~= "forall "@ + vars_str(vs));
                }
            }
            i = i + 1;
        }
        push_str(&mut out, ". ");
        self.push_type(&mut out, scheme.ty);
        proof {
            assert(scheme.vars@.take(scheme.vars@.len() as int) =~= scheme.vars@);
            assert(out@ =~= "forall "@ + vars_str(scheme.vars@) + ". "@ + type_str(tree(self.ts(), scheme.ty.0 as int)));
        }
        out
    }

    /// The message for a type error.
    pub fn error_to_string(&self, error: TypeError) -> (res: String)
        requires
            self.inv(),
            error matches TypeError::Mismatch { left, right } ==> left.0 < self.ts().len() && right.0 < self.ts().len(),
            error matches TypeError::InfiniteType { var, ty } ==> ty.0 < self.ts().len(),
        ensures
            res@ == error_str(self.ts(), error),
    {
        let mut out = String::new();
        match error {
            TypeError::Mismatch { left, right } => {
                push_str(&mut out, "type mismatch: ");
                self.push_type(&mut out, left);
                push_str(&mut out, " != ");
                self.push_type(&mut out, right);
            },
            TypeError::InfiniteType { var, ty } => {
                push_str(&mut out, "illegal recursive type: ");
                let v = self.type_var_to_string(var);
                push_str(&mut out, v.as_str());
                push_str(&mut out, " occurs in ");
                self.push_type(&mut out, ty);
            },
            TypeError::Cyclic => {
                push_str(&mut out, "cyclic substitution");
            },
        }
        proof {
            assert(out@ =~= error_str(self.ts(), error));
        }
        out
    }
}

/// Checks expression `expr` of `ast`: the text of its type, or of the error
/// that inference met.
pub fn typecheck(ast: &Ast, expr: ExprId, locals: &AstTable<Option<Local>>) -> (res: Result<String, String>)
    requires
        scoped(ast@, locals@, expr.0 as int, 0),
    ensures
        match infer_t(ast@, locals@, seq![], 0, expr.0 as int) {
            Ok((st, t, _)) => res matches Ok(s) && s@ == type_str(resolve_t(st, t, 0)),
            Err(e) => res matches Err(s) && s@ == ty_error_str(e),
        },
{
    let mut checker = Checker::new(ast, locals);
    match checker.infer_top(expr) {
        Ok(ty) => {
            let s = checker.type_to_string(ty);
            proof {
                assert(s@ == type_str(tree(checker.ts(), ty.0 as int)));
            }
            Ok(s)
        },
        Err(error) => {
            let s = checker.error_to_string(error);
            proof {
                assert(s@ == error_str(checker.ts(), error));
            }
            Err(s)
        },
    }
}

} // verus!
