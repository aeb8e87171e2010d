use vstd::prelude::*;

use crate::arena::Id;
use crate::ast::{nodes_wf, Ast, AstTable, Expr, ExprId, Node, Table};
use crate::diagnostic::{Diagnostic, Severity};
use crate::interner::{Interner, Symbol};
use crate::lexer::Span;
use crate::text::{ascii_chars, push_bytes, push_str};

verus! {

/// The binding a variable refers to: the number of bindings that enclose it.
#[derive(Clone, Copy, Debug, PartialEq, Eq, Structural)]
pub struct Local(pub usize);

/// What the resolver found: for each variable node the binding it uses, and for
/// each binding node (abstraction or `let`) the local it declares.
pub struct Resolution {
    pub uses: AstTable<Option<Local>>,
    pub binders: AstTable<Option<Local>>,
}

/// The position of the innermost binding of `sym` in `env`.
pub open spec fn lookup_env(env: Seq<Symbol>, sym: Symbol) -> Option<int>
    decreases env.len(),
{
    if env.len() == 0 {
        None
    } else if env.last() == sym {
        Some(env.len() - 1)
    } else {
        lookup_env(env.drop_last(), sym)
    }
}

/// A name resolves to its innermost binding: the position found holds the name
/// and no later (inner) position does; no position is found only when the name
/// is bound nowhere.
pub proof fn lemma_lookup_innermost(env: Seq<Symbol>, sym: Symbol)
    ensures
        match lookup_env(env, sym) {
            Some(j) => {
                &&& 0 <= j < env.len()
                &&& env[j] == sym
                &&& forall|k: int| j < k < env.len() ==> env[k] != sym
            },
            None => forall|k: int| 0 <= k < env.len() ==> env[k] != sym,
        },
    decreases env.len(),
{
    if env.len() > 0 && env.last() != sym {
        lemma_lookup_innermost(env.drop_last(), sym);
        assert forall|k: int| 0 <= k < env.len() - 1 implies env[k] == env.drop_last()[k] by {}
    }
}

/// Of two bindings of one name, the later (inner) one is found.
pub proof fn lemma_lookup_shadows(env: Seq<Symbol>, sym: Symbol, i: int, j: int)
    requires
        0 <= i < j < env.len(),
        env[i] == sym,
        env[j] == sym,
    ensures
        lookup_env(env, sym) matches Some(k) && k >= j && k != i,
{
    lemma_lookup_innermost(env, sym);
}

pub type Tables = (Seq<Option<Local>>, Seq<Option<Local>>);

/// Resolves node `id` under the bindings `env` (outermost first), starting from
/// the tables `t`: the tables it produces, or the first variable node whose name
/// is unbound.
pub open spec fn res_node(nodes: Seq<Node>, id: int, env: Seq<Symbol>, t: Tables) -> Result<
    Tables,
    int,
>
    decreases id, 1int,
{
    if !(0 <= id < nodes.len()) {
        Ok(t)
    } else {
        match nodes[id].expr {
            Expr::Lit(_) => Ok(t),
            Expr::Var(sym) => match lookup_env(env, sym) {
                None => Err(id),
                Some(k) => Ok((t.0.update(id, Some(Local(k as usize))), t.1)),
            },
            Expr::Abs(p, b) => res_child(
                nodes,
                id,
                b.0 as int,
                env.push(p),
                (t.0, t.1.update(id, Some(Local(env.len() as usize)))),
            ),
            Expr::App(f, a) => match res_child(nodes, id, f.0 as int, env, t) {
                Err(e) => Err(e),
                Ok(t1) => res_child(nodes, id, a.0 as int, env, t1),
            },
            Expr::Bin(l, _, r) => match res_child(nodes, id, l.0 as int, env, t) {
                Err(e) => Err(e),
                Ok(t1) => res_child(nodes, id, r.0 as int, env, t1),
            },
            Expr::Bind { is_recursive, name, init, body } => if !is_recursive {
                match res_child(nodes, id, init.0 as int, env, t) {
                    Err(e) => Err(e),
                    Ok(t1) => res_child(
                        nodes,
                        id,
                        body.0 as int,
                        env.push(name),
                        (t1.0, t1.1.update(id, Some(Local(env.len() as usize)))),
                    ),
                }
            } else {
                match res_child(
                    nodes,
                    id,
                    init.0 as int,
                    env.push(name),
                    (t.0, t.1.update(id, Some(Local(env.len() as usize)))),
                ) {
                    Err(e) => Err(e),
                    Ok(t1) => res_child(nodes, id, body.0 as int, env.push(name), t1),
                }
            },
            Expr::Cond { cond, then_branch, else_branch } => match res_child(
                nodes,
                id,
                cond.0 as int,
                env,
                t,
            ) {
                Err(e) => Err(e),
                Ok(t1) => match res_child(nodes, id, then_branch.0 as int, env, t1) {
                    Err(e) => Err(e),
                    Ok(t2) => res_child(nodes, id, else_branch.0 as int, env, t2),
                },
            },
        }
    }
}

pub open spec fn res_child(nodes: Seq<Node>, parent: int, c: int, env: Seq<Symbol>, t: Tables) -> Result<
    Tables,
    int,
>
    decreases parent, 0int,
{
    if 0 <= c < parent {
        res_node(nodes, c, env, t)
    } else {
        Ok(t)
    }
}

/// What `resolve` computes for `root`: the tables, or the unbound variable node.
pub open spec fn resolve_spec(nodes: Seq<Node>, root: int) -> Result<Tables, int> {
    res_node(
        nodes,
        root,
        Seq::empty(),
        (Seq::new(nodes.len(), |i: int| None), Seq::new(nodes.len(), |i: int| None)),
    )
}

/// The body of `let x = e in x` refers to that `let`'s own binding, whatever
/// bindings of `x` enclose it: the variable and the binder get the same local,
/// the one just past the enclosing bindings.
pub proof fn lemma_let_shadows(nodes: Seq<Node>, id: int, env: Seq<Symbol>, t: Tables)
    requires
        0 <= id < nodes.len(),
        t.0.len() == nodes.len(),
        t.1.len() == nodes.len(),
        nodes[id].expr matches Expr::Bind { is_recursive, name, body, .. } && !is_recursive && 0
            <= body.0 < id && nodes[body.0 as int].expr == Expr::Var(name),
        res_node(nodes, id, env, t) is Ok,
    ensures
        ({
            let t2 = res_node(nodes, id, env, t)->Ok_0;
            let body = nodes[id].expr->body;
            &&& t2.0[body.0 as int] == Some(Local(env.len() as usize))
            &&& t2.1[id] == Some(Local(env.len() as usize))
        }),
{
    match nodes[id].expr {
        Expr::Bind { is_recursive, name, init, body } => {
            if 0 <= init.0 < id {
                lemma_res_len(nodes, init.0 as int, env, t);
            }
            let t1 = res_child(nodes, id, init.0 as int, env, t)->Ok_0;
            assert(env.push(name).last() == name);
            assert(lookup_env(env.push(name), name) == Some(env.len() as int));
            let tb = (t1.0, t1.1.update(id, Some(Local(env.len() as usize))));
            assert(res_node(nodes, body.0 as int, env.push(name), tb) == Ok::<Tables, int>(
                (tb.0.update(body.0 as int, Some(Local(env.len() as usize))), tb.1),
            ));
        },
        _ => {},
    }
}

/// Resolution keeps the tables' length.
pub proof fn lemma_res_len(nodes: Seq<Node>, id: int, env: Seq<Symbol>, t: Tables)
    requires
        t.0.len() == nodes.len(),
        t.1.len() == nodes.len(),
    ensures
        res_node(nodes, id, env, t) matches Ok(t2) ==> t2.0.len() == nodes.len() && t2.1.len()
            == nodes.len(),
    decreases id,
{
    if 0 <= id < nodes.len() {
        let t1 = (t.0, t.1.update(id, Some(Local(env.len() as usize))));
        match nodes[id].expr {
            Expr::Lit(_) => {},
            Expr::Var(_) => {},
            Expr::Abs(p, b) => {
                if 0 <= b.0 < id {
                    lemma_res_len(nodes, b.0 as int, env.push(p), t1);
                }
            },
            Expr::App(f, a) => {
                if 0 <= f.0 < id {
                    lemma_res_len(nodes, f.0 as int, env, t);
                }
                if let Ok(t2) = res_child(nodes, id, f.0 as int, env, t) {
                    if 0 <= a.0 < id {
                        lemma_res_len(nodes, a.0 as int, env, t2);
                    }
                }
            },
            Expr::Bin(l, _, r) => {
                if 0 <= l.0 < id {
                    lemma_res_len(nodes, l.0 as int, env, t);
                }
                if let Ok(t2) = res_child(nodes, id, l.0 as int, env, t) {
                    if 0 <= r.0 < id {
                        lemma_res_len(nodes, r.0 as int, env, t2);
                    }
                }
            },
            Expr::Bind { is_recursive, name, init, body } => {
                if !is_recursive {
                    if 0 <= init.0 < id {
                        lemma_res_len(nodes, init.0 as int, env, t);
                    }
                    if let Ok(t2) = res_child(nodes, id, init.0 as int, env, t) {
                        if 0 <= body.0 < id {
                            lemma_res_len(
                                nodes,
                                body.0 as int,
                                env.push(name),
                                (t2.0, t2.1.update(id, Some(Local(env.len() as usize)))),
                            );
                        }
                    }
                } else {
                    if 0 <= init.0 < id {
                        lemma_res_len(nodes, init.0 as int, env.push(name), t1);
                    }
                    if let Ok(t2) = res_child(nodes, id, init.0 as int, env.push(name), t1) {
                        if 0 <= body.0 < id {
                            lemma_res_len(nodes, body.0 as int, env.push(name), t2);
                        }
                    }
                }
            },
            Expr::Cond { cond, then_branch, else_branch } => {
                if 0 <= cond.0 < id {
                    lemma_res_len(nodes, cond.0 as int, env, t);
                }
                if let Ok(t2) = res_child(nodes, id, cond.0 as int, env, t) {
                    if 0 <= then_branch.0 < id {
                        lemma_res_len(nodes, then_branch.0 as int, env, t2);
                    }
                    if let Ok(t3) = res_child(nodes, id, then_branch.0 as int, env, t2) {
                        if 0 <= else_branch.0 < id {
                            lemma_res_len(nodes, else_branch.0 as int, env, t3);
                        }
                    }
                }
            },
        }
    }
}

struct Resolver<'a> {
    /// A pointer to the `Ast` to retrieve `Expr`s.
    ast: &'a Ast,
    /// The symbols bound around the node being resolved, outermost first; the
    /// local of a binding is its position.
    scopes: Vec<Symbol>,
    uses: Vec<Option<Local>>,
    binders: Vec<Option<Local>>,
}

impl<'a> Resolver<'a> {
    spec fn tables(&self) -> Tables {
        (self.uses@, self.binders@)
    }

    /// The innermost binding of `sym`.
    fn lookup(&self, sym: Symbol) -> (res: Option<Local>)
        ensures
            match lookup_env(self.scopes@, sym) {
                None => res is None,
                Some(k) => res == Some(Local(k as usize)),
            },
    {
        let mut i = self.scopes.len();
        proof {
            assert(self.scopes@.take(i as int) =~= self.scopes@);
        }
        while i > 0
            invariant
                i <= self.scopes@.len(),
                lookup_env(self.scopes@, sym) == lookup_env(self.scopes@.take(i as int), sym),
            decreases i,
        {
            let ghost env = self.scopes@.take(i as int);
            if self.scopes[i - 1] == sym {
                return Some(Local(i - 1));
            }
            i = i - 1;
            assert(env.drop_last() =~= self.scopes@.take(i as int));
        }
        proof {
            assert(self.scopes@.take(0) =~= Seq::<Symbol>::empty());
        }
        None
    }

    fn resolve(&mut self, expr: ExprId) -> (res: Result<(), ExprId>)
        requires
            nodes_wf(old(self).ast@),
            expr.0 < old(self).ast@.len(),
            old(self).uses@.len() == old(self).ast@.len(),
            old(self).binders@.len() == old(self).ast@.len(),
        ensures
            final(self).ast == old(self).ast,
            final(self).scopes@ == old(self).scopes@,
            match res_node(old(self).ast@, expr.0 as int, old(self).scopes@, old(self).tables()) {
                Ok(t) => res is Ok && final(self).tables() == t,
                Err(e) => res matches Err(id) && id.0 == e,
            },
        decreases expr.0,
    {
        let ghost nodes = self.ast@;
        let ghost env = self.scopes@;
        let e = self.ast.expr(expr);
        proof {
            assert(nodes[expr.0 as int].expr == e);
        }
        match e {
            Expr::Lit(_) => Ok(()),
            Expr::Var(sym) => {
                match self.lookup(sym) {
                    Some(local) => {
                        self.uses.set(expr.0, Some(local));
                        Ok(())
                    },
                    None => Err(expr),
                }
            },
            Expr::Abs(param, body) => {
                let local = Local(self.scopes.len());
                self.binders.set(expr.0, Some(local));
                self.scopes.push(param);
                let r = self.resolve(body);
                self.scopes.pop();
                proof {
                    assert(self.scopes@ =~= env);
                }
                r
            },
            Expr::App(fun, arg) => {
                self.resolve(fun)?;
                proof {
                    lemma_res_len(nodes, fun.0 as int, env, old(self).tables());
                }
                self.resolve(arg)
            },
            Expr::Bin(lhs, _, rhs) => {
                self.resolve(lhs)?;
                proof {
                    lemma_res_len(nodes, lhs.0 as int, env, old(self).tables());
                }
                self.resolve(rhs)
            },
            Expr::Bind { is_recursive, name, init, body } => {
                if !is_recursive {
                    self.resolve(init)?;
                    proof {
                        lemma_res_len(nodes, init.0 as int, env, old(self).tables());
                    }
                    let local = Local(self.scopes.len());
                    self.binders.set(expr.0, Some(local));
                    self.scopes.push(name);
                    let r = self.resolve(body);
                    self.scopes.pop();
                    proof {
                        assert(self.scopes@ =~= env);
                    }
                    r
                } else {
                    let local = Local(self.scopes.len());
                    self.binders.set(expr.0, Some(local));
                    self.scopes.push(name);
                    let ghost t1 = self.tables();
                    let r = self.resolve(init);
                    if r.is_err() {
                        self.scopes.pop();
                        proof {
                            assert(self.scopes@ =~= env);
                        }
                        return r;
                    }
                    proof {
                        lemma_res_len(nodes, init.0 as int, env.push(name), t1);
                    }
                    let r = self.resolve(body);
                    self.scopes.pop();
                    proof {
                        assert(self.scopes@ =~= env);
                    }
                    r
                }
            },
            Expr::Cond { cond, then_branch, else_branch } => {
                self.resolve(cond)?;
                proof {
                    lemma_res_len(nodes, cond.0 as int, env, old(self).tables());
                }
                let ghost t1 = self.tables();
                self.resolve(then_branch)?;
                proof {
                    lemma_res_len(nodes, then_branch.0 as int, env, t1);
                }
                self.resolve(else_branch)
            },
        }
    }
}

/// The message for a variable that no binding encloses.
pub open spec fn unbound_message(name: Seq<u8>) -> Seq<char> {
    "unbound variable `"@ + ascii_chars(name) + "`"@
}

/// Finds the binding of every variable of the expression `root`, or reports
/// the first variable that nothing binds.
pub fn resolve(ast: &Ast, root: ExprId, interner: &Interner) -> (res: Result<
    Resolution,
    Vec<Diagnostic>,
>)
    requires
        ast.wf(),
        root.0 < ast@.len(),
        crate::ast::nodes_symbols_below(ast@, interner.names().len() as int),
    ensures
        match resolve_spec(ast@, root.0 as int) {
            Ok(t) => res matches Ok(r) && r.uses@ == t.0 && r.binders@ == t.1,
            Err(v) => res matches Err(diags) && diags@.len() == 1 && (ast@[v].expr matches Expr::Var(
                sym,
            ) && diags@[0].spec_new(
                Severity::Error,
                unbound_message(interner.names()[sym.0 as int]),
                ast@[v].span,
            )),
        },
{
    let mut uses: Vec<Option<Local>> = Vec::new();
    let mut binders: Vec<Option<Local>> = Vec::new();
    let mut i: usize = 0;
    while i < ast.len()
        invariant
            i <= ast@.len(),
            uses@ == Seq::new(i as nat, |k: int| None::<Local>),
            binders@ == Seq::new(i as nat, |k: int| None::<Local>),
        decreases ast@.len() - i,
    {
        uses.push(None);
        binders.push(None);
        i = i + 1;
        assert(uses@ =~= Seq::new(i as nat, |k: int| None::<Local>));
        assert(binders@ =~= Seq::new(i as nat, |k: int| None::<Local>));
    }
    let mut resolver = Resolver { ast, scopes: Vec::new(), uses, binders };
    proof {
        assert(resolver.scopes@ =~= Seq::<Symbol>::empty());
    }
    match resolver.resolve(root) {
        Ok(()) => Ok(
            Resolution { uses: Table::from_vec(resolver.uses), binders: Table::from_vec(resolver.binders) },
        ),
        Err(var) => {
            proof {
                lemma_unbound_is_var(ast@, root.0 as int, Seq::empty(), (Seq::new(ast@.len(), |i: int| None), Seq::new(ast@.len(), |i: int| None)));
            }
            let sym = match ast.expr(var) {
                Expr::Var(sym) => sym,
                _ => Symbol(0),
            };
            let mut message = String::new();
            push_str(&mut message, "unbound variable `");
            push_bytes(&mut message, interner.lookup(sym));
            push_str(&mut message, "`");
            let mut diags: Vec<Diagnostic> = Vec::new();
            diags.push(Diagnostic::error(message.as_str(), ast.span(var)));
            Err(diags)
        },
    }
}

/// Whether a variable of expression `id` reads local `l`.
pub open spec fn reads_local(nodes: Seq<Node>, uses: Seq<Option<Local>>, id: int, l: Local) -> bool
    decreases id,
{
    if !(0 <= id < nodes.len()) {
        false
    } else {
        match nodes[id].expr {
            Expr::Lit(_) => false,
            Expr::Var(_) => id < uses.len() && uses[id] == Some(l),
            Expr::Abs(_, b) => b.0 < id && reads_local(nodes, uses, b.0 as int, l),
            Expr::App(f, a) => (f.0 < id && reads_local(nodes, uses, f.0 as int, l)) || (a.0 < id
                && reads_local(nodes, uses, a.0 as int, l)),
            Expr::Bin(x, _, y) => (x.0 < id && reads_local(nodes, uses, x.0 as int, l)) || (y.0 < id
                && reads_local(nodes, uses, y.0 as int, l)),
            Expr::Bind { init, body, .. } => (init.0 < id && reads_local(nodes, uses, init.0 as int, l)) || (
            body.0 < id && reads_local(nodes, uses, body.0 as int, l)),
            Expr::Cond { cond, then_branch, else_branch } => (cond.0 < id && reads_local(
                nodes,
                uses,
                cond.0 as int,
                l,
            )) || (then_branch.0 < id && reads_local(nodes, uses, then_branch.0 as int, l)) || (
            else_branch.0 < id && reads_local(nodes, uses, else_branch.0 as int, l)),
        }
    }
}

/// Whether nothing in the scope of binding node `id` reads the local it
/// declares. The scope is the body, and for a recursive `let` also its
/// initializer.
pub open spec fn never_read(nodes: Seq<Node>, uses: Seq<Option<Local>>, binders: Seq<Option<Local>>, id: int) -> bool {
    &&& 0 <= id < binders.len()
    &&& binders[id] matches Some(l)
    &&& match nodes[id].expr {
        Expr::Abs(_, b) => !(b.0 < id && reads_local(nodes, uses, b.0 as int, l)),
        Expr::Bind { is_recursive, init, body, .. } => !(body.0 < id && reads_local(nodes, uses, body.0 as int, l))
            && (is_recursive ==> !(init.0 < id && reads_local(nodes, uses, init.0 as int, l))),
        _ => false,
    }
}

/// The binding nodes of expression `id` whose local is never read, in the
/// order their scopes close: inner scopes first, left to right.
pub open spec fn unused_spec(nodes: Seq<Node>, uses: Seq<Option<Local>>, binders: Seq<Option<Local>>, id: int) -> Seq<
    usize,
>
    decreases id,
{
    if !(0 <= id < nodes.len()) {
        Seq::empty()
    } else {
        let own: Seq<usize> = if never_read(nodes, uses, binders, id) {
            seq![id as usize]
        } else {
            Seq::empty()
        };
        match nodes[id].expr {
            Expr::Lit(_) | Expr::Var(_) => Seq::empty(),
            Expr::Abs(_, b) => (if b.0 < id {
                unused_spec(nodes, uses, binders, b.0 as int)
            } else {
                Seq::empty()
            }) + own,
            Expr::App(x, y) | Expr::Bin(x, _, y) => (if x.0 < id {
                unused_spec(nodes, uses, binders, x.0 as int)
            } else {
                Seq::empty()
            }) + (if y.0 < id {
                unused_spec(nodes, uses, binders, y.0 as int)
            } else {
                Seq::empty()
            }),
            Expr::Bind { init, body, .. } => (if init.0 < id {
                unused_spec(nodes, uses, binders, init.0 as int)
            } else {
                Seq::empty()
            }) + (if body.0 < id {
                unused_spec(nodes, uses, binders, body.0 as int)
            } else {
                Seq::empty()
            }) + own,
            Expr::Cond { cond, then_branch, else_branch } => (if cond.0 < id {
                unused_spec(nodes, uses, binders, cond.0 as int)
            } else {
                Seq::empty()
            }) + (if then_branch.0 < id {
                unused_spec(nodes, uses, binders, then_branch.0 as int)
            } else {
                Seq::empty()
            }) + (if else_branch.0 < id {
                unused_spec(nodes, uses, binders, else_branch.0 as int)
            } else {
                Seq::empty()
            }),
        }
    }
}

/// Every node of `s` is a binding node of the ast whose local is never read.
pub open spec fn all_never_read(nodes: Seq<Node>, uses: Seq<Option<Local>>, binders: Seq<Option<Local>>, s: Seq<usize>) -> bool {
    forall|k: int|
        0 <= k < s.len() ==> (#[trigger] s[k]) < nodes.len() && never_read(nodes, uses, binders, s[k] as int)
}

proof fn lemma_all_never_read_concat(
    nodes: Seq<Node>,
    uses: Seq<Option<Local>>,
    binders: Seq<Option<Local>>,
    a: Seq<usize>,
    b: Seq<usize>,
)
    requires
        all_never_read(nodes, uses, binders, a),
        all_never_read(nodes, uses, binders, b),
    ensures
        all_never_read(nodes, uses, binders, a + b),
{
    assert forall|k: int| 0 <= k < (a + b).len() implies (#[trigger] (a + b)[k]) < nodes.len() && never_read(
        nodes,
        uses,
        binders,
        (a + b)[k] as int,
    ) by {
        if k < a.len() {
            assert((a + b)[k] == a[k]);
        } else {
            assert((a + b)[k] == b[k - a.len()]);
        }
    }
}

/// Every node that `unused_spec` lists is a binding node of the ast whose
/// local is never read.
pub proof fn lemma_unused_are_binders(
    nodes: Seq<Node>,
    uses: Seq<Option<Local>>,
    binders: Seq<Option<Local>>,
    id: int,
)
    requires
        nodes.len() <= usize::MAX,
    ensures
        all_never_read(nodes, uses, binders, unused_spec(nodes, uses, binders, id)),
    decreases id,
{
    let e = Seq::<usize>::empty();
    if 0 <= id < nodes.len() {
        let own: Seq<usize> = if never_read(nodes, uses, binders, id) {
            seq![id as usize]
        } else {
            e
        };
        assert(all_never_read(nodes, uses, binders, own));
        assert(all_never_read(nodes, uses, binders, e));
        match nodes[id].expr {
            Expr::Abs(_, b) => {
                if b.0 < id {
                    lemma_unused_are_binders(nodes, uses, binders, b.0 as int);
                }
                let c = if b.0 < id { unused_spec(nodes, uses, binders, b.0 as int) } else { e };
                lemma_all_never_read_concat(nodes, uses, binders, c, own);
            },
            Expr::App(x, y) | Expr::Bin(x, _, y) => {
                if x.0 < id {
                    lemma_unused_are_binders(nodes, uses, binders, x.0 as int);
                }
                if y.0 < id {
                    lemma_unused_are_binders(nodes, uses, binders, y.0 as int);
                }
                let c1 = if x.0 < id { unused_spec(nodes, uses, binders, x.0 as int) } else { e };
                let c2 = if y.0 < id { unused_spec(nodes, uses, binders, y.0 as int) } else { e };
                lemma_all_never_read_concat(nodes, uses, binders, c1, c2);
            },
            Expr::Bind { init, body, .. } => {
                if init.0 < id {
                    lemma_unused_are_binders(nodes, uses, binders, init.0 as int);
                }
                if body.0 < id {
                    lemma_unused_are_binders(nodes, uses, binders, body.0 as int);
                }
                let c1 = if init.0 < id { unused_spec(nodes, uses, binders, init.0 as int) } else { e };
                let c2 = if body.0 < id { unused_spec(nodes, uses, binders, body.0 as int) } else { e };
                lemma_all_never_read_concat(nodes, uses, binders, c1, c2);
                lemma_all_never_read_concat(nodes, uses, binders, c1 + c2, own);
            },
            Expr::Cond { cond, then_branch, else_branch } => {
                if cond.0 < id {
                    lemma_unused_are_binders(nodes, uses, binders, cond.0 as int);
                }
                if then_branch.0 < id {
                    lemma_unused_are_binders(nodes, uses, binders, then_branch.0 as int);
                }
                if else_branch.0 < id {
                    lemma_unused_are_binders(nodes, uses, binders, else_branch.0 as int);
                }
                let c1 = if cond.0 < id { unused_spec(nodes, uses, binders, cond.0 as int) } else { e };
                let c2 = if then_branch.0 < id { unused_spec(nodes, uses, binders, then_branch.0 as int) } else { e };
                let c3 = if else_branch.0 < id { unused_spec(nodes, uses, binders, else_branch.0 as int) } else { e };
                lemma_all_never_read_concat(nodes, uses, binders, c1, c2);
                lemma_all_never_read_concat(nodes, uses, binders, c1 + c2, c3);
            },
            _ => {},
        }
    }
}

fn reads(ast: &Ast, uses: &AstTable<Option<Local>>, id: ExprId, l: Local) -> (res: bool)
    requires
        ast.wf(),
        id.0 < ast@.len(),
    ensures
        res == reads_local(ast@, uses@, id.0 as int, l),
    decreases id.0,
{
    proof {
        assert(crate::ast::children_before(ast@[id.0 as int].expr, id.0 as int));
    }
    match ast.expr(id) {
        Expr::Lit(_) => false,
        Expr::Var(_) => {
            if id.0 >= uses.len() {
                return false;
            }
            match *uses.get(id) {
                Some(u) => u == l,
                None => false,
            }
        },
        Expr::Abs(_, b) => reads(ast, uses, b, l),
        Expr::App(x, y) | Expr::Bin(x, _, y) => reads(ast, uses, x, l) || reads(ast, uses, y, l),
        Expr::Bind { init, body, .. } => reads(ast, uses, init, l) || reads(ast, uses, body, l),
        Expr::Cond { cond, then_branch, else_branch } => reads(ast, uses, cond, l) || reads(
            ast,
            uses,
            then_branch,
            l,
        ) || reads(ast, uses, else_branch, l),
    }
}

fn is_never_read(ast: &Ast, resolution: &Resolution, id: ExprId) -> (res: bool)
    requires
        ast.wf(),
        id.0 < ast@.len(),
    ensures
        res == never_read(ast@, resolution.uses@, resolution.binders@, id.0 as int),
{
    proof {
        assert(crate::ast::children_before(ast@[id.0 as int].expr, id.0 as int));
    }
    if id.0 >= resolution.binders.len() {
        return false;
    }
    let l = match *resolution.binders.get(id) {
        Some(l) => l,
        None => {
            return false;
        },
    };
    match ast.expr(id) {
        Expr::Abs(_, b) => !reads(ast, &resolution.uses, b, l),
        Expr::Bind { is_recursive, init, body, .. } => !reads(ast, &resolution.uses, body, l) && (!is_recursive
            || !reads(ast, &resolution.uses, init, l)),
        _ => false,
    }
}

fn collect_unused(ast: &Ast, resolution: &Resolution, id: ExprId, out: &mut Vec<usize>)
    requires
        ast.wf(),
        id.0 < ast@.len(),
    ensures
        final(out)@ == old(out)@ + unused_spec(ast@, resolution.uses@, resolution.binders@, id.0 as int),
    decreases id.0,
{
    proof {
        assert(crate::ast::children_before(ast@[id.0 as int].expr, id.0 as int));
    }
    let ghost o = out@;
    match ast.expr(id) {
        Expr::Lit(_) | Expr::Var(_) => {
            assert(out@ =~= o + unused_spec(ast@, resolution.uses@, resolution.binders@, id.0 as int));
        },
        Expr::Abs(_, b) => {
            collect_unused(ast, resolution, b, out);
            if is_never_read(ast, resolution, id) {
                out.push(id.0);
            }
            assert(out@ =~= o + unused_spec(ast@, resolution.uses@, resolution.binders@, id.0 as int));
        },
        Expr::App(x, y) | Expr::Bin(x, _, y) => {
            collect_unused(ast, resolution, x, out);
            collect_unused(ast, resolution, y, out);
            assert(out@ =~= o + unused_spec(ast@, resolution.uses@, resolution.binders@, id.0 as int));
        },
        Expr::Bind { init, body, .. } => {
            collect_unused(ast, resolution, init, out);
            collect_unused(ast, resolution, body, out);
            if is_never_read(ast, resolution, id) {
                out.push(id.0);
            }
            assert(out@ =~= o + unused_spec(ast@, resolution.uses@, resolution.binders@, id.0 as int));
        },
        Expr::Cond { cond, then_branch, else_branch } => {
            collect_unused(ast, resolution, cond, out);
            collect_unused(ast, resolution, then_branch, out);
            collect_unused(ast, resolution, else_branch, out);
            assert(out@ =~= o + unused_spec(ast@, resolution.uses@, resolution.binders@, id.0 as int));
        },
    }
}

/// The binding nodes of `root` whose local nothing reads, in the order
/// their scopes close.
pub fn unused_bindings(ast: &Ast, root: ExprId, resolution: &Resolution) -> (res: Vec<usize>)
    requires
        ast.wf(),
        root.0 < ast@.len(),
    ensures
        res@ == unused_spec(ast@, resolution.uses@, resolution.binders@, root.0 as int),
{
    let mut out: Vec<usize> = Vec::new();
    collect_unused(ast, resolution, root, &mut out);
    assert(out@ =~= unused_spec(ast@, resolution.uses@, resolution.binders@, root.0 as int));
    out
}

/// The name a binding node declares.
pub open spec fn binder_name(e: Expr) -> Symbol {
    match e {
        Expr::Abs(p, _) => p,
        Expr::Bind { name, .. } => name,
        _ => Symbol(0),
    }
}

/// The warning for a binding whose local is never read.
pub open spec fn unused_message(name: Seq<u8>) -> Seq<char> {
    "Local variable `"@ + ascii_chars(name) + "` is defined but never used."@
}

/// A warning for each binding of `root` whose local nothing reads, in the
/// order their scopes close.
pub fn unused_warnings(ast: &Ast, root: ExprId, resolution: &Resolution, interner: &Interner) -> (res: Vec<String>)
    requires
        ast.wf(),
        root.0 < ast@.len(),
        crate::ast::nodes_symbols_below(ast@, interner.names().len() as int),
    ensures
        ({
            let unused = unused_spec(ast@, resolution.uses@, resolution.binders@, root.0 as int);
            &&& res@.len() == unused.len()
            &&& forall|i: int|
                0 <= i < unused.len() ==> (#[trigger] res@[i])@ == unused_message(
                    interner.names()[binder_name(ast@[unused[i] as int].expr).0 as int],
                )
        }),
{
    let unused = unused_bindings(ast, root, resolution);
    proof {
        ast.lemma_len_bound();
        lemma_unused_are_binders(ast@, resolution.uses@, resolution.binders@, root.0 as int);
    }
    let mut out: Vec<String> = Vec::new();
    let mut i: usize = 0;
    while i < unused.len()
        invariant
            i <= unused@.len(),
            out@.len() == i,
            unused@ == unused_spec(ast@, resolution.uses@, resolution.binders@, root.0 as int),
            ast.wf(),
            crate::ast::nodes_symbols_below(ast@, interner.names().len() as int),
            all_never_read(ast@, resolution.uses@, resolution.binders@, unused@),
            forall|k: int|
                0 <= k < i ==> (#[trigger] out@[k])@ == unused_message(
                    interner.names()[binder_name(ast@[unused@[k] as int].expr).0 as int],
                ),
        decreases unused@.len() - i,
    {
        let node = Id(unused[i], std::marker::PhantomData);
        proof {
            assert(crate::ast::symbols_below(ast@[unused@[i as int] as int].expr, interner.names().len() as int));
        }
        let sym = match ast.expr(node) {
            Expr::Abs(p, _) => p,
            Expr::Bind { name, .. } => name,
            _ => Symbol(0),
        };
        let mut message = String::new();
        push_str(&mut message, "Local variable `");
        push_bytes(&mut message, interner.lookup(sym));
        push_str(&mut message, "` is defined but never used.");
        out.push(message);
        i = i + 1;
    }
    out
}

/// Resolution fails only at a variable node of the ast.
pub proof fn lemma_unbound_is_var(nodes: Seq<Node>, id: int, env: Seq<Symbol>, t: Tables)
    ensures
        res_node(nodes, id, env, t) matches Err(v) ==> 0 <= v < nodes.len() && nodes[v].expr is Var,
    decreases id,
{
    if 0 <= id < nodes.len() {
        let t1 = (t.0, t.1.update(id, Some(Local(env.len() as usize))));
        match nodes[id].expr {
            Expr::Lit(_) => {},
            Expr::Var(_) => {},
            Expr::Abs(p, b) => {
                if 0 <= b.0 < id {
                    lemma_unbound_is_var(nodes, b.0 as int, env.push(p), t1);
                }
            },
            Expr::App(f, a) => {
                if 0 <= f.0 < id {
                    lemma_unbound_is_var(nodes, f.0 as int, env, t);
                }
                if let Ok(t2) = res_child(nodes, id, f.0 as int, env, t) {
                    if 0 <= a.0 < id {
                        lemma_unbound_is_var(nodes, a.0 as int, env, t2);
                    }
                }
            },
            Expr::Bin(l, _, r) => {
                if 0 <= l.0 < id {
                    lemma_unbound_is_var(nodes, l.0 as int, env, t);
                }
                if let Ok(t2) = res_child(nodes, id, l.0 as int, env, t) {
                    if 0 <= r.0 < id {
                        lemma_unbound_is_var(nodes, r.0 as int, env, t2);
                    }
                }
            },
            Expr::Bind { is_recursive, name, init, body } => {
                if !is_recursive {
                    if 0 <= init.0 < id {
                        lemma_unbound_is_var(nodes, init.0 as int, env, t);
                    }
                    if let Ok(t2) = res_child(nodes, id, init.0 as int, env, t) {
                        if 0 <= body.0 < id {
                            lemma_unbound_is_var(
                                nodes,
                                body.0 as int,
                                env.push(name),
                                (t2.0, t2.1.update(id, Some(Local(env.len() as usize)))),
                            );
                        }
                    }
                } else {
                    if 0 <= init.0 < id {
                        lemma_unbound_is_var(nodes, init.0 as int, env.push(name), t1);
                    }
                    if let Ok(t2) = res_child(nodes, id, init.0 as int, env.push(name), t1) {
                        if 0 <= body.0 < id {
                            lemma_unbound_is_var(nodes, body.0 as int, env.push(name), t2);
                        }
                    }
                }
            },
            Expr::Cond { cond, then_branch, else_branch } => {
                if 0 <= cond.0 < id {
                    lemma_unbound_is_var(nodes, cond.0 as int, env, t);
                }
                if let Ok(t2) = res_child(nodes, id, cond.0 as int, env, t) {
                    if 0 <= then_branch.0 < id {
                        lemma_unbound_is_var(nodes, then_branch.0 as int, env, t2);
                    }
                    if let Ok(t3) = res_child(nodes, id, then_branch.0 as int, env, t2) {
                        if 0 <= else_branch.0 < id {
                            lemma_unbound_is_var(nodes, else_branch.0 as int, env, t3);
                        }
                    }
                }
            },
        }
    }
}

} // verus!
