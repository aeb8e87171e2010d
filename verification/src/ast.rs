use std::marker::PhantomData;
use vstd::prelude::*;

use crate::arena::{Arena, Id};
use crate::interner::{Interner, Symbol};
use crate::resolver::Local;
use crate::text::{ascii_chars, decimal_chars, int_chars, push_bytes, push_i32, push_repeat, push_str, push_usize};
use crate::lexer::{Span, Token};

verus! {

pub type ExprId = Id<Node>;

#[derive(Clone, Copy, Debug, PartialEq, Eq, Structural)]
pub enum Lit {
    Unit,
    Int(i32),
    Bool(bool),
}

#[derive(Clone, Copy, Debug)]
pub enum Expr {
    Lit(Lit),
    Var(Symbol),
    Abs(Symbol, ExprId),
    App(ExprId, ExprId),
    Bin(ExprId, Token, ExprId),
    Bind { is_recursive: bool, name: Symbol, init: ExprId, body: ExprId },
    Cond { cond: ExprId, then_branch: ExprId, else_branch: ExprId },
}

#[derive(Clone, Copy, Debug)]
pub struct Node {
    pub expr: Expr,
    pub span: Span,
}

/// The children of `e` are nodes allocated before position `k`.
pub open spec fn children_before(e: Expr, k: int) -> bool {
    match e {
        Expr::Lit(_) | Expr::Var(_) => true,
        Expr::Abs(_, b) => b.0 < k,
        Expr::App(f, a) => f.0 < k && a.0 < k,
        Expr::Bin(l, _, r) => l.0 < k && r.0 < k,
        Expr::Bind { init, body, .. } => init.0 < k && body.0 < k,
        Expr::Cond { cond, then_branch, else_branch } => cond.0 < k && then_branch.0 < k
            && else_branch.0 < k,
    }
}

/// The symbols that `e` names are all below `n`.
pub open spec fn symbols_below(e: Expr, n: int) -> bool {
    match e {
        Expr::Var(s) => s.0 < n,
        Expr::Abs(p, _) => p.0 < n,
        Expr::Bind { name, .. } => name.0 < n,
        _ => true,
    }
}

/// Every node only points at nodes allocated before it.
pub open spec fn nodes_wf(nodes: Seq<Node>) -> bool {
    forall|i: int| 0 <= i < nodes.len() ==> children_before(#[trigger] nodes[i].expr, i)
}

/// Every node names symbols below `n`.
pub open spec fn nodes_symbols_below(nodes: Seq<Node>, n: int) -> bool {
    forall|i: int| 0 <= i < nodes.len() ==> symbols_below(#[trigger] nodes[i].expr, n)
}

/// An expression tree with the names spelled out: what an `Ast` node means.
pub enum TermKind {
    Lit(Lit),
    Var(Seq<u8>),
    Abs(Seq<u8>, Box<Term>),
    App(Box<Term>, Box<Term>),
    Bin(Box<Term>, Token, Box<Term>),
    Bind(bool, Seq<u8>, Box<Term>, Box<Term>),
    Cond(Box<Term>, Box<Term>, Box<Term>),
}

pub struct Term {
    pub kind: TermKind,
    pub span: Span,
}

pub open spec fn dummy_term() -> Term {
    Term { kind: TermKind::Lit(Lit::Unit), span: Span { start: 0, end: 0 } }
}

/// The tree rooted at node `id`, its symbols spelled out with `names`.
pub open spec fn term_of(nodes: Seq<Node>, names: Seq<Seq<u8>>, id: int) -> Term
    decreases id, 1int,
{
    if 0 <= id < nodes.len() {
        let n = nodes[id];
        let kind = match n.expr {
            Expr::Lit(l) => TermKind::Lit(l),
            Expr::Var(s) => TermKind::Var(names[s.0 as int]),
            Expr::Abs(p, b) => TermKind::Abs(
                names[p.0 as int],
                Box::new(child_term(nodes, names, id, b.0 as int)),
            ),
            Expr::App(f, a) => TermKind::App(
                Box::new(child_term(nodes, names, id, f.0 as int)),
                Box::new(child_term(nodes, names, id, a.0 as int)),
            ),
            Expr::Bin(l, op, r) => TermKind::Bin(
                Box::new(child_term(nodes, names, id, l.0 as int)),
                op,
                Box::new(child_term(nodes, names, id, r.0 as int)),
            ),
            Expr::Bind { is_recursive, name, init, body } => TermKind::Bind(
                is_recursive,
                names[name.0 as int],
                Box::new(child_term(nodes, names, id, init.0 as int)),
                Box::new(child_term(nodes, names, id, body.0 as int)),
            ),
            Expr::Cond { cond, then_branch, else_branch } => TermKind::Cond(
                Box::new(child_term(nodes, names, id, cond.0 as int)),
                Box::new(child_term(nodes, names, id, then_branch.0 as int)),
                Box::new(child_term(nodes, names, id, else_branch.0 as int)),
            ),
        };
        Term { kind, span: n.span }
    } else {
        dummy_term()
    }
}

pub open spec fn child_term(nodes: Seq<Node>, names: Seq<Seq<u8>>, parent: int, c: int) -> Term
    decreases parent, 0int,
{
    if 0 <= c < parent {
        term_of(nodes, names, c)
    } else {
        dummy_term()
    }
}

/// Extending the nodes and the names leaves the meaning of old nodes as it was.
pub proof fn lemma_term_of_frame(
    nodes: Seq<Node>,
    names: Seq<Seq<u8>>,
    nodes2: Seq<Node>,
    names2: Seq<Seq<u8>>,
    id: int,
)
    requires
        nodes.len() <= nodes2.len(),
        forall|i: int| 0 <= i < nodes.len() ==> nodes2[i] == nodes[i],
        names.len() <= names2.len(),
        forall|i: int| 0 <= i < names.len() ==> names2[i] == names[i],
        nodes_symbols_below(nodes, names.len() as int),
        0 <= id < nodes.len(),
    ensures
        term_of(nodes2, names2, id) == term_of(nodes, names, id),
    decreases id,
{
    let n = nodes[id];
    assert(symbols_below(n.expr, names.len() as int));
    match n.expr {
        Expr::Lit(_) => {},
        Expr::Var(_) => {},
        Expr::Abs(_, b) => {
            if 0 <= b.0 < id {
                lemma_term_of_frame(nodes, names, nodes2, names2, b.0 as int);
            }
        },
        Expr::App(f, a) => {
            if 0 <= f.0 < id {
                lemma_term_of_frame(nodes, names, nodes2, names2, f.0 as int);
            }
            if 0 <= a.0 < id {
                lemma_term_of_frame(nodes, names, nodes2, names2, a.0 as int);
            }
        },
        Expr::Bin(l, _, r) => {
            if 0 <= l.0 < id {
                lemma_term_of_frame(nodes, names, nodes2, names2, l.0 as int);
            }
            if 0 <= r.0 < id {
                lemma_term_of_frame(nodes, names, nodes2, names2, r.0 as int);
            }
        },
        Expr::Bind { init, body, .. } => {
            if 0 <= init.0 < id {
                lemma_term_of_frame(nodes, names, nodes2, names2, init.0 as int);
            }
            if 0 <= body.0 < id {
                lemma_term_of_frame(nodes, names, nodes2, names2, body.0 as int);
            }
        },
        Expr::Cond { cond, then_branch, else_branch } => {
            if 0 <= cond.0 < id {
                lemma_term_of_frame(nodes, names, nodes2, names2, cond.0 as int);
            }
            if 0 <= then_branch.0 < id {
                lemma_term_of_frame(nodes, names, nodes2, names2, then_branch.0 as int);
            }
            if 0 <= else_branch.0 < id {
                lemma_term_of_frame(nodes, names, nodes2, names2, else_branch.0 as int);
            }
        },
    }
}

/// Two spaces for each level of `indent`.
pub open spec fn pad(indent: int) -> Seq<char> {
    Seq::new((2 * indent) as nat, |i: int| ' ')
}

/// The tree below node `id`, one node per line, each child indented one
/// level more than its parent.
#[verifier::opaque]
pub open spec fn pretty_str(
    nodes: Seq<Node>,
    names: Seq<Seq<u8>>,
    uses: Seq<Option<Local>>,
    id: int,
    indent: int,
) -> Seq<char>
    decreases id,
{
    if !(0 <= id < nodes.len()) {
        Seq::empty()
    } else {
        let p = pad(indent);
        let close = p + ")\n"@;
        match nodes[id].expr {
            Expr::Lit(Lit::Unit) => p + ("(lit "@ + "()"@ + ")\n"@),
            Expr::Lit(Lit::Int(n)) => p + ("(lit "@ + int_chars(n as int) + ")\n"@),
            Expr::Lit(Lit::Bool(b)) => p + ("(lit "@ + (if b {
                "true"@
            } else {
                "false"@
            }) + ")\n"@),
            Expr::Var(sym) => p + ("(var "@ + ascii_chars(names[sym.0 as int]) + match uses[id] {
                Some(l) => " :local "@ + decimal_chars(l.0 as nat),
                None => Seq::empty(),
            } + ")\n"@),
            Expr::Abs(param, body) => p + ("(fun "@ + ascii_chars(names[param.0 as int]) + "\n"@) + (if 0 <= body.0 < id { pretty_str(nodes, names, uses, body.0 as int, indent + 1) } else { Seq::empty() }) + close,
            Expr::App(f, a) => p + "(app\n"@ + (if 0 <= f.0 < id { pretty_str(nodes, names, uses, f.0 as int, indent + 1) } else { Seq::empty() }) + (if 0 <= a.0 < id { pretty_str(nodes, names, uses, a.0 as int, indent + 1) } else { Seq::empty() }) + close,
            Expr::Bin(l, op, r) => p + ("(bin "@ + token_str(op) + "\n"@) + (if 0 <= l.0 < id { pretty_str(nodes, names, uses, l.0 as int, indent + 1) } else { Seq::empty() }) + (if 0 <= r.0 < id { pretty_str(nodes, names, uses, r.0 as int, indent + 1) } else { Seq::empty() }) + close,
            Expr::Bind { is_recursive, name, init, body } => p + ("("@ + (if is_recursive {
                "let-rec"@
            } else {
                "let"@
            }) + " "@ + ascii_chars(names[name.0 as int]) + "\n"@) + (if 0 <= init.0 < id { pretty_str(nodes, names, uses, init.0 as int, indent + 1) } else { Seq::empty() }) + (if 0 <= body.0 < id { pretty_str(nodes, names, uses, body.0 as int, indent + 1) } else { Seq::empty() }) + close,
            Expr::Cond { cond, then_branch, else_branch } => p + "(if\n"@ + (if 0 <= cond.0 < id { pretty_str(nodes, names, uses, cond.0 as int, indent + 1) } else { Seq::empty() }) + (if 0 <= then_branch.0 < id { pretty_str(nodes, names, uses, then_branch.0 as int, indent + 1) } else { Seq::empty() }) + (if 0 <= else_branch.0 < id { pretty_str(nodes, names, uses, else_branch.0 as int, indent + 1) } else { Seq::empty() }) + close,
        }
    }
}

/// The source form of a binary operator token.
pub open spec fn token_str(token: Token) -> Seq<char> {
    if token == Token::Plus {
        "+"@
    } else if token == Token::Minus {
        "-"@
    } else if token == Token::Star {
        "*"@
    } else if token == Token::Slash {
        "/"@
    } else if token == Token::EqEq {
        "=="@
    } else if token == Token::BangEq {
        "!="@
    } else if token == Token::Gt {
        ">"@
    } else if token == Token::GtEq {
        ">="@
    } else if token == Token::Lt {
        "<"@
    } else if token == Token::LtEq {
        "<="@
    } else if token == Token::And {
        "and"@
    } else if token == Token::Or {
        "or"@
    } else {
        "?"@
    }
}

/// The expression nodes of a program, in allocation order.
#[derive(Debug)]
pub struct Ast {
    arena: Arena<Node>,
}

impl View for Ast {
    type V = Seq<Node>;

    closed spec fn view(&self) -> Seq<Node> {
        self.arena@
    }
}

impl Ast {
    pub open spec fn wf(&self) -> bool {
        nodes_wf(self@)
    }

    /// An ast never holds more than `usize::MAX` nodes.
    pub proof fn lemma_len_bound(&self)
        ensures
            self@.len() <= usize::MAX,
    {
        self.arena.lemma_len_bound();
    }

    pub fn new() -> (res: Ast)
        ensures
            res@ == Seq::<Node>::empty(),
    {
        Ast { arena: Arena::new() }
    }

    pub fn len(&self) -> (res: usize)
        ensures
            res == self@.len(),
    {
        self.arena.len()
    }

    /// Adds a node and returns its id.
    pub fn allocate(&mut self, expr: Expr, span: Span) -> (id: ExprId)
        ensures
            final(self)@ == old(self)@.push(Node { expr, span }),
            id.0 == old(self)@.len(),
    {
        self.arena.allocate(Node { expr, span })
    }

    pub fn span(&self, id: ExprId) -> (res: Span)
        requires
            id.0 < self@.len(),
        ensures
            res == self@[id.0 as int].span,
    {
        self.arena.get(id).span
    }

    /// The span from the start of `a` to the end of `b`.
    pub fn join_span(&self, a: ExprId, b: ExprId) -> (res: Span)
        requires
            a.0 < self@.len(),
            b.0 < self@.len(),
        ensures
            res.start == self@[a.0 as int].span.start,
            res.end == self@[b.0 as int].span.end,
    {
        self.span(a).union(self.span(b))
    }

    /// The expression of node `id`.
    pub fn expr(&self, id: ExprId) -> (res: Expr)
        requires
            id.0 < self@.len(),
        ensures
            res == self@[id.0 as int].expr,
    {
        self.arena.get(id).expr
    }

    /// The tree below `root`, one node per line, each with the binding that a
    /// variable uses.
    pub fn pretty(&self, root: ExprId, interner: &Interner, locals: &AstTable<Option<Local>>) -> (res: String)
        requires
            self.wf(),
            nodes_symbols_below(self@, interner.names().len() as int),
            locals@.len() == self@.len(),
            root.0 < usize::MAX,
        ensures
            res@ == pretty_str(self@, interner.names(), locals@, root.0 as int, 0),
    {
        let mut out = String::new();
        self.pretty_expr(root, interner, locals, 0, &mut out);
        proof {
            assert(out@ =~= pretty_str(self@, interner.names(), locals@, root.0 as int, 0));
        }
        out
    }

    #[verifier::rlimit(100)]
    #[verifier::spinoff_prover]
    fn pretty_expr(
        &self,
        expr: ExprId,
        interner: &Interner,
        locals: &AstTable<Option<Local>>,
        indent: usize,
        out: &mut String,
    )
        requires
            self.wf(),
            nodes_symbols_below(self@, interner.names().len() as int),
            locals@.len() == self@.len(),
            indent + expr.0 < usize::MAX,
        ensures
            final(out)@ == old(out)@ + pretty_str(self@, interner.names(), locals@, expr.0 as int, indent as int),
        decreases expr.0,
    {
        let ghost names = interner.names();
        let ghost nodes = self@;
        let ghost id = expr.0 as int;
        let ghost d = indent as int;
        let ghost expected = pretty_str(nodes, names, locals@, id, d);
        if expr.0 >= self.len() {
            proof {
                reveal(pretty_str);
                assert(out@ =~= old(out)@ + expected);
            }
            return;
        }
        let ghost p = pad(indent as int);
        let node = self.expr(expr);
        proof {
            assert(children_before(self@[expr.0 as int].expr, expr.0 as int));
            assert(symbols_below(self@[expr.0 as int].expr, names.len() as int));
        }
        self.push_pad(out, indent);
        let ghost start = out@;
        match node {
            Expr::Lit(lit) => {
                push_str(out, "(lit ");
                match lit {
                    Lit::Unit => push_str(out, "()"),
                    Lit::Int(n) => push_i32(out, n),
                    Lit::Bool(b) => push_str(out, if b { "true" } else { "false" }),
                }
                push_str(out, ")\n");
                proof {
                    reveal(pretty_str);
                    reveal_strlit("(lit ())\n");
                    reveal_strlit("(lit ");
                    reveal_strlit("()");
                    reveal_strlit(")\n");
                    assert(out@ =~= old(out)@ + expected);
                }
            },
            Expr::Var(sym) => {
                push_str(out, "(var ");
                push_bytes(out, interner.lookup(sym));
                match *locals.get(expr) {
                    Some(l) => {
                        push_str(out, " :local ");
                        push_usize(out, l.0);
                    },
                    None => {},
                }
                push_str(out, ")\n");
                proof {
                    reveal(pretty_str);
                    assert(out@ =~= old(out)@ + expected);
                }
            },
            Expr::Abs(param, body) => {
                push_str(out, "(fun ");
                push_bytes(out, interner.lookup(param));
                push_str(out, "\n");
                let ghost s1 = out@;
                self.pretty_expr(body, interner, locals, indent + 1, out);
                let ghost s2 = out@;
                self.push_close(out, indent);
                proof {
                    let h = "(fun "@ + ascii_chars(names[param.0 as int]) + "\n"@;
                    let c = pretty_str(nodes, names, locals@, body.0 as int, d + 1);
                    assert(s1 =~= start + h);
                    assert(s2 == s1 + c);
                    assert(expected == p + h + c + (p + ")\n"@)) by {
                        reveal(pretty_str);
                    }
                    assert(out@ =~= old(out)@ + expected);
                }
            },
            Expr::App(f, a) => {
                push_str(out, "(app\n");
                let ghost s1 = out@;
                self.pretty_expr(f, interner, locals, indent + 1, out);
                let ghost s2 = out@;
                self.pretty_expr(a, interner, locals, indent + 1, out);
                let ghost s3 = out@;
                self.push_close(out, indent);
                proof {
                    let c1 = pretty_str(nodes, names, locals@, f.0 as int, d + 1);
                    let c2 = pretty_str(nodes, names, locals@, a.0 as int, d + 1);
                    assert(s2 == s1 + c1);
                    assert(s3 == s2 + c2);
                    assert(expected == p + "(app\n"@ + c1 + c2 + (p + ")\n"@)) by {
                        reveal(pretty_str);
                    }
                    assert(out@ =~= old(out)@ + expected);
                }
            },
            Expr::Bin(l, op, r) => {
                push_str(out, "(bin ");
                push_str(out, pretty_token(op));
                push_str(out, "\n");
                let ghost s1 = out@;
                self.pretty_expr(l, interner, locals, indent + 1, out);
                let ghost s2 = out@;
                self.pretty_expr(r, interner, locals, indent + 1, out);
                let ghost s3 = out@;
                self.push_close(out, indent);
                proof {
                    let h = "(bin "@ + token_str(op) + "\n"@;
                    let c1 = pretty_str(nodes, names, locals@, l.0 as int, d + 1);
                    let c2 = pretty_str(nodes, names, locals@, r.0 as int, d + 1);
                    assert(s1 =~= start + h);
                    assert(s2 == s1 + c1);
                    assert(s3 == s2 + c2);
                    assert(expected == p + h + c1 + c2 + (p + ")\n"@)) by {
                        reveal(pretty_str);
                    }
                    assert(out@ =~= old(out)@ + expected);
                }
            },
            Expr::Bind { is_recursive, name, init, body } => {
                push_str(out, "(");
                push_str(out, if is_recursive { "let-rec" } else { "let" });
                push_str(out, " ");
                push_bytes(out, interner.lookup(name));
                push_str(out, "\n");
                let ghost s1 = out@;
                self.pretty_expr(init, interner, locals, indent + 1, out);
                let ghost s2 = out@;
                self.pretty_expr(body, interner, locals, indent + 1, out);
                let ghost s3 = out@;
                self.push_close(out, indent);
                proof {
                    let h = "("@ + (if is_recursive {
                        "let-rec"@
                    } else {
                        "let"@
                    }) + " "@ + ascii_chars(names[name.0 as int]) + "\n"@;
                    let c1 = pretty_str(nodes, names, locals@, init.0 as int, d + 1);
                    let c2 = pretty_str(nodes, names, locals@, body.0 as int, d + 1);
                    assert(s1 =~= start + h);
                    assert(s2 == s1 + c1);
                    assert(s3 == s2 + c2);
                    assert(expected == p + h + c1 + c2 + (p + ")\n"@)) by {
                        reveal(pretty_str);
                    }
                    assert(out@ =~= old(out)@ + expected);
                }
            },
            Expr::Cond { cond, then_branch, else_branch } => {
                push_str(out, "(if\n");
                let ghost s1 = out@;
                self.pretty_expr(cond, interner, locals, indent + 1, out);
                let ghost s2 = out@;
                self.pretty_expr(then_branch, interner, locals, indent + 1, out);
                let ghost s3 = out@;
                self.pretty_expr(else_branch, interner, locals, indent + 1, out);
                let ghost s4 = out@;
                self.push_close(out, indent);
                proof {
                    let c1 = pretty_str(nodes, names, locals@, cond.0 as int, d + 1);
                    let c2 = pretty_str(nodes, names, locals@, then_branch.0 as int, d + 1);
                    let c3 = pretty_str(nodes, names, locals@, else_branch.0 as int, d + 1);
                    assert(s2 == s1 + c1);
                    assert(s3 == s2 + c2);
                    assert(s4 == s3 + c3);
                    assert(expected == p + "(if\n"@ + c1 + c2 + c3 + (p + ")\n"@)) by {
                        reveal(pretty_str);
                    }
                    assert(out@ =~= old(out)@ + expected);
                }
            },
        }
    }

    /// Appends two spaces for each level of `indent`.
    fn push_pad(&self, out: &mut String, indent: usize)
        ensures
            final(out)@ == old(out)@ + pad(indent as int),
    {
        push_repeat(out, ' ', indent);
        push_repeat(out, ' ', indent);
        proof {
            assert(Seq::new(indent as nat, |i: int| ' ') + Seq::new(indent as nat, |i: int| ' ') =~= pad(indent as int));
            assert(final(out)@ =~= old(out)@ + pad(indent as int));
        }
    }

    /// Appends the line that closes a node at `indent`.
    fn push_close(&self, out: &mut String, indent: usize)
        ensures
            final(out)@ == old(out)@ + (pad(indent as int) + ")\n"@),
    {
        self.push_pad(out, indent);
        push_str(out, ")\n");
        proof {
            assert(final(out)@ =~= old(out)@ + (pad(indent as int) + ")\n"@));
        }
    }

    /// A table with one entry per node, each holding `default`.
    pub fn table<T: Copy>(&self, default: T) -> (res: Table<ExprId, T>)
        ensures
            res@ == Seq::new(self@.len(), |i: int| default),
    {
        let mut items: Vec<T> = Vec::new();
        let mut i: usize = 0;
        while i < self.arena.len()
            invariant
                i <= self@.len(),
                items@ == Seq::new(i as nat, |k: int| default),
            decreases self@.len() - i,
        {
            items.push(default);
            i = i + 1;
            assert(items@ =~= Seq::new(i as nat, |k: int| default));
        }
        Table { items, _indexed_by: PhantomData }
    }
    /// A table with one entry per node, each made by a call of `f`.
    pub fn table_with<T, F: Fn() -> T>(&self, f: F) -> (res: Table<ExprId, T>)
        requires
            call_requires(f, ()),
        ensures
            res@.len() == self@.len(),
            forall|i: int| 0 <= i < res@.len() ==> call_ensures(f, (), #[trigger] res@[i]),
    {
        let mut items: Vec<T> = Vec::new();
        let mut i: usize = 0;
        while i < self.arena.len()
            invariant
                i <= self@.len(),
                items@.len() == i,
                call_requires(f, ()),
                forall|k: int| 0 <= k < i ==> call_ensures(f, (), #[trigger] items@[k]),
            decreases self@.len() - i,
        {
            items.push(f());
            i = i + 1;
        }
        Table { items, _indexed_by: PhantomData }
    }

}

/// Values kept beside the nodes of an arena, one per node.
pub struct Table<I, T> {
    items: Vec<T>,
    _indexed_by: PhantomData<I>,
}

pub type AstTable<T> = Table<ExprId, T>;

impl<I, T> View for Table<I, T> {
    type V = Seq<T>;

    closed spec fn view(&self) -> Seq<T> {
        self.items@
    }
}

impl<N, T> Table<Id<N>, T> {
    pub fn from_vec(items: Vec<T>) -> (res: Self)
        ensures
            res@ == items@,
    {
        Table { items, _indexed_by: PhantomData }
    }

    pub fn len(&self) -> (res: usize)
        ensures
            res == self@.len(),
    {
        self.items.len()
    }

    pub fn get(&self, id: Id<N>) -> (res: &T)
        requires
            id.0 < self@.len(),
        ensures
            *res == self@[id.0 as int],
    {
        &self.items[id.0]
    }

    pub fn set(&mut self, id: Id<N>, value: T)
        requires
            id.0 < old(self)@.len(),
        ensures
            final(self)@ == old(self)@.update(id.0 as int, value),
    {
        self.items.set(id.0, value);
    }
}

/// The source form of a binary operator token.
pub fn pretty_token(token: Token) -> (res: &'static str)
    ensures
        res@ == token_str(token),
{
    match token {
        Token::Plus => "+",
        Token::Minus => "-",
        Token::Star => "*",
        Token::Slash => "/",
        Token::EqEq => "==",
        Token::BangEq => "!=",
        Token::Gt => ">",
        Token::GtEq => ">=",
        Token::Lt => "<",
        Token::LtEq => "<=",
        Token::And => "and",
        Token::Or => "or",
        _ => "?",
    }
}

} // verus!
