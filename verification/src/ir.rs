use vstd::prelude::*;

use crate::ast::{Ast, AstTable, Expr, ExprId, Lit, Node};
use crate::interner::Symbol;
use crate::lexer::Token;
use crate::resolver::{Local, Resolution};
use crate::types::TypeId;

verus! {

pub type FunId = u32;

pub type BlockId = u32;

pub type TempId = u32;

pub type LocalSlot = u32;

pub type EnvSlot = u32;

/// The functions of a lowered program, and the one that runs first.
#[derive(Debug)]
pub struct Program {
    pub funs: Vec<Fun>,
    pub entry: FunId,
}

/// A lowered function: its blocks, and how many locals and temporaries its
/// frame needs.
#[derive(Debug)]
pub struct Fun {
    pub id: FunId,
    pub name: Option<Symbol>,
    pub arity: u16,
    pub captures: Vec<Capture>,
    pub locals: u32,
    pub temps: u32,
    pub blocks: Vec<Block>,
}

#[derive(Clone, Copy, Debug)]
pub struct Capture {
    pub source: CaptureSource,
}

/// Where a captured value comes from in the enclosing frame.
#[derive(Clone, Copy, Debug)]
pub enum CaptureSource {
    Local(LocalSlot),
    Env(EnvSlot),
}

/// Straight-line instructions and the terminator that ends them.
#[derive(Debug)]
pub struct Block {
    pub id: BlockId,
    pub instrs: Vec<Instr>,
    pub term: Terminator,
}

/// Where a value lives, or the value itself.
#[derive(Clone, Copy, Debug, PartialEq, Eq, Structural)]
pub enum Value {
    Temp(TempId),
    Local(LocalSlot),
    Env(EnvSlot),
    Int(i32),
    Bool(bool),
    Unit,
    Fun(FunId),
}

#[derive(Debug)]
pub enum Instr {
    LoadConst { dst: TempId, value: Value },
    Move { dst: TempId, src: Value },
    StoreLocal { dst: LocalSlot, src: Value },
    BinOp { dst: TempId, op: BinOp, lhs: Value, rhs: Value },
    MakeClosure { dst: TempId, fun: FunId, captures: Vec<Value> },
    Call { dst: TempId, callee: Value, args: Vec<Value> },
}

#[derive(Clone, Copy, Debug, PartialEq, Eq, Structural)]
pub enum Terminator {
    Unset,
    Jump(BlockId),
    Branch { cond: Value, then_block: BlockId, else_block: BlockId },
    Return(Value),
}

#[derive(Clone, Copy, Debug, PartialEq, Eq, Structural)]
pub enum BinOp {
    AddInt,
    SubInt,
    MulInt,
    DivInt,
    EqInt,
    EqBool,
    LtInt,
    LeInt,
    GtInt,
    GeInt,
}

/// Why an expression could not be lowered.
#[derive(Clone, Copy, Debug, PartialEq, Eq, Structural)]
pub enum LowerError {
    /// A form that is not lowered yet: the unit literal, a captured variable,
    /// an abstraction, an application, or an operator other than `+ - * /`.
    Unsupported,
    /// A variable, or a binding, that the resolution does not cover.
    Unresolved,
    /// More temporaries, locals or blocks than 32 bits can number.
    Overflow,
}

/// The last slot recorded for `l`.
pub open spec fn slot_for(entries: Seq<(Local, LocalSlot)>, l: Local) -> Option<LocalSlot>
    decreases entries.len(),
{
    if entries.len() == 0 {
        None
    } else if entries.last().0 == l {
        Some(entries.last().1)
    } else {
        slot_for(entries.drop_last(), l)
    }
}

fn find_local(entries: &Vec<(Local, LocalSlot)>, l: Local) -> (res: Option<LocalSlot>)
    ensures
        res == slot_for(entries@, l),
{
    let mut i = entries.len();
    proof {
        assert(entries@.take(i as int) =~= entries@);
    }
    while i > 0
        invariant
            i <= entries@.len(),
            slot_for(entries@, l) == slot_for(entries@.take(i as int), l),
        decreases i,
    {
        proof {
            assert(entries@.take(i as int).drop_last() =~= entries@.take(i - 1));
        }
        if entries[i - 1].0 == l {
            return Some(entries[i - 1].1);
        }
        i = i - 1;
    }
    None
}

/// The state of lowering one function: where instructions go, and the next
/// free temporary and local.
pub struct FunContext {
    pub fun: FunId,
    pub current_block: BlockId,
    pub next_temp: TempId,
    pub next_local: LocalSlot,
    pub resolved_locals: Vec<(Local, LocalSlot)>,
    pub captures: Vec<(Local, EnvSlot)>,
}

impl FunContext {
    pub fn fresh_temp(&mut self) -> (res: Result<TempId, LowerError>)
        ensures
            final(self).fun == old(self).fun,
            final(self).current_block == old(self).current_block,
            final(self).next_local == old(self).next_local,
            final(self).resolved_locals == old(self).resolved_locals,
            old(self).next_temp < u32::MAX ==> res == Ok::<TempId, LowerError>(old(self).next_temp)
                && final(self).next_temp == old(self).next_temp + 1,
            old(self).next_temp == u32::MAX ==> res == Err::<TempId, LowerError>(LowerError::Overflow),
    {
        if self.next_temp == u32::MAX {
            return Err(LowerError::Overflow);
        }
        let temp = self.next_temp;
        self.next_temp = self.next_temp + 1;
        Ok(temp)
    }

    pub fn fresh_local(&mut self) -> (res: Result<LocalSlot, LowerError>)
        ensures
            final(self).fun == old(self).fun,
            final(self).current_block == old(self).current_block,
            final(self).next_temp == old(self).next_temp,
            final(self).resolved_locals == old(self).resolved_locals,
            old(self).next_local < u32::MAX ==> res == Ok::<LocalSlot, LowerError>(old(self).next_local)
                && final(self).next_local == old(self).next_local + 1,
            old(self).next_local == u32::MAX ==> res == Err::<LocalSlot, LowerError>(LowerError::Overflow),
    {
        if self.next_local == u32::MAX {
            return Err(LowerError::Overflow);
        }
        let local = self.next_local;
        self.next_local = self.next_local + 1;
        Ok(local)
    }
}

/// What lowering one function reads and changes, as values: its blocks, each
/// with its instructions and terminator; the block that instructions go to;
/// the next free temporary and local; and the slot of each local so far.
pub struct LowerState {
    pub blocks: Seq<(Seq<Instr>, Terminator)>,
    pub current: BlockId,
    pub next_temp: TempId,
    pub next_local: LocalSlot,
    pub locals: Seq<(Local, LocalSlot)>,
}

/// The blocks of function `f` of `p`, as values.
pub open spec fn block_model(p: Program, f: int) -> Seq<(Seq<Instr>, Terminator)> {
    Seq::new(p.funs@[f].blocks@.len(), |j: int| (p.funs@[f].blocks@[j].instrs@, p.funs@[f].blocks@[j].term))
}

/// Every block of function `f` of `p` has its position as its id.
pub open spec fn block_ids(p: Program, f: int) -> bool {
    forall|j: int| 0 <= j < p.funs@[f].blocks@.len() ==> (#[trigger] p.funs@[f].blocks@[j]).id == j
}

/// The state of lowering the function `cx` points at.
pub open spec fn lower_state(p: Program, cx: FunContext) -> LowerState {
    LowerState {
        blocks: block_model(p, cx.fun as int),
        current: cx.current_block,
        next_temp: cx.next_temp,
        next_local: cx.next_local,
        locals: cx.resolved_locals@,
    }
}

/// The state lowering a function starts from: one empty block, no
/// temporaries and no locals.
pub open spec fn entry_state() -> LowerState {
    LowerState {
        blocks: seq![empty_block()],
        current: 0,
        next_temp: 0,
        next_local: 0,
        locals: Seq::empty(),
    }
}

/// `s` with `i` appended to its current block.
pub open spec fn with_instr(s: LowerState, i: Instr) -> LowerState {
    LowerState {
        blocks: s.blocks.update(s.current as int, (s.blocks[s.current as int].0.push(i), s.blocks[s.current as int].1)),
        ..s
    }
}

/// `s` with its current block ended by `t`.
pub open spec fn with_term(s: LowerState, t: Terminator) -> LowerState {
    LowerState { blocks: s.blocks.update(s.current as int, (s.blocks[s.current as int].0, t)), ..s }
}

/// An empty block that nothing ends yet.
pub open spec fn empty_block() -> (Seq<Instr>, Terminator) {
    (Seq::empty(), Terminator::Unset)
}

/// The operation that an operator token lowers to.
pub open spec fn lower_op(op: Token) -> Option<BinOp> {
    if op == Token::Plus {
        Some(BinOp::AddInt)
    } else if op == Token::Minus {
        Some(BinOp::SubInt)
    } else if op == Token::Star {
        Some(BinOp::MulInt)
    } else if op == Token::Slash {
        Some(BinOp::DivInt)
    } else {
        None
    }
}

/// Lowering expression `id` in state `s`: where its value lives and the
/// state after, or why it cannot be lowered.
///
/// A literal is its own value. A variable lives in the slot of its local. A
/// `let` lowers its initializer, stores it in a fresh local, and lowers its
/// body with the name bound to that local. An operator lowers both operands
/// and computes into a fresh temporary. A conditional lowers its condition,
/// takes a fresh local for its result, and adds a block for each branch and
/// one to join them: the current block branches on the condition, each
/// branch stores its value in the result local and jumps to the join block,
/// where lowering goes on.
pub open spec fn lower_spec(
    nodes: Seq<Node>,
    uses: Seq<Option<Local>>,
    binders: Seq<Option<Local>>,
    id: int,
    s: LowerState,
) -> Result<(Value, LowerState), LowerError>
    decreases id,
{
    if !(0 <= id < nodes.len()) {
        Err(LowerError::Unsupported)
    } else {
        match nodes[id].expr {
            Expr::Lit(Lit::Unit) => Err(LowerError::Unsupported),
            Expr::Lit(Lit::Int(n)) => Ok((Value::Int(n), s)),
            Expr::Lit(Lit::Bool(b)) => Ok((Value::Bool(b), s)),
            Expr::Var(_) => if id >= uses.len() {
                Err(LowerError::Unresolved)
            } else {
                match uses[id] {
                    None => Err(LowerError::Unresolved),
                    Some(l) => match slot_for(s.locals, l) {
                        Some(slot) => Ok((Value::Local(slot), s)),
                        None => Err(LowerError::Unsupported),
                    },
                }
            },
            Expr::Abs(_, _) | Expr::App(_, _) => Err(LowerError::Unsupported),
            Expr::Bind { init, body, .. } => if !(init.0 < id && body.0 < id) {
                Err(LowerError::Unsupported)
            } else {
                match lower_spec(nodes, uses, binders, init.0 as int, s) {
                    Err(e) => Err(e),
                    Ok((v, s1)) => if s1.next_local == u32::MAX {
                        Err(LowerError::Overflow)
                    } else if id >= binders.len() {
                        Err(LowerError::Unresolved)
                    } else {
                        match binders[id] {
                            None => Err(LowerError::Unresolved),
                            Some(b) => {
                                let slot = s1.next_local;
                                let s2 = with_instr(
                                    LowerState {
                                        next_local: (slot + 1) as u32,
                                        locals: s1.locals.push((b, slot)),
                                        ..s1
                                    },
                                    Instr::StoreLocal { dst: slot, src: v },
                                );
                                lower_spec(nodes, uses, binders, body.0 as int, s2)
                            },
                        }
                    },
                }
            },
            Expr::Bin(l, op, r) => if !(l.0 < id && r.0 < id) {
                Err(LowerError::Unsupported)
            } else {
                match lower_spec(nodes, uses, binders, l.0 as int, s) {
                    Err(e) => Err(e),
                    Ok((lv, s1)) => match lower_spec(nodes, uses, binders, r.0 as int, s1) {
                        Err(e) => Err(e),
                        Ok((rv, s2)) => match lower_op(op) {
                            None => Err(LowerError::Unsupported),
                            Some(bop) => if s2.next_temp == u32::MAX {
                                Err(LowerError::Overflow)
                            } else {
                                let dst = s2.next_temp;
                                Ok(
                                    (
                                        Value::Temp(dst),
                                        with_instr(
                                            LowerState { next_temp: (dst + 1) as u32, ..s2 },
                                            Instr::BinOp { dst, op: bop, lhs: lv, rhs: rv },
                                        ),
                                    ),
                                )
                            },
                        },
                    },
                }
            },
            Expr::Cond { cond, then_branch, else_branch } => if !(cond.0 < id && then_branch.0 < id
                && else_branch.0 < id) {
                Err(LowerError::Unsupported)
            } else {
                match lower_spec(nodes, uses, binders, cond.0 as int, s) {
                    Err(e) => Err(e),
                    Ok((cv, s1)) => if s1.next_local == u32::MAX {
                        Err(LowerError::Overflow)
                    } else if s1.blocks.len() >= u32::MAX - 3 {
                        Err(LowerError::Overflow)
                    } else {
                        let rl = s1.next_local;
                        let n = s1.blocks.len();
                        let (tb, eb, jb) = (n as u32, (n + 1) as u32, (n + 2) as u32);
                        let s2 = LowerState {
                            blocks: s1.blocks.push(empty_block()).push(empty_block()).push(empty_block()),
                            next_local: (rl + 1) as u32,
                            ..s1
                        };
                        let s3 = LowerState {
                            current: tb,
                            ..with_term(s2, Terminator::Branch { cond: cv, then_block: tb, else_block: eb })
                        };
                        match lower_spec(nodes, uses, binders, then_branch.0 as int, s3) {
                            Err(e) => Err(e),
                            Ok((tv, s4)) => {
                                let s5 = LowerState {
                                    current: eb,
                                    ..with_term(with_instr(s4, Instr::StoreLocal { dst: rl, src: tv }), Terminator::Jump(jb))
                                };
                                match lower_spec(nodes, uses, binders, else_branch.0 as int, s5) {
                                    Err(e) => Err(e),
                                    Ok((ev, s6)) => Ok(
                                        (
                                            Value::Local(rl),
                                            LowerState {
                                                current: jb,
                                                ..with_term(
                                                    with_instr(s6, Instr::StoreLocal { dst: rl, src: ev }),
                                                    Terminator::Jump(jb),
                                                )
                                            },
                                        ),
                                    ),
                                }
                            },
                        }
                    },
                }
            },
        }
    }
}

/// The operator tokens that lower, and the operations they lower to: `+` to
/// addition, `-` to subtraction, `*` to multiplication and `/` to division.
pub open spec fn lowered_binop(op: Token, b: BinOp) -> bool {
    ||| op == Token::Plus && b == BinOp::AddInt
    ||| op == Token::Minus && b == BinOp::SubInt
    ||| op == Token::Star && b == BinOp::MulInt
    ||| op == Token::Slash && b == BinOp::DivInt
}

/// An operator lowers its left operand, then its right operand, and then
/// appends one instruction that computes the operator's operation on the two
/// operand values into a fresh temporary, which is the operator's value.
pub proof fn lemma_lower_operator(
    nodes: Seq<Node>,
    uses: Seq<Option<Local>>,
    binders: Seq<Option<Local>>,
    id: int,
    s: LowerState,
)
    requires
        0 <= id < nodes.len(),
    ensures
        match (nodes[id].expr, lower_spec(nodes, uses, binders, id, s)) {
            (Expr::Bin(l, op, r), Ok((v, t))) => match lower_spec(nodes, uses, binders, l.0 as int, s) {
                Ok((lv, s1)) => match lower_spec(nodes, uses, binders, r.0 as int, s1) {
                    Ok((rv, s2)) => {
                        &&& s2.next_temp < u32::MAX
                        &&& v == Value::Temp(s2.next_temp)
                        &&& exists|b: BinOp|
                            #[trigger] lowered_binop(op, b) && t == with_instr(
                                LowerState { next_temp: (s2.next_temp + 1) as u32, ..s2 },
                                Instr::BinOp { dst: s2.next_temp, op: b, lhs: lv, rhs: rv },
                            )
                    },
                    Err(_) => false,
                },
                Err(_) => false,
            },
            _ => true,
        },
{
    match (nodes[id].expr, lower_spec(nodes, uses, binders, id, s)) {
        (Expr::Bin(l, op, r), Ok((v, t))) => {
            let b = lower_op(op)->Some_0;
            assert(lowered_binop(op, b));
        },
        _ => {},
    }
}

/// Whether expression `id` has no conditional in it, so that lowering it
/// makes no control flow.
pub open spec fn straight_line(nodes: Seq<Node>, id: int) -> bool
    decreases id,
{
    if !(0 <= id < nodes.len()) {
        true
    } else {
        match nodes[id].expr {
            Expr::Cond { .. } => false,
            Expr::Bind { init, body, .. } => init.0 < id && body.0 < id && straight_line(nodes, init.0 as int)
                && straight_line(nodes, body.0 as int),
            Expr::Bin(l, _, r) => l.0 < id && r.0 < id && straight_line(nodes, l.0 as int) && straight_line(
                nodes,
                r.0 as int,
            ),
            _ => true,
        }
    }
}

/// `new` is `old` with instructions appended to block `b` of function `f`
/// and nothing else changed: the same functions, the same blocks, the same
/// terminators, and the same instructions in every other block.
pub open spec fn appended(old: Program, new: Program, f: int, b: int) -> bool {
    &&& new.funs@.len() == old.funs@.len()
    &&& forall|i: int|
        0 <= i < old.funs@.len() ==> (#[trigger] new.funs@[i]).blocks@.len() == old.funs@[i].blocks@.len()
    &&& forall|i: int, j: int|
        0 <= i < old.funs@.len() && 0 <= j < old.funs@[i].blocks@.len() ==> (#[trigger] new.funs@[i].blocks@[j]).term
            == old.funs@[i].blocks@[j].term
    &&& forall|i: int, j: int|
        0 <= i < old.funs@.len() && 0 <= j < old.funs@[i].blocks@.len() && !(i == f && j == b)
            ==> (#[trigger] new.funs@[i].blocks@[j]).instrs@ == old.funs@[i].blocks@[j].instrs@
    &&& old.funs@[f].blocks@[b].instrs@.len() <= new.funs@[f].blocks@[b].instrs@.len()
    &&& new.funs@[f].blocks@[b].instrs@.subrange(0, old.funs@[f].blocks@[b].instrs@.len() as int)
        == old.funs@[f].blocks@[b].instrs@
}

proof fn lemma_appended_trans(p0: Program, p1: Program, p2: Program, f: int, b: int)
    requires
        0 <= f < p0.funs@.len(),
        0 <= b < p0.funs@[f].blocks@.len(),
        appended(p0, p1, f, b),
        appended(p1, p2, f, b),
    ensures
        appended(p0, p2, f, b),
{
    let s0 = p0.funs@[f].blocks@[b].instrs@;
    let s1 = p1.funs@[f].blocks@[b].instrs@;
    let s2 = p2.funs@[f].blocks@[b].instrs@;
    assert(s2.subrange(0, s0.len() as int) =~= s1.subrange(0, s0.len() as int));
}

proof fn lemma_appended_refl(p: Program, f: int, b: int)
    requires
        0 <= f < p.funs@.len(),
        0 <= b < p.funs@[f].blocks@.len(),
    ensures
        appended(p, p, f, b),
{
    let s = p.funs@[f].blocks@[b].instrs@;
    assert(s.subrange(0, s.len() as int) =~= s);
}

/// Terminator `t` ends its block, and every block it goes to is below `n`.
pub open spec fn ends_within(t: Terminator, n: int) -> bool {
    match t {
        Terminator::Unset => false,
        Terminator::Jump(b) => b < n,
        Terminator::Branch { then_block, else_block, .. } => then_block < n && else_block < n,
        Terminator::Return(_) => true,
    }
}

/// Every block is ended, and only by going to blocks of the same function.
pub open spec fn closed_blocks(blocks: Seq<(Seq<Instr>, Terminator)>) -> bool {
    forall|j: int| 0 <= j < blocks.len() ==> ends_within(#[trigger] blocks[j].1, blocks.len() as int)
}

/// Lowering went from `s` to `t`: blocks were only added; the current block
/// of `t` is open; the blocks of `s` other than its current one kept their
/// terminators; and every other block that is new, or was current in `s`, is
/// ended within the blocks of `t`.
spec fn grows_closed(s: LowerState, t: LowerState) -> bool {
    &&& s.blocks.len() <= t.blocks.len()
    &&& t.current < t.blocks.len()
    &&& t.blocks[t.current as int].1 is Unset
    &&& (t.current == s.current || t.current >= s.blocks.len())
    &&& forall|j: int| 0 <= j < s.blocks.len() && j != s.current ==> #[trigger] t.blocks[j].1 == s.blocks[j].1
    &&& forall|j: int|
        0 <= j < t.blocks.len() && j != t.current && (j >= s.blocks.len() || j == s.current) ==> ends_within(
            #[trigger] t.blocks[j].1,
            t.blocks.len() as int,
        )
}

proof fn lemma_grows_closed_trans(s: LowerState, s1: LowerState, s2: LowerState)
    requires
        grows_closed(s, s1),
        grows_closed(s1, s2),
    ensures
        grows_closed(s, s2),
{
    assert forall|j: int| 0 <= j < s.blocks.len() && j != s.current implies #[trigger] s2.blocks[j].1 == s.blocks[j].1 by {
        assert(s1.blocks[j].1 == s.blocks[j].1);
    }
    assert forall|j: int|
        0 <= j < s2.blocks.len() && j != s2.current && (j >= s.blocks.len() || j == s.current) implies ends_within(
        #[trigger] s2.blocks[j].1,
        s2.blocks.len() as int,
    ) by {
        if !(j >= s1.blocks.len() || j == s1.current) {
            assert(ends_within(s1.blocks[j].1, s1.blocks.len() as int));
            assert(s2.blocks[j].1 == s1.blocks[j].1);
        }
    }
}

/// Appending an instruction to the current block changes no terminator.
proof fn lemma_grows_closed_instr(s: LowerState, i: Instr)
    requires
        s.current < s.blocks.len(),
        s.blocks[s.current as int].1 is Unset,
    ensures
        grows_closed(s, with_instr(s, i)),
{
    let t = with_instr(s, i);
    assert forall|j: int| 0 <= j < s.blocks.len() implies #[trigger] t.blocks[j].1 == s.blocks[j].1 by {}
}

/// What successful lowering of `id` from an open current block gives.
proof fn lemma_lower_grows_closed(
    nodes: Seq<Node>,
    uses: Seq<Option<Local>>,
    binders: Seq<Option<Local>>,
    id: int,
    s: LowerState,
)
    requires
        s.current < s.blocks.len(),
        s.blocks[s.current as int].1 is Unset,
    ensures
        lower_spec(nodes, uses, binders, id, s) matches Ok((_, t)) ==> grows_closed(s, t),
    decreases id, 1int,
{
    if 0 <= id < nodes.len() {
        match nodes[id].expr {
            Expr::Bind { init, body, .. } => {
                if init.0 < id && body.0 < id {
                    lemma_lower_grows_closed(nodes, uses, binders, init.0 as int, s);
                    if let Ok((v, s1)) = lower_spec(nodes, uses, binders, init.0 as int, s) {
                        if s1.next_local != u32::MAX && id < binders.len() && binders[id] is Some {
                            let b = binders[id]->0;
                            let slot = s1.next_local;
                            let s1b = LowerState { next_local: (slot + 1) as u32, locals: s1.locals.push((b, slot)), ..s1 };
                            let s2 = with_instr(s1b, Instr::StoreLocal { dst: slot, src: v });
                            lemma_grows_closed_instr(s1b, Instr::StoreLocal { dst: slot, src: v });
                            assert(grows_closed(s, s1b));
                            lemma_grows_closed_trans(s, s1b, s2);
                            lemma_lower_grows_closed(nodes, uses, binders, body.0 as int, s2);
                            if let Ok((_, s3)) = lower_spec(nodes, uses, binders, body.0 as int, s2) {
                                lemma_grows_closed_trans(s, s2, s3);
                            }
                        }
                    }
                }
            },
            Expr::Bin(l, op, r) => {
                if l.0 < id && r.0 < id {
                    lemma_lower_grows_closed(nodes, uses, binders, l.0 as int, s);
                    if let Ok((lv, s1)) = lower_spec(nodes, uses, binders, l.0 as int, s) {
                        lemma_lower_grows_closed(nodes, uses, binders, r.0 as int, s1);
                        if let Ok((rv, s2)) = lower_spec(nodes, uses, binders, r.0 as int, s1) {
                            lemma_grows_closed_trans(s, s1, s2);
                            if lower_op(op) is Some && s2.next_temp != u32::MAX {
                                let dst = s2.next_temp;
                                let s2b = LowerState { next_temp: (dst + 1) as u32, ..s2 };
                                assert(grows_closed(s, s2b));
                                lemma_grows_closed_instr(s2b, Instr::BinOp { dst, op: lower_op(op)->0, lhs: lv, rhs: rv });
                                lemma_grows_closed_trans(s, s2b, with_instr(s2b, Instr::BinOp { dst, op: lower_op(op)->0, lhs: lv, rhs: rv }));
                            }
                        }
                    }
                }
            },
            Expr::Cond { cond, then_branch, else_branch } => {
                if cond.0 < id && then_branch.0 < id && else_branch.0 < id {
                    lemma_lower_grows_closed_cond(nodes, uses, binders, id, s);
                }
            },
            _ => {},
        }
    }
}

proof fn lemma_lower_grows_closed_cond(
    nodes: Seq<Node>,
    uses: Seq<Option<Local>>,
    binders: Seq<Option<Local>>,
    id: int,
    s: LowerState,
)
    requires
        0 <= id < nodes.len(),
        nodes[id].expr matches Expr::Cond { cond, then_branch, else_branch } && cond.0 < id && then_branch.0
            < id && else_branch.0 < id,
        s.current < s.blocks.len(),
        s.blocks[s.current as int].1 is Unset,
    ensures
        lower_spec(nodes, uses, binders, id, s) matches Ok((_, t)) ==> grows_closed(s, t),
    decreases id, 0int,
{
    if let Expr::Cond { cond, then_branch, else_branch } = nodes[id].expr {
        lemma_lower_grows_closed(nodes, uses, binders, cond.0 as int, s);
        if let Ok((cv, s1)) = lower_spec(nodes, uses, binders, cond.0 as int, s) {
            if s1.next_local != u32::MAX && s1.blocks.len() < u32::MAX - 3 {
                let rl = s1.next_local;
                let n = s1.blocks.len();
                let tb = n as u32;
                let eb = (n + 1) as u32;
                let jb = (n + 2) as u32;
                let s2 = LowerState {
                    blocks: s1.blocks.push(empty_block()).push(empty_block()).push(empty_block()),
                    next_local: (rl + 1) as u32,
                    ..s1
                };
                let s3 = LowerState {
                    current: tb,
                    ..with_term(s2, Terminator::Branch { cond: cv, then_block: tb, else_block: eb })
                };
                assert(s3.blocks[tb as int].1 is Unset);
                assert(s3.blocks[eb as int].1 is Unset);
                assert(s3.blocks[jb as int].1 is Unset);
                lemma_lower_grows_closed(nodes, uses, binders, then_branch.0 as int, s3);
                if let Ok((tv, s4)) = lower_spec(nodes, uses, binders, then_branch.0 as int, s3) {
                    let s5 = LowerState {
                        current: eb,
                        ..with_term(with_instr(s4, Instr::StoreLocal { dst: rl, src: tv }), Terminator::Jump(jb))
                    };
                    assert(s4.blocks[eb as int].1 == s3.blocks[eb as int].1);
                    assert(s4.blocks[jb as int].1 == s3.blocks[jb as int].1);
                    assert(s5.blocks[eb as int].1 is Unset);
                    assert(s5.blocks[jb as int].1 is Unset);
                    lemma_lower_grows_closed(nodes, uses, binders, else_branch.0 as int, s5);
                    if let Ok((ev, s6)) = lower_spec(nodes, uses, binders, else_branch.0 as int, s5) {
                        let t = LowerState {
                            current: jb,
                            ..with_term(with_instr(s6, Instr::StoreLocal { dst: rl, src: ev }), Terminator::Jump(jb))
                        };
                        assert(lower_spec(nodes, uses, binders, id, s) == Ok::<(Value, LowerState), LowerError>((Value::Local(rl), t)));
                        assert(s6.blocks[jb as int].1 == s5.blocks[jb as int].1);
                        assert(t.blocks[jb as int].1 is Unset);
                        assert forall|j: int| 0 <= j < s.blocks.len() && j != s.current implies #[trigger] t.blocks[j].1
                            == s.blocks[j].1 by {
                            assert(s1.blocks[j].1 == s.blocks[j].1);
                            assert(s3.blocks[j].1 == s1.blocks[j].1);
                            assert(s4.blocks[j].1 == s3.blocks[j].1);
                            assert(s5.blocks[j].1 == s4.blocks[j].1);
                            assert(s6.blocks[j].1 == s5.blocks[j].1);
                        }
                        assert forall|j: int|
                            0 <= j < t.blocks.len() && j != t.current && (j >= s.blocks.len() || j == s.current)
                                implies ends_within(#[trigger] t.blocks[j].1, t.blocks.len() as int) by {
                            if j != s6.current {
                                assert(t.blocks[j].1 == s6.blocks[j].1);
                                if j >= s5.blocks.len() || j == s5.current {
                                    assert(ends_within(s6.blocks[j].1, s6.blocks.len() as int));
                                } else {
                                    assert(s6.blocks[j].1 == s5.blocks[j].1);
                                    if j != s4.current {
                                        assert(s5.blocks[j].1 == s4.blocks[j].1);
                                        if j >= s3.blocks.len() || j == s3.current {
                                            assert(ends_within(s4.blocks[j].1, s4.blocks.len() as int));
                                        } else {
                                            assert(s4.blocks[j].1 == s3.blocks[j].1);
                                            if j != s1.current {
                                                assert(s3.blocks[j].1 == s1.blocks[j].1);
                                                assert(ends_within(s1.blocks[j].1, s1.blocks.len() as int));
                                            }
                                        }
                                    }
                                }
                            }
                        }
                    }
                }
            }
        }
    }
}

/// Lowering that succeeds leaves every block of the function ended, and
/// every jump and branch goes to a block of the function.
pub proof fn lemma_lowering_closed(
    nodes: Seq<Node>,
    uses: Seq<Option<Local>>,
    binders: Seq<Option<Local>>,
    id: int,
)
    ensures
        lower_spec(nodes, uses, binders, id, entry_state()) matches Ok((v, st)) ==> closed_blocks(
            with_term(st, Terminator::Return(v)).blocks,
        ),
{
    let s = entry_state();
    lemma_lower_grows_closed(nodes, uses, binders, id, s);
    if let Ok((v, st)) = lower_spec(nodes, uses, binders, id, s) {
        let b = with_term(st, Terminator::Return(v)).blocks;
        assert forall|j: int| 0 <= j < b.len() implies ends_within(#[trigger] b[j].1, b.len() as int) by {
            if j != st.current {
                assert(b[j].1 == st.blocks[j].1);
            }
        }
    }
}

/// Value `v` names only local slots below `nl` and temporaries below `nt`.
pub open spec fn value_within(v: Value, nl: int, nt: int) -> bool {
    match v {
        Value::Temp(t) => t < nt,
        Value::Local(l) => l < nl,
        Value::Env(_) | Value::Fun(_) => false,
        _ => true,
    }
}

/// Instruction `i` writes and reads only local slots below `nl` and
/// temporaries below `nt`.
pub open spec fn instr_within(i: Instr, nl: int, nt: int) -> bool {
    match i {
        Instr::StoreLocal { dst, src } => dst < nl && value_within(src, nl, nt),
        Instr::BinOp { dst, lhs, rhs, .. } => dst < nt && value_within(lhs, nl, nt) && value_within(rhs, nl, nt),
        Instr::LoadConst { dst, value } => dst < nt && value_within(value, nl, nt),
        Instr::Move { dst, src } => dst < nt && value_within(src, nl, nt),
        _ => false,
    }
}

/// Terminator `t` reads only local slots below `nl` and temporaries below `nt`.
pub open spec fn term_within(t: Terminator, nl: int, nt: int) -> bool {
    match t {
        Terminator::Branch { cond, .. } => value_within(cond, nl, nt),
        Terminator::Return(v) => value_within(v, nl, nt),
        _ => true,
    }
}

/// Every instruction and terminator of `blocks` uses only local slots below
/// `nl` and temporaries below `nt`.
pub open spec fn slots_within(blocks: Seq<(Seq<Instr>, Terminator)>, nl: int, nt: int) -> bool {
    &&& forall|j: int, k: int|
        0 <= j < blocks.len() && 0 <= k < blocks[j].0.len() ==> instr_within(#[trigger] blocks[j].0[k], nl, nt)
    &&& forall|j: int| 0 <= j < blocks.len() ==> term_within(#[trigger] blocks[j].1, nl, nt)
}

/// The blocks of `s` and the slots it gives its locals stay below its counters.
spec fn slots_ok(s: LowerState) -> bool {
    &&& s.current < s.blocks.len()
    &&& slots_within(s.blocks, s.next_local as int, s.next_temp as int)
    &&& forall|i: int| 0 <= i < s.locals.len() ==> (#[trigger] s.locals[i]).1 < s.next_local
}

proof fn lemma_slot_for_below(entries: Seq<(Local, LocalSlot)>, l: Local, n: int)
    requires
        forall|i: int| 0 <= i < entries.len() ==> (#[trigger] entries[i]).1 < n,
    ensures
        slot_for(entries, l) matches Some(x) ==> x < n,
    decreases entries.len(),
{
    if entries.len() > 0 {
        assert(entries.last() == entries[entries.len() - 1]);
        let d = entries.drop_last();
        assert forall|i: int| 0 <= i < d.len() implies (#[trigger] d[i]).1 < n by {
            assert(d[i] == entries[i]);
        }
        lemma_slot_for_below(d, l, n);
    }
}

proof fn lemma_within_mono(b: Seq<(Seq<Instr>, Terminator)>, nl: int, nt: int, nl2: int, nt2: int)
    requires
        slots_within(b, nl, nt),
        nl <= nl2,
        nt <= nt2,
    ensures
        slots_within(b, nl2, nt2),
{
    assert forall|j: int, k: int| 0 <= j < b.len() && 0 <= k < b[j].0.len() implies instr_within(
        #[trigger] b[j].0[k],
        nl2,
        nt2,
    ) by {
        assert(instr_within(b[j].0[k], nl, nt));
    }
    assert forall|j: int| 0 <= j < b.len() implies term_within(#[trigger] b[j].1, nl2, nt2) by {
        assert(term_within(b[j].1, nl, nt));
    }
}

proof fn lemma_within_instr(s: LowerState, i: Instr)
    requires
        slots_ok(s),
        instr_within(i, s.next_local as int, s.next_temp as int),
    ensures
        slots_ok(with_instr(s, i)),
{
    let t = with_instr(s, i);
    let (nl, nt) = (s.next_local as int, s.next_temp as int);
    assert forall|j: int, k: int| 0 <= j < t.blocks.len() && 0 <= k < t.blocks[j].0.len() implies instr_within(
        #[trigger] t.blocks[j].0[k],
        nl,
        nt,
    ) by {
        if j != s.current {
            assert(t.blocks[j] == s.blocks[j]);
        } else if k < s.blocks[j].0.len() {
            assert(t.blocks[j].0[k] == s.blocks[j].0[k]);
        }
    }
    assert forall|j: int| 0 <= j < t.blocks.len() implies term_within(#[trigger] t.blocks[j].1, nl, nt) by {
        assert(t.blocks[j].1 == s.blocks[j].1);
    }
}

proof fn lemma_within_term(s: LowerState, term: Terminator)
    requires
        slots_ok(s),
        term_within(term, s.next_local as int, s.next_temp as int),
    ensures
        slots_ok(with_term(s, term)),
{
    let t = with_term(s, term);
    let (nl, nt) = (s.next_local as int, s.next_temp as int);
    assert forall|j: int, k: int| 0 <= j < t.blocks.len() && 0 <= k < t.blocks[j].0.len() implies instr_within(
        #[trigger] t.blocks[j].0[k],
        nl,
        nt,
    ) by {
        assert(t.blocks[j].0 == s.blocks[j].0);
    }
    assert forall|j: int| 0 <= j < t.blocks.len() implies term_within(#[trigger] t.blocks[j].1, nl, nt) by {
        if j != s.current {
            assert(t.blocks[j] == s.blocks[j]);
        }
    }
}

/// Successful lowering keeps every slot below the counters, which only grow,
/// and gives a value that stays below them too.
proof fn lemma_lower_slots(
    nodes: Seq<Node>,
    uses: Seq<Option<Local>>,
    binders: Seq<Option<Local>>,
    id: int,
    s: LowerState,
)
    requires
        slots_ok(s),
    ensures
        lower_spec(nodes, uses, binders, id, s) matches Ok((v, t)) ==> {
            &&& slots_ok(t)
            &&& s.blocks.len() <= t.blocks.len()
            &&& s.next_local <= t.next_local
            &&& s.next_temp <= t.next_temp
            &&& value_within(v, t.next_local as int, t.next_temp as int)
        },
    decreases id,
{
    if 0 <= id < nodes.len() {
        match nodes[id].expr {
            Expr::Var(_) => {
                if id < uses.len() && uses[id] is Some {
                    lemma_slot_for_below(s.locals, uses[id]->0, s.next_local as int);
                }
            },
            Expr::Bind { init, body, .. } => {
                if init.0 < id && body.0 < id {
                    lemma_lower_slots(nodes, uses, binders, init.0 as int, s);
                    if let Ok((v, s1)) = lower_spec(nodes, uses, binders, init.0 as int, s) {
                        if s1.next_local != u32::MAX && id < binders.len() && binders[id] is Some {
                            let b = binders[id]->0;
                            let slot = s1.next_local;
                            let s1b = LowerState { next_local: (slot + 1) as u32, locals: s1.locals.push((b, slot)), ..s1 };
                            lemma_within_mono(s1.blocks, s1.next_local as int, s1.next_temp as int, s1b.next_local as int, s1b.next_temp as int);
                            assert forall|i: int| 0 <= i < s1b.locals.len() implies (#[trigger] s1b.locals[i]).1 < s1b.next_local by {
                                if i < s1.locals.len() {
                                    assert(s1b.locals[i] == s1.locals[i]);
                                }
                            }
                            assert(slots_ok(s1b));
                            lemma_within_instr(s1b, Instr::StoreLocal { dst: slot, src: v });
                            let s2 = with_instr(s1b, Instr::StoreLocal { dst: slot, src: v });
                            lemma_lower_slots(nodes, uses, binders, body.0 as int, s2);
                        }
                    }
                }
            },
            Expr::Bin(l, op, r) => {
                if l.0 < id && r.0 < id {
                    lemma_lower_slots(nodes, uses, binders, l.0 as int, s);
                    if let Ok((lv, s1)) = lower_spec(nodes, uses, binders, l.0 as int, s) {
                        lemma_lower_slots(nodes, uses, binders, r.0 as int, s1);
                        if let Ok((rv, s2)) = lower_spec(nodes, uses, binders, r.0 as int, s1) {
                            if lower_op(op) is Some && s2.next_temp != u32::MAX {
                                let dst = s2.next_temp;
                                let s2b = LowerState { next_temp: (dst + 1) as u32, ..s2 };
                                lemma_within_mono(s2.blocks, s2.next_local as int, s2.next_temp as int, s2b.next_local as int, s2b.next_temp as int);
                                lemma_within_instr(s2b, Instr::BinOp { dst, op: lower_op(op)->0, lhs: lv, rhs: rv });
                            }
                        }
                    }
                }
            },
            Expr::Cond { cond, then_branch, else_branch } => {
                if cond.0 < id && then_branch.0 < id && else_branch.0 < id {
                    lemma_lower_slots(nodes, uses, binders, cond.0 as int, s);
                    if let Ok((cv, s1)) = lower_spec(nodes, uses, binders, cond.0 as int, s) {
                        if s1.next_local != u32::MAX && s1.blocks.len() < u32::MAX - 3 {
                            let rl = s1.next_local;
                            let n = s1.blocks.len();
                            let tb = n as u32;
                            let eb = (n + 1) as u32;
                            let jb = (n + 2) as u32;
                            let s2 = LowerState {
                                blocks: s1.blocks.push(empty_block()).push(empty_block()).push(empty_block()),
                                next_local: (rl + 1) as u32,
                                ..s1
                            };
                            lemma_within_mono(s1.blocks, s1.next_local as int, s1.next_temp as int, s2.next_local as int, s2.next_temp as int);
                            let bl = s2.blocks;
                            assert forall|j: int, k: int| 0 <= j < bl.len() && 0 <= k < bl[j].0.len() implies instr_within(
                                #[trigger] bl[j].0[k],
                                s2.next_local as int,
                                s2.next_temp as int,
                            ) by {
                                assert(j < n);
                                assert(bl[j] == s1.blocks[j]);
                            }
                            assert forall|j: int| 0 <= j < bl.len() implies term_within(#[trigger] bl[j].1, s2.next_local as int, s2.next_temp as int) by {
                                if j < n {
                                    assert(bl[j] == s1.blocks[j]);
                                }
                            }
                            assert(slots_ok(s2));
                            lemma_within_term(s2, Terminator::Branch { cond: cv, then_block: tb, else_block: eb });
                            let s3 = LowerState {
                                current: tb,
                                ..with_term(s2, Terminator::Branch { cond: cv, then_block: tb, else_block: eb })
                            };
                            lemma_lower_slots(nodes, uses, binders, then_branch.0 as int, s3);
                            if let Ok((tv, s4)) = lower_spec(nodes, uses, binders, then_branch.0 as int, s3) {
                                lemma_within_instr(s4, Instr::StoreLocal { dst: rl, src: tv });
                                let s4b = with_instr(s4, Instr::StoreLocal { dst: rl, src: tv });
                                lemma_within_term(s4b, Terminator::Jump(jb));
                                let s5 = LowerState { current: eb, ..with_term(s4b, Terminator::Jump(jb)) };
                                lemma_lower_slots(nodes, uses, binders, else_branch.0 as int, s5);
                                if let Ok((ev, s6)) = lower_spec(nodes, uses, binders, else_branch.0 as int, s5) {
                                    lemma_within_instr(s6, Instr::StoreLocal { dst: rl, src: ev });
                                    let s6b = with_instr(s6, Instr::StoreLocal { dst: rl, src: ev });
                                    lemma_within_term(s6b, Terminator::Jump(jb));
                                }
                            }
                        }
                    }
                }
            },
            _ => {},
        }
    }
}

/// Lowering that succeeds uses, in every instruction and terminator, only
/// local slots and temporaries below the counts it ends with.
pub proof fn lemma_lowering_slots(
    nodes: Seq<Node>,
    uses: Seq<Option<Local>>,
    binders: Seq<Option<Local>>,
    id: int,
)
    ensures
        lower_spec(nodes, uses, binders, id, entry_state()) matches Ok((v, st)) ==> slots_within(
            with_term(st, Terminator::Return(v)).blocks,
            st.next_local as int,
            st.next_temp as int,
        ),
{
    let s = entry_state();
    assert(slots_ok(s));
    lemma_lower_slots(nodes, uses, binders, id, s);
    if let Ok((v, st)) = lower_spec(nodes, uses, binders, id, s) {
        lemma_within_term(st, Terminator::Return(v));
    }
}

/// Expression `id` is made only of what lowering handles: integer and
/// boolean literals, variables bound to a local of `bound`, `let`s that bind
/// a local, `+ - * /` and conditionals.
pub open spec fn lowerable(
    nodes: Seq<Node>,
    uses: Seq<Option<Local>>,
    binders: Seq<Option<Local>>,
    id: int,
    bound: Set<Local>,
) -> bool
    decreases id,
{
    if !(0 <= id < nodes.len()) {
        false
    } else {
        match nodes[id].expr {
            Expr::Lit(Lit::Int(_)) | Expr::Lit(Lit::Bool(_)) => true,
            Expr::Var(_) => id < uses.len() && uses[id] is Some && bound.contains(uses[id]->0),
            Expr::Bind { init, body, .. } => init.0 < id && body.0 < id && id < binders.len() && binders[id] is Some
                && lowerable(nodes, uses, binders, init.0 as int, bound) && lowerable(
                nodes,
                uses,
                binders,
                body.0 as int,
                bound.insert(binders[id]->0),
            ),
            Expr::Bin(l, op, r) => l.0 < id && r.0 < id && lower_op(op) is Some && lowerable(
                nodes,
                uses,
                binders,
                l.0 as int,
                bound,
            ) && lowerable(nodes, uses, binders, r.0 as int, bound),
            Expr::Cond { cond, then_branch, else_branch } => cond.0 < id && then_branch.0 < id && else_branch.0
                < id && lowerable(nodes, uses, binders, cond.0 as int, bound) && lowerable(
                nodes,
                uses,
                binders,
                then_branch.0 as int,
                bound,
            ) && lowerable(nodes, uses, binders, else_branch.0 as int, bound),
            _ => false,
        }
    }
}

/// The number of nodes of expression `id`.
pub open spec fn lsize(nodes: Seq<Node>, id: int) -> nat
    decreases id,
{
    if !(0 <= id < nodes.len()) {
        1
    } else {
        match nodes[id].expr {
            Expr::Bind { init, body, .. } => if init.0 < id && body.0 < id {
                1 + lsize(nodes, init.0 as int) + lsize(nodes, body.0 as int)
            } else {
                1
            },
            Expr::Bin(l, _, r) => if l.0 < id && r.0 < id {
                1 + lsize(nodes, l.0 as int) + lsize(nodes, r.0 as int)
            } else {
                1
            },
            Expr::Cond { cond, then_branch, else_branch } => if cond.0 < id && then_branch.0 < id && else_branch.0
                < id {
                1 + lsize(nodes, cond.0 as int) + lsize(nodes, then_branch.0 as int) + lsize(
                    nodes,
                    else_branch.0 as int,
                )
            } else {
                1
            },
            _ => 1,
        }
    }
}

/// Every local of `bound` has a slot in `locals`.
spec fn covers(locals: Seq<(Local, LocalSlot)>, bound: Set<Local>) -> bool {
    forall|l: Local| #[trigger] bound.contains(l) ==> slot_for(locals, l) is Some
}

/// A local keeps a slot when more locals are recorded after it.
proof fn lemma_slot_for_prefix(a: Seq<(Local, LocalSlot)>, b: Seq<(Local, LocalSlot)>, l: Local)
    requires
        a.len() <= b.len(),
        b.subrange(0, a.len() as int) == a,
        slot_for(a, l) is Some,
    ensures
        slot_for(b, l) is Some,
    decreases b.len(),
{
    if b.len() > a.len() {
        if b.last().0 != l {
            let d = b.drop_last();
            assert(d.subrange(0, a.len() as int) =~= b.subrange(0, a.len() as int));
            lemma_slot_for_prefix(a, d, l);
        }
    } else {
        assert(b =~= a);
    }
}

/// Lowering what it handles succeeds while its counters have room, and
/// only adds locals.
proof fn lemma_lower_ok(
    nodes: Seq<Node>,
    uses: Seq<Option<Local>>,
    binders: Seq<Option<Local>>,
    id: int,
    s: LowerState,
    bound: Set<Local>,
)
    requires
        lowerable(nodes, uses, binders, id, bound),
        covers(s.locals, bound),
        s.current < s.blocks.len(),
        s.next_temp + lsize(nodes, id) < u32::MAX,
        s.next_local + lsize(nodes, id) < u32::MAX,
        s.blocks.len() + 3 * lsize(nodes, id) + 3 < u32::MAX,
    ensures
        lower_spec(nodes, uses, binders, id, s) matches Ok((_, t)) && {
            &&& t.current < t.blocks.len()
            &&& s.blocks.len() <= t.blocks.len()
            &&& s.next_temp <= t.next_temp
            &&& s.next_local <= t.next_local
            &&& t.next_temp + 1 <= s.next_temp + lsize(nodes, id)
            &&& t.next_local + 1 <= s.next_local + lsize(nodes, id)
            &&& t.blocks.len() + 3 <= s.blocks.len() + 3 * lsize(nodes, id)
            &&& s.locals.len() <= t.locals.len()
            &&& t.locals.subrange(0, s.locals.len() as int) == s.locals
        },
    decreases id,
{
    assert(s.locals.subrange(0, s.locals.len() as int) =~= s.locals);
    match nodes[id].expr {
        Expr::Var(_) => {
            assert(bound.contains(uses[id]->0));
        },
        Expr::Bind { init, body, .. } => {
            assert(lsize(nodes, id) == 1 + lsize(nodes, init.0 as int) + lsize(nodes, body.0 as int));
            lemma_lower_ok(nodes, uses, binders, init.0 as int, s, bound);
            let (v, s1) = lower_spec(nodes, uses, binders, init.0 as int, s)->Ok_0;
            let b = binders[id]->0;
            let slot = s1.next_local;
            let s1b = LowerState { next_local: (slot + 1) as u32, locals: s1.locals.push((b, slot)), ..s1 };
            let s2 = with_instr(s1b, Instr::StoreLocal { dst: slot, src: v });
            assert(s1.blocks.len() + 3 <= s.blocks.len() + 3 * lsize(nodes, init.0 as int));
            assert(s2.blocks.len() == s1.blocks.len());
            assert(s2.blocks.len() + 3 * lsize(nodes, body.0 as int) + 3 < u32::MAX);
            let b2 = bound.insert(b);
            assert forall|l: Local| #[trigger] b2.contains(l) implies slot_for(s2.locals, l) is Some by {
                if l != b {
                    assert(bound.contains(l));
                    lemma_slot_for_prefix(s.locals, s1.locals, l);
                    assert(s2.locals.subrange(0, s1.locals.len() as int) =~= s1.locals);
                    lemma_slot_for_prefix(s1.locals, s2.locals, l);
                }
            }
            lemma_lower_ok(nodes, uses, binders, body.0 as int, s2, b2);
            let t = lower_spec(nodes, uses, binders, body.0 as int, s2)->Ok_0.1;
            assert(t.locals.subrange(0, s.locals.len() as int) =~= t.locals.subrange(0, s2.locals.len() as int).subrange(0, s.locals.len() as int));
            assert(s2.locals.subrange(0, s.locals.len() as int) =~= s1.locals.subrange(0, s.locals.len() as int));
        },
        Expr::Bin(l, op, r) => {
            assert(lsize(nodes, id) == 1 + lsize(nodes, l.0 as int) + lsize(nodes, r.0 as int));
            lemma_lower_ok(nodes, uses, binders, l.0 as int, s, bound);
            let s1 = lower_spec(nodes, uses, binders, l.0 as int, s)->Ok_0.1;
            assert forall|x: Local| #[trigger] bound.contains(x) implies slot_for(s1.locals, x) is Some by {
                lemma_slot_for_prefix(s.locals, s1.locals, x);
            }
            lemma_lower_ok(nodes, uses, binders, r.0 as int, s1, bound);
            let s2 = lower_spec(nodes, uses, binders, r.0 as int, s1)->Ok_0.1;
            assert(s2.locals.subrange(0, s.locals.len() as int) =~= s2.locals.subrange(0, s1.locals.len() as int).subrange(0, s.locals.len() as int));
        },
        Expr::Cond { cond, then_branch, else_branch } => {
            assert(lsize(nodes, id) == 1 + lsize(nodes, cond.0 as int) + lsize(nodes, then_branch.0 as int) + lsize(
                nodes,
                else_branch.0 as int,
            ));
            lemma_lower_ok(nodes, uses, binders, cond.0 as int, s, bound);
            let (cv, s1) = lower_spec(nodes, uses, binders, cond.0 as int, s)->Ok_0;
            let rl = s1.next_local;
            let n = s1.blocks.len();
            let tb = n as u32;
            let eb = (n + 1) as u32;
            let jb = (n + 2) as u32;
            let s2 = LowerState {
                blocks: s1.blocks.push(empty_block()).push(empty_block()).push(empty_block()),
                next_local: (rl + 1) as u32,
                ..s1
            };
            let s3 = LowerState {
                current: tb,
                ..with_term(s2, Terminator::Branch { cond: cv, then_block: tb, else_block: eb })
            };
            assert forall|x: Local| #[trigger] bound.contains(x) implies slot_for(s3.locals, x) is Some by {
                lemma_slot_for_prefix(s.locals, s1.locals, x);
            }
            lemma_lower_ok(nodes, uses, binders, then_branch.0 as int, s3, bound);
            let (tv, s4) = lower_spec(nodes, uses, binders, then_branch.0 as int, s3)->Ok_0;
            let s5 = LowerState {
                current: eb,
                ..with_term(with_instr(s4, Instr::StoreLocal { dst: rl, src: tv }), Terminator::Jump(jb))
            };
            assert forall|x: Local| #[trigger] bound.contains(x) implies slot_for(s5.locals, x) is Some by {
                lemma_slot_for_prefix(s3.locals, s4.locals, x);
            }
            lemma_lower_ok(nodes, uses, binders, else_branch.0 as int, s5, bound);
            let s6 = lower_spec(nodes, uses, binders, else_branch.0 as int, s5)->Ok_0.1;
            assert(s4.locals.subrange(0, s.locals.len() as int) =~= s4.locals.subrange(0, s1.locals.len() as int).subrange(0, s.locals.len() as int));
            assert(s6.locals.subrange(0, s.locals.len() as int) =~= s6.locals.subrange(0, s4.locals.len() as int).subrange(0, s.locals.len() as int));
        },
        _ => {},
    }
}

/// Lowering succeeds on every expression made only of integer and boolean
/// literals, variables bound by an enclosing `let`, `let`s that bind a
/// local, `+ - * /` and conditionals, as long as its counts fit in 32 bits.
pub proof fn lemma_lowering_succeeds(nodes: Seq<Node>, uses: Seq<Option<Local>>, binders: Seq<Option<Local>>, id: int)
    requires
        lowerable(nodes, uses, binders, id, Set::empty()),
        3 * lsize(nodes, id) + 4 < u32::MAX,
    ensures
        lower_spec(nodes, uses, binders, id, entry_state()) is Ok,
{
    lemma_lower_ok(nodes, uses, binders, id, entry_state(), Set::empty());
}

/// Lowers expression trees to functions of basic blocks.
pub struct Lowerer<'a> {
    pub ast: &'a Ast,
    pub resolution: &'a Resolution,
    pub types: &'a AstTable<Option<TypeId>>,
    pub program: Program,
}

impl<'a> Lowerer<'a> {
    pub fn new(ast: &'a Ast, resolution: &'a Resolution, types: &'a AstTable<Option<TypeId>>) -> (res: Self)
        ensures
            res.ast == ast,
            res.resolution == resolution,
            res.program.funs@.len() == 0,
            res.program.entry == 0,
    {
        let program = Program { funs: Vec::new(), entry: 0 };
        Lowerer { ast, resolution, types, program }
    }

    /// `cx` points at a block of a function of the program.
    pub open spec fn points_at(&self, cx: &FunContext) -> bool {
        &&& (cx.fun as int) < self.program.funs@.len()
        &&& (cx.current_block as int) < self.program.funs@[cx.fun as int].blocks@.len()
    }

    /// The number of blocks of each function.
    pub open spec fn shape(&self) -> Seq<nat> {
        Seq::new(self.program.funs@.len(), |i: int| self.program.funs@[i].blocks@.len())
    }

    /// What lowering keeps: the program's functions, and their blocks.
    pub open spec fn kept(&self, old: &Self) -> bool {
        &&& self.ast == old.ast
        &&& self.resolution == old.resolution
        &&& self.program.funs@.len() == old.program.funs@.len()
        &&& forall|i: int| 0 <= i < old.program.funs@.len() ==> old.program.funs@[i].blocks@.len() <= (
            #[trigger] self.program.funs@[i]).blocks@.len()
        &&& self.program.entry == old.program.entry
        &&& forall|i: int|
            0 <= i < old.program.funs@.len() ==> {
                let (a, b) = (#[trigger] self.program.funs@[i], old.program.funs@[i]);
                &&& a.id == b.id
                &&& a.name == b.name
                &&& a.arity == b.arity
                &&& a.captures@ == b.captures@
                &&& forall|j: int| 0 <= j < b.blocks@.len() ==> (#[trigger] a.blocks@[j]).id == b.blocks@[j].id
            }
    }

    /// Lowers `expr` as the body of the program's entry function.
    pub fn lower(&mut self, expr: ExprId) -> (res: Result<(), LowerError>)
        requires
            old(self).ast.wf(),
            expr.0 < old(self).ast@.len(),
            old(self).program.funs@.len() < u32::MAX,
        ensures
            final(self).ast == old(self).ast,
            final(self).program.funs@.len() == old(self).program.funs@.len() + 1,
            final(self).program.entry == old(self).program.funs@.len(),
            block_ids(final(self).program, old(self).program.funs@.len() as int),
            ({
                let e = final(self).program.funs@[old(self).program.funs@.len() as int];
                &&& e.id == old(self).program.funs@.len()
                &&& e.name is None
                &&& e.arity == 0
                &&& e.captures@.len() == 0
                &&& e.blocks@.len() >= 1
                &&& e.blocks@[0].id == 0
            }),
            res is Ok ==> exists|j: int|
                0 <= j < final(self).program.funs@[old(self).program.funs@.len() as int].blocks@.len()
                    && (#[trigger] final(self).program.funs@[old(self).program.funs@.len() as int].blocks@[j]).term is Return,
            lowerable(old(self).ast@, old(self).resolution.uses@, old(self).resolution.binders@, expr.0 as int, Set::empty())
                && 3 * lsize(old(self).ast@, expr.0 as int) + 4 < u32::MAX ==> res is Ok,
            res is Ok ==> closed_blocks(block_model(final(self).program, old(self).program.funs@.len() as int)),
            res is Ok ==> {
                let e = final(self).program.funs@[old(self).program.funs@.len() as int];
                slots_within(block_model(final(self).program, old(self).program.funs@.len() as int), e.locals as int, e.temps as int)
            },
            res is Ok && straight_line(old(self).ast@, expr.0 as int) ==> {
                let e = final(self).program.funs@[old(self).program.funs@.len() as int];
                &&& e.blocks@.len() == 1
                &&& e.blocks@[0].term is Return
            },
            match lower_spec(
                old(self).ast@,
                old(self).resolution.uses@,
                old(self).resolution.binders@,
                expr.0 as int,
                entry_state(),
            ) {
                Ok((v, st)) => {
                    let e = final(self).program.funs@[old(self).program.funs@.len() as int];
                    &&& res is Ok
                    &&& block_model(final(self).program, old(self).program.funs@.len() as int) == with_term(
                        st,
                        Terminator::Return(v),
                    ).blocks
                    &&& e.locals == st.next_local
                    &&& e.temps == st.next_temp
                },
                Err(e) => res == Err::<(), LowerError>(e),
            },
    {
        let fun_id = self.program.funs.len() as u32;
        let block_id: u32 = 0;
        self.program.entry = fun_id;
        let mut blocks: Vec<Block> = Vec::new();
        blocks.push(Block { id: block_id, instrs: Vec::new(), term: Terminator::Unset });
        let main_fun = Fun {
            id: fun_id,
            name: None,
            arity: 0,
            captures: Vec::new(),
            locals: 0,
            temps: 0,
            blocks,
        };
        self.program.funs.push(main_fun);
        let mut cx = FunContext {
            fun: fun_id,
            current_block: block_id,
            next_temp: 0,
            next_local: 0,
            resolved_locals: Vec::new(),
            captures: Vec::new(),
        };
        proof {
            assert(self.program.funs@[fun_id as int].blocks@[0].instrs@ =~= Seq::<Instr>::empty());
            assert(lower_state(self.program, cx).blocks =~= entry_state().blocks);
            assert(lower_state(self.program, cx).locals =~= entry_state().locals);
        }
        proof {
            if lowerable(self.ast@, self.resolution.uses@, self.resolution.binders@, expr.0 as int, Set::empty())
                && 3 * lsize(self.ast@, expr.0 as int) + 4 < u32::MAX {
                lemma_lowering_succeeds(self.ast@, self.resolution.uses@, self.resolution.binders@, expr.0 as int);
            }
        }
        let result = self.lower_expr(expr, &mut cx)?;
        let ghost st = lower_state(self.program, cx);
        let f = cx.fun as usize;
        self.program.funs[f].locals = cx.next_local;
        self.program.funs[f].temps = cx.next_temp;
        let b = cx.current_block as usize;
        self.program.funs[f].blocks[b].term = Terminator::Return(result);
        proof {
            assert(block_model(self.program, f as int) =~= with_term(st, Terminator::Return(result)).blocks);
            lemma_lowering_closed(self.ast@, self.resolution.uses@, self.resolution.binders@, expr.0 as int);
            lemma_lowering_slots(self.ast@, self.resolution.uses@, self.resolution.binders@, expr.0 as int);
        }
        Ok(())
    }

    /// Appends `instr` to the current block.
    fn push_instr(&mut self, cx: &FunContext, instr: Instr)
        requires
            old(self).points_at(cx),
        ensures
            block_ids(old(self).program, cx.fun as int) ==> block_ids(final(self).program, cx.fun as int),
            final(self).kept(old(self)),
            final(self).shape() == old(self).shape(),
            final(self).ast == old(self).ast,
            final(self).resolution == old(self).resolution,
            appended(old(self).program, final(self).program, cx.fun as int, cx.current_block as int),
            final(self).program.funs@[cx.fun as int].blocks@[cx.current_block as int].instrs@ == old(
                self,
            ).program.funs@[cx.fun as int].blocks@[cx.current_block as int].instrs@.push(instr),
            lower_state(final(self).program, *cx) == with_instr(lower_state(old(self).program, *cx), instr),
    {
        let f = cx.fun as usize;
        let b = cx.current_block as usize;
        let ghost i = instr;
        self.program.funs[f].blocks[b].instrs.push(instr);
        proof {
            assert(self.shape() =~= old(self).shape());
            let s0 = old(self).program.funs@[f as int].blocks@[b as int].instrs@;
            assert(self.program.funs@[f as int].blocks@[b as int].instrs@.subrange(0, s0.len() as int) =~= s0);
            assert(block_model(self.program, f as int) =~= with_instr(lower_state(old(self).program, *cx), i).blocks);
        }
    }

    /// Ends the current block with `term`.
    fn set_terminator(&mut self, cx: &FunContext, term: Terminator)
        requires
            old(self).points_at(cx),
        ensures
            block_ids(old(self).program, cx.fun as int) ==> block_ids(final(self).program, cx.fun as int),
            final(self).kept(old(self)),
            final(self).shape() == old(self).shape(),
            final(self).program.funs@[cx.fun as int].blocks@[cx.current_block as int].term == term,
            lower_state(final(self).program, *cx) == with_term(lower_state(old(self).program, *cx), term),
    {
        let f = cx.fun as usize;
        let b = cx.current_block as usize;
        self.program.funs[f].blocks[b].term = term;
        proof {
            assert(self.shape() =~= old(self).shape());
            assert(block_model(self.program, f as int) =~= with_term(lower_state(old(self).program, *cx), term).blocks);
        }
    }

    /// Adds an empty block to the current function.
    fn fresh_block(&mut self, cx: &FunContext) -> (res: BlockId)
        requires
            old(self).points_at(cx),
            old(self).program.funs@[cx.fun as int].blocks@.len() < u32::MAX,
        ensures
            final(self).program.funs@[cx.fun as int].blocks@[res as int].id == res,
            block_ids(old(self).program, cx.fun as int) ==> block_ids(final(self).program, cx.fun as int),
            final(self).kept(old(self)),
            final(self).shape() == old(self).shape().update(cx.fun as int, old(self).shape()[cx.fun as int] + 1),
            res == old(self).program.funs@[cx.fun as int].blocks@.len() as u32,
            block_model(final(self).program, cx.fun as int) == block_model(old(self).program, cx.fun as int).push(
                empty_block(),
            ),
    {
        let f = cx.fun as usize;
        let id = self.program.funs[f].blocks.len() as BlockId;
        self.program.funs[f].blocks.push(Block { id, instrs: Vec::new(), term: Terminator::Unset });
        proof {
            assert(self.shape() =~= old(self).shape().update(cx.fun as int, old(self).shape()[cx.fun as int] + 1));
            assert(self.program.funs@[f as int].blocks@.last().instrs@ =~= Seq::<Instr>::empty());
            assert(block_model(self.program, f as int) =~= block_model(old(self).program, f as int).push(empty_block()));
        }
        id
    }

    /// Appends instructions for `expr` to the current block, and returns
    /// where its value lives.
    #[verifier::rlimit(40)]
    #[verifier::spinoff_prover]
    fn lower_expr(&mut self, expr: ExprId, cx: &mut FunContext) -> (res: Result<Value, LowerError>)
        requires
            old(self).ast.wf(),
            expr.0 < old(self).ast@.len(),
            old(self).points_at(old(cx)),
        ensures
            final(self).kept(old(self)),
            final(cx).fun == old(cx).fun,
            block_ids(old(self).program, old(cx).fun as int) ==> block_ids(final(self).program, old(cx).fun as int),
            match lower_spec(
                old(self).ast@,
                old(self).resolution.uses@,
                old(self).resolution.binders@,
                expr.0 as int,
                lower_state(old(self).program, *old(cx)),
            ) {
                Ok((v, st)) => res == Ok::<Value, LowerError>(v) && lower_state(final(self).program, *final(cx)) == st,
                Err(e) => res == Err::<Value, LowerError>(e),
            },
            res is Ok ==> final(self).points_at(final(cx)),
            res is Ok && straight_line(old(self).ast@, expr.0 as int) ==> final(cx).current_block == old(
                cx,
            ).current_block && appended(
                old(self).program,
                final(self).program,
                old(cx).fun as int,
                old(cx).current_block as int,
            ),
            res is Ok ==> match old(self).ast@[expr.0 as int].expr {
                Expr::Lit(Lit::Int(n)) => res == Ok::<Value, LowerError>(Value::Int(n)),
                Expr::Lit(Lit::Bool(b)) => res == Ok::<Value, LowerError>(Value::Bool(b)),
                Expr::Bin(_, _, _) => res matches Ok(Value::Temp(_)),
                Expr::Cond { .. } => res matches Ok(Value::Local(_)),
                _ => true,
            },
        decreases expr.0,
    {
        let node = self.ast.expr(expr);
        let ghost f = cx.fun as int;
        let ghost b = cx.current_block as int;
        let ghost p0 = self.program;
        proof {
            assert(crate::ast::children_before(self.ast@[expr.0 as int].expr, expr.0 as int));
            lemma_appended_refl(self.program, f, b);
        }
        match node {
            Expr::Lit(lit) => match lit {
                Lit::Unit => Err(LowerError::Unsupported),
                Lit::Int(n) => Ok(Value::Int(n)),
                Lit::Bool(b) => Ok(Value::Bool(b)),
            },
            Expr::Var(_) => {
                if expr.0 >= self.resolution.uses.len() {
                    return Err(LowerError::Unresolved);
                }
                let local = match *self.resolution.uses.get(expr) {
                    Some(l) => l,
                    None => {
                        return Err(LowerError::Unresolved);
                    },
                };
                match find_local(&cx.resolved_locals, local) {
                    Some(slot) => Ok(Value::Local(slot)),
                    None => Err(LowerError::Unsupported),
                }
            },
            Expr::Bind { is_recursive: _, name: _, init, body } => {
                let init = self.lower_expr(init, cx)?;
                let bound_local = cx.fresh_local()?;
                if expr.0 >= self.resolution.binders.len() {
                    return Err(LowerError::Unresolved);
                }
                let binder = match *self.resolution.binders.get(expr) {
                    Some(l) => l,
                    None => {
                        return Err(LowerError::Unresolved);
                    },
                };
                cx.resolved_locals.push((binder, bound_local));
                let ghost p1 = self.program;
                self.push_instr(cx, Instr::StoreLocal { dst: bound_local, src: init });
                let ghost p2 = self.program;
                let r = self.lower_expr(body, cx);
                proof {
                    if r is Ok && straight_line(self.ast@, expr.0 as int) {
                        lemma_appended_trans(p0, p1, p2, f, b);
                        lemma_appended_trans(p0, p2, self.program, f, b);
                    }
                }
                r
            },
            Expr::Abs(_, _) => Err(LowerError::Unsupported),
            Expr::App(_, _) => Err(LowerError::Unsupported),
            Expr::Bin(lhs, op, rhs) => {
                let lhs = self.lower_expr(lhs, cx)?;
                let ghost p1 = self.program;
                let rhs = self.lower_expr(rhs, cx)?;
                let ghost p2 = self.program;
                let op = if op == Token::Plus {
                    BinOp::AddInt
                } else if op == Token::Minus {
                    BinOp::SubInt
                } else if op == Token::Star {
                    BinOp::MulInt
                } else if op == Token::Slash {
                    BinOp::DivInt
                } else {
                    return Err(LowerError::Unsupported);
                };
                let dst = cx.fresh_temp()?;
                self.push_instr(cx, Instr::BinOp { dst, op, lhs, rhs });
                proof {
                    if straight_line(self.ast@, expr.0 as int) {
                        lemma_appended_trans(p0, p1, p2, f, b);
                        lemma_appended_trans(p0, p2, self.program, f, b);
                    }
                }
                Ok(Value::Temp(dst))
            },
            Expr::Cond { cond, then_branch, else_branch } => {
                let cond = self.lower_expr(cond, cx)?;
                let result_local = cx.fresh_local()?;
                let f = cx.fun as usize;
                if self.program.funs[f].blocks.len() >= (u32::MAX - 3) as usize {
                    return Err(LowerError::Overflow);
                }
                let ghost blocks0 = self.program.funs@[f as int].blocks@.len();
                let then_block = self.fresh_block(cx);
                let else_block = self.fresh_block(cx);
                let join_block = self.fresh_block(cx);
                let ghost after_fresh = *self;
                proof {
                    assert(self.shape()[f as int] == blocks0 + 3);
                    assert(join_block == blocks0 + 2);
                }
                self.set_terminator(cx, Terminator::Branch { cond, then_block, else_block });
                cx.current_block = then_block;
                let then_value = self.lower_expr(then_branch, cx)?;
                self.push_instr(cx, Instr::StoreLocal { dst: result_local, src: then_value });
                self.set_terminator(cx, Terminator::Jump(join_block));
                cx.current_block = else_block;
                let else_value = self.lower_expr(else_branch, cx)?;
                self.push_instr(cx, Instr::StoreLocal { dst: result_local, src: else_value });
                self.set_terminator(cx, Terminator::Jump(join_block));
                cx.current_block = join_block;
                proof {
                    assert(self.program.funs@[f as int].blocks@.len() >= after_fresh.program.funs@[f as int].blocks@.len());
                    assert(after_fresh.shape()[f as int] == after_fresh.program.funs@[f as int].blocks@.len());
                }
                Ok(Value::Local(result_local))
            },
        }
    }
}

} // verus!
