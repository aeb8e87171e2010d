use vstd::prelude::*;

use crate::ir::{self, BinOp, BlockId};

verus! {

/// An instruction of the register-free machine that runs lowered functions.
#[derive(Clone, Copy, Debug, PartialEq, Eq, Structural)]
pub enum Op {
    ConstInt(i32),
    ConstBool(bool),
    LoadLocal(u16),
    StoreLocal(u16),
    Bin(BinOp),
    Jump(u16),
    JumpIfFalse(u16),
    Call(ir::FunId, u8),
    Return,
}

/// The result of a compiled function.
#[derive(Debug)]
pub struct Function {
    pub code: Vec<Op>,
    pub arity: u8,
    pub local_count: usize,
}

/// Why a lowered function could not be turned into instructions.
#[derive(Clone, Copy, Debug, PartialEq, Eq, Structural)]
pub enum EmitError {
    /// A value or instruction that is not emitted yet: an environment slot,
    /// the unit value, a closure, a call of something but a known function,
    /// a constant load or a move.
    Unsupported,
    /// A block that was never terminated.
    Unterminated,
    /// A jump to a block that the function does not have.
    MissingBlock,
    /// A patch that does not point at a jump.
    NotAJump,
}

#[derive(Clone, Copy, Debug, PartialEq, Eq, Structural)]
pub enum PatchKind {
    Jump,
    JumpIfFalse,
}

/// A jump at `at` whose target is the start of block `target`.
#[derive(Clone, Copy, Debug, PartialEq, Eq, Structural)]
pub struct Patch {
    pub at: usize,
    pub target: BlockId,
    pub kind: PatchKind,
}

/// The last offset recorded for block `b`.
pub open spec fn offset_of(entries: Seq<(BlockId, usize)>, b: BlockId) -> Option<usize>
    decreases entries.len(),
{
    if entries.len() == 0 {
        None
    } else if entries.last().0 == b {
        Some(entries.last().1)
    } else {
        offset_of(entries.drop_last(), b)
    }
}

fn find_offset(entries: &Vec<(BlockId, usize)>, b: BlockId) -> (res: Option<usize>)
    ensures
        res == offset_of(entries@, b),
{
    let mut i = entries.len();
    proof {
        assert(entries@.take(i as int) =~= entries@);
    }
    while i > 0
        invariant
            i <= entries@.len(),
            offset_of(entries@, b) == offset_of(entries@.take(i as int), b),
        decreases i,
    {
        proof {
            assert(entries@.take(i as int).drop_last() =~= entries@.take(i - 1));
        }
        if entries[i - 1].0 == b {
            return Some(entries[i - 1].1);
        }
        i = i - 1;
    }
    None
}

/// The instructions that load `v`: a constant or a local; a temporary is
/// already on the stack and a function is named by the call.
pub open spec fn value_ops(v: ir::Value) -> Option<Seq<Op>> {
    match v {
        ir::Value::Int(n) => Some(seq![Op::ConstInt(n)]),
        ir::Value::Bool(b) => Some(seq![Op::ConstBool(b)]),
        ir::Value::Local(slot) => Some(seq![Op::LoadLocal(slot as u16)]),
        ir::Value::Temp(_) | ir::Value::Fun(_) => Some(Seq::empty()),
        _ => None,
    }
}

/// The instructions that load the values `args`, in order.
pub open spec fn values_ops(args: Seq<ir::Value>) -> Option<Seq<Op>>
    decreases args.len(),
{
    if args.len() == 0 {
        Some(Seq::empty())
    } else {
        match (values_ops(args.drop_last()), value_ops(args.last())) {
            (Some(a), Some(b)) => Some(a + b),
            _ => None,
        }
    }
}

/// The instructions for a lowered instruction: a store or an operation
/// after the loads of its operands, or a call of a known function after
/// the loads of its arguments.
pub open spec fn instr_ops(instr: ir::Instr) -> Option<Seq<Op>> {
    match instr {
        ir::Instr::StoreLocal { dst, src } => match value_ops(src) {
            Some(o) => Some(o.push(Op::StoreLocal(dst as u16))),
            None => None,
        },
        ir::Instr::BinOp { op, lhs, rhs, .. } => match (value_ops(lhs), value_ops(rhs)) {
            (Some(a), Some(b)) => Some((a + b).push(Op::Bin(op))),
            _ => None,
        },
        ir::Instr::Call { callee, args, .. } => match callee {
            ir::Value::Fun(id) => match values_ops(args@) {
                Some(a) => Some(a.push(Op::Call(id, 1))),
                None => None,
            },
            _ => None,
        },
        _ => None,
    }
}

/// An operation loads its left operand, then its right operand, then
/// applies the operation: with two constant operands `x op y`, the code is
/// `x`, `y`, `op`.
pub proof fn lemma_operand_order(dst: ir::TempId, op: BinOp, x: i32, y: i32)
    ensures
        instr_ops(ir::Instr::BinOp { dst, op, lhs: ir::Value::Int(x), rhs: ir::Value::Int(y) }) == Some(
            seq![Op::ConstInt(x), Op::ConstInt(y), Op::Bin(op)],
        ),
{
    assert(seq![Op::ConstInt(x)] + seq![Op::ConstInt(y)] =~= seq![Op::ConstInt(x), Op::ConstInt(y)]);
    assert((seq![Op::ConstInt(x)] + seq![Op::ConstInt(y)]).push(Op::Bin(op)) =~= seq![
        Op::ConstInt(x),
        Op::ConstInt(y),
        Op::Bin(op),
    ]);
}

/// The instructions for the first `k` of `instrs`, in order.
pub open spec fn instrs_ops(instrs: Seq<ir::Instr>, k: int) -> Option<Seq<Op>>
    decreases k,
{
    if k <= 0 {
        Some(Seq::empty())
    } else {
        match (instrs_ops(instrs, k - 1), instr_ops(instrs[k - 1])) {
            (Some(a), Some(b)) => Some(a + b),
            _ => None,
        }
    }
}

/// The instructions for a terminator emitted at offset `n`, and the jumps
/// in them that wait for their target's offset. A branch jumps to its
/// else-block when the condition is false and otherwise goes on with the
/// next instruction: no jump to its then-block is emitted, so the code runs
/// the then-block only where that block comes next.
pub open spec fn term_emit(term: ir::Terminator, n: int) -> Result<(Seq<Op>, Seq<Patch>), EmitError> {
    match term {
        ir::Terminator::Return(v) => match value_ops(v) {
            Some(o) => Ok((o.push(Op::Return), Seq::empty())),
            None => Err(EmitError::Unsupported),
        },
        ir::Terminator::Jump(b) => Ok(
            (seq![Op::Jump(u16::MAX)], seq![Patch { at: n as usize, target: b, kind: PatchKind::Jump }]),
        ),
        ir::Terminator::Branch { cond, else_block, .. } => match value_ops(cond) {
            Some(o) => Ok(
                (
                    o.push(Op::JumpIfFalse(u16::MAX)),
                    seq![Patch { at: (n + o.len()) as usize, target: else_block, kind: PatchKind::JumpIfFalse }],
                ),
            ),
            None => Err(EmitError::Unsupported),
        },
        ir::Terminator::Unset => Err(EmitError::Unterminated),
    }
}

/// What emission has produced so far: the instructions, where each block
/// starts, and the jumps to point at their targets.
pub struct EmitState {
    pub code: Seq<Op>,
    pub offsets: Seq<(BlockId, usize)>,
    pub patches: Seq<Patch>,
}

/// Emitting one block after `st`: its start is recorded, then come its
/// instructions and its terminator.
pub open spec fn block_emit(b: (BlockId, Seq<ir::Instr>, ir::Terminator), st: EmitState) -> Result<EmitState, EmitError> {
    let offsets = st.offsets.push((b.0, st.code.len() as usize));
    match instrs_ops(b.1, b.1.len() as int) {
        None => Err(EmitError::Unsupported),
        Some(ops) => match term_emit(b.2, (st.code.len() + ops.len()) as int) {
            Err(e) => Err(e),
            Ok((t, ps)) => Ok(EmitState { code: st.code + ops + t, offsets, patches: st.patches + ps }),
        },
    }
}

/// The blocks of `fun`, as values.
pub open spec fn fun_blocks(fun: ir::Fun) -> Seq<(BlockId, Seq<ir::Instr>, ir::Terminator)> {
    Seq::new(fun.blocks@.len(), |j: int| (fun.blocks@[j].id, fun.blocks@[j].instrs@, fun.blocks@[j].term))
}

/// Emitting the first `k` of `blocks`, in order, after `st`.
pub open spec fn blocks_emit(blocks: Seq<(BlockId, Seq<ir::Instr>, ir::Terminator)>, k: int, st: EmitState) -> Result<
    EmitState,
    EmitError,
>
    decreases k,
{
    if k <= 0 {
        Ok(st)
    } else {
        match blocks_emit(blocks, k - 1, st) {
            Err(e) => Err(e),
            Ok(s) => block_emit(blocks[k - 1], s),
        }
    }
}

/// `code` with the first `k` of `patches` applied: each jump pointed at the
/// start of its target block.
pub open spec fn patch_all(code: Seq<Op>, offsets: Seq<(BlockId, usize)>, patches: Seq<Patch>, k: int) -> Result<
    Seq<Op>,
    EmitError,
>
    decreases k,
{
    if k <= 0 {
        Ok(code)
    } else {
        match patch_all(code, offsets, patches, k - 1) {
            Err(e) => Err(e),
            Ok(c) => {
                let p = patches[k - 1];
                match offset_of(offsets, p.target) {
                    None => Err(EmitError::MissingBlock),
                    Some(o) => match c[p.at as int] {
                        Op::Jump(_) => Ok(c.update(p.at as int, Op::Jump(o as u16))),
                        Op::JumpIfFalse(_) => Ok(c.update(p.at as int, Op::JumpIfFalse(o as u16))),
                        _ => Err(EmitError::NotAJump),
                    },
                }
            },
        }
    }
}

/// The instructions of a lowered function: its blocks emitted in order,
/// then every jump pointed at its target block.
pub open spec fn fun_emit(fun: ir::Fun) -> Result<Seq<Op>, EmitError> {
    let blocks = fun_blocks(fun);
    match blocks_emit(blocks, blocks.len() as int, EmitState { code: Seq::empty(), offsets: Seq::empty(), patches: Seq::empty() }) {
        Err(e) => Err(e),
        Ok(st) => patch_all(st.code, st.offsets, st.patches, st.patches.len() as int),
    }
}

proof fn lemma_values_ops_none(args: Seq<ir::Value>, k: int)
    requires
        0 <= k <= args.len(),
        values_ops(args.take(k)) is None,
    ensures
        values_ops(args) is None,
    decreases args.len() - k,
{
    if k < args.len() {
        assert(args.take(k + 1).drop_last() =~= args.take(k));
        lemma_values_ops_none(args, k + 1);
    } else {
        assert(args.take(k) =~= args);
    }
}

proof fn lemma_instrs_ops_none(instrs: Seq<ir::Instr>, k: int, m: int)
    requires
        0 <= k <= m,
        instrs_ops(instrs, k) is None,
    ensures
        instrs_ops(instrs, m) is None,
    decreases m - k,
{
    if k < m {
        lemma_instrs_ops_none(instrs, k, m - 1);
    }
}

proof fn lemma_blocks_emit_err(
    blocks: Seq<(BlockId, Seq<ir::Instr>, ir::Terminator)>,
    k: int,
    m: int,
    st: EmitState,
    e: EmitError,
)
    requires
        0 <= k <= m,
        blocks_emit(blocks, k, st) == Err::<EmitState, EmitError>(e),
    ensures
        blocks_emit(blocks, m, st) == Err::<EmitState, EmitError>(e),
    decreases m - k,
{
    if k < m {
        lemma_blocks_emit_err(blocks, k, m - 1, st, e);
    }
}

proof fn lemma_patch_all_err(
    code: Seq<Op>,
    offsets: Seq<(BlockId, usize)>,
    patches: Seq<Patch>,
    k: int,
    m: int,
    e: EmitError,
)
    requires
        0 <= k <= m,
        patch_all(code, offsets, patches, k) == Err::<Seq<Op>, EmitError>(e),
    ensures
        patch_all(code, offsets, patches, m) == Err::<Seq<Op>, EmitError>(e),
    decreases m - k,
{
    if k < m {
        lemma_patch_all_err(code, offsets, patches, k, m - 1, e);
    }
}

/// Stackifies lowered functions.
pub struct Emitter {
    pub code: Vec<Op>,
    pub block_offsets: Vec<(BlockId, usize)>,
    pub patches: Vec<Patch>,
}

/// Every patch points at an instruction.
pub open spec fn patches_in(patches: Seq<Patch>, n: int) -> bool {
    forall|i: int| 0 <= i < patches.len() ==> (#[trigger] patches[i]).at < n
}

impl Emitter {
    pub fn new() -> (res: Emitter)
        ensures
            res.code@.len() == 0,
            res.block_offsets@.len() == 0,
            res.patches@.len() == 0,
    {
        Emitter { code: Vec::new(), block_offsets: Vec::new(), patches: Vec::new() }
    }

    fn emit_value(&mut self, value: &ir::Value) -> (res: Result<(), EmitError>)
        requires
            patches_in(old(self).patches@, old(self).code@.len() as int),
        ensures
            match value_ops(*value) {
                Some(ops) => res is Ok && final(self).code@ == old(self).code@ + ops,
                None => res == Err::<(), EmitError>(EmitError::Unsupported),
            },
            final(self).patches == old(self).patches,
            final(self).block_offsets == old(self).block_offsets,
            old(self).code@.len() <= final(self).code@.len(),
    {
        match *value {
            ir::Value::Int(n) => self.code.push(Op::ConstInt(n)),
            ir::Value::Bool(b) => self.code.push(Op::ConstBool(b)),
            ir::Value::Local(slot) => self.code.push(Op::LoadLocal(slot as u16)),
            ir::Value::Temp(_) => {},
            ir::Value::Fun(_) => {},
            _ => {
                return Err(EmitError::Unsupported);
            },
        }
        proof {
            assert(self.code@ =~= old(self).code@ + value_ops(*value).unwrap());
        }
        Ok(())
    }

    fn emit_instr(&mut self, instr: &ir::Instr) -> (res: Result<(), EmitError>)
        requires
            patches_in(old(self).patches@, old(self).code@.len() as int),
        ensures
            final(self).patches == old(self).patches,
            final(self).block_offsets == old(self).block_offsets,
            old(self).code@.len() <= final(self).code@.len(),
            match instr_ops(*instr) {
                Some(ops) => res is Ok && final(self).code@ == old(self).code@ + ops,
                None => res == Err::<(), EmitError>(EmitError::Unsupported),
            },
    {
        match instr {
            ir::Instr::StoreLocal { dst, src } => {
                self.emit_value(src)?;
                self.code.push(Op::StoreLocal(*dst as u16));
                proof {
                    assert(self.code@ =~= old(self).code@ + instr_ops(*instr).unwrap());
                }
                Ok(())
            },
            ir::Instr::BinOp { dst: _, op, lhs, rhs } => {
                self.emit_value(lhs)?;
                self.emit_value(rhs)?;
                self.code.push(Op::Bin(*op));
                proof {
                    assert(self.code@ =~= old(self).code@ + instr_ops(*instr).unwrap());
                }
                Ok(())
            },
            ir::Instr::Call { dst: _, callee, args } => {
                let fun_id = match callee {
                    ir::Value::Fun(id) => *id,
                    _ => {
                        return Err(EmitError::Unsupported);
                    },
                };
                let mut i: usize = 0;
                proof {
                    assert(args@.take(0) =~= Seq::<ir::Value>::empty());
                    assert(self.code@ =~= old(self).code@ + Seq::<Op>::empty());
                }
                while i < args.len()
                    invariant
                        i <= args@.len(),
                        self.patches == old(self).patches,
                        self.block_offsets == old(self).block_offsets,
                        old(self).code@.len() <= self.code@.len(),
                        patches_in(self.patches@, self.code@.len() as int),
                        values_ops(args@.take(i as int)) matches Some(o) && self.code@ == old(self).code@ + o,
                        instr_ops(*instr) == match values_ops(args@) {
                            Some(a) => Some(a.push(Op::Call(fun_id, 1))),
                            None => None,
                        },
                    decreases args@.len() - i,
                {
                    let ghost before = self.code@;
                    proof {
                        assert(args@.take(i + 1).drop_last() =~= args@.take(i as int));
                        assert(args@.take(i + 1).last() == args@[i as int]);
                    }
                    match self.emit_value(&args[i]) {
                        Ok(()) => {},
                        Err(e) => {
                            proof {
                                lemma_values_ops_none(args@, i + 1);
                            }
                            return Err(e);
                        },
                    }
                    proof {
                        let o = values_ops(args@.take(i as int)).unwrap();
                        assert(self.code@ =~= old(self).code@ + (o + value_ops(args@[i as int]).unwrap()));
                    }
                    i = i + 1;
                }
                proof {
                    assert(args@.take(args@.len() as int) =~= args@);
                }
                self.code.push(Op::Call(fun_id, 1));
                proof {
                    assert(self.code@ =~= old(self).code@ + instr_ops(*instr).unwrap());
                }
                Ok(())
            },
            _ => Err(EmitError::Unsupported),
        }
    }

    fn emit_terminator(&mut self, term: &ir::Terminator) -> (res: Result<(), EmitError>)
        requires
            patches_in(old(self).patches@, old(self).code@.len() as int),
        ensures
            res is Ok ==> patches_in(final(self).patches@, final(self).code@.len() as int),
            final(self).block_offsets == old(self).block_offsets,
            old(self).code@.len() <= final(self).code@.len(),
            match term_emit(*term, old(self).code@.len() as int) {
                Ok((ops, ps)) => res is Ok && final(self).code@ == old(self).code@ + ops && final(self).patches@
                    == old(self).patches@ + ps,
                Err(e) => res == Err::<(), EmitError>(e),
            },
    {
        match term {
            ir::Terminator::Return(value) => {
                self.emit_value(value)?;
                self.code.push(Op::Return);
                proof {
                    assert(self.code@ =~= old(self).code@ + value_ops(*value).unwrap().push(Op::Return));
                    assert(self.patches@ =~= old(self).patches@ + Seq::<Patch>::empty());
                }
                Ok(())
            },
            ir::Terminator::Jump(block_id) => {
                let at = self.code.len();
                self.code.push(Op::Jump(u16::MAX));
                self.patches.push(Patch { at, target: *block_id, kind: PatchKind::Jump });
                proof {
                    assert(self.code@ =~= old(self).code@ + seq![Op::Jump(u16::MAX)]);
                    assert(self.patches@ =~= old(self).patches@ + seq![Patch { at, target: *block_id, kind: PatchKind::Jump }]);
                }
                Ok(())
            },
            ir::Terminator::Branch { cond, then_block: _, else_block } => {
                self.emit_value(cond)?;
                let at_cond = self.code.len();
                self.code.push(Op::JumpIfFalse(u16::MAX));
                self.patches.push(Patch { at: at_cond, target: *else_block, kind: PatchKind::JumpIfFalse });
                proof {
                    let o = value_ops(*cond).unwrap();
                    assert(self.code@ =~= old(self).code@ + o.push(Op::JumpIfFalse(u16::MAX)));
                    assert(self.patches@ =~= old(self).patches@ + seq![
                        Patch { at: at_cond, target: *else_block, kind: PatchKind::JumpIfFalse },
                    ]);
                }
                Ok(())
            },
            ir::Terminator::Unset => Err(EmitError::Unterminated),
        }
    }

    fn emit_blocks(&mut self, fun: &ir::Fun) -> (res: Result<(), EmitError>)
        requires
            patches_in(old(self).patches@, old(self).code@.len() as int),
        ensures
            res is Ok ==> patches_in(final(self).patches@, final(self).code@.len() as int),
            match blocks_emit(
                fun_blocks(*fun),
                fun.blocks@.len() as int,
                EmitState { code: old(self).code@, offsets: old(self).block_offsets@, patches: old(self).patches@ },
            ) {
                Ok(st) => res is Ok && final(self).code@ == st.code && final(self).block_offsets@ == st.offsets
                    && final(self).patches@ == st.patches,
                Err(e) => res == Err::<(), EmitError>(e),
            },
    {
        let ghost st0 = EmitState { code: self.code@, offsets: self.block_offsets@, patches: self.patches@ };
        let ghost fb = fun_blocks(*fun);
        let mut i: usize = 0;
        while i < fun.blocks.len()
            invariant
                i <= fun.blocks@.len(),
                patches_in(self.patches@, self.code@.len() as int),
                fb == fun_blocks(*fun),
                st0 == (EmitState { code: old(self).code@, offsets: old(self).block_offsets@, patches: old(self).patches@ }),
                blocks_emit(fb, i as int, st0) == Ok::<EmitState, EmitError>(
                    EmitState { code: self.code@, offsets: self.block_offsets@, patches: self.patches@ },
                ),
            decreases fun.blocks@.len() - i,
        {
            let block = &fun.blocks[i];
            let ghost s_i = EmitState { code: self.code@, offsets: self.block_offsets@, patches: self.patches@ };
            let ghost n = fun.blocks@.len() as int;
            proof {
                assert(fb[i as int] == (block.id, block.instrs@, block.term));
            }
            self.block_offsets.push((block.id, self.code.len()));
            let mut k: usize = 0;
            proof {
                assert(self.code@ =~= s_i.code + Seq::<Op>::empty());
            }
            while k < block.instrs.len()
                invariant
                    k <= block.instrs@.len(),
                    patches_in(self.patches@, self.code@.len() as int),
                    self.patches@ == s_i.patches,
                    self.block_offsets@ == s_i.offsets.push((block.id, s_i.code.len() as usize)),
                    instrs_ops(block.instrs@, k as int) matches Some(o) && self.code@ == s_i.code + o,
                    fb[i as int] == (block.id, block.instrs@, block.term),
                    blocks_emit(fb, i as int + 1, st0) == block_emit(fb[i as int], s_i),
                    i < n,
                    n == fb.len(),
                    fb == fun_blocks(*fun),
                    st0 == (EmitState { code: old(self).code@, offsets: old(self).block_offsets@, patches: old(self).patches@ }),
                decreases block.instrs@.len() - k,
            {
                match self.emit_instr(&block.instrs[k]) {
                    Ok(()) => {},
                    Err(e) => {
                        proof {
                            lemma_instrs_ops_none(block.instrs@, k + 1, block.instrs@.len() as int);
                            lemma_blocks_emit_err(fb, i + 1, n, st0, e);
                        }
                        return Err(e);
                    },
                }
                proof {
                    let o = instrs_ops(block.instrs@, k as int).unwrap();
                    assert(self.code@ =~= s_i.code + (o + instr_ops(block.instrs@[k as int]).unwrap()));
                }
                k = k + 1;
            }
            let ghost ops = instrs_ops(block.instrs@, block.instrs@.len() as int).unwrap();
            let ghost before_term = self.code@;
            match self.emit_terminator(&block.term) {
                Ok(()) => {},
                Err(e) => {
                    proof {
                        lemma_blocks_emit_err(fb, i + 1, n, st0, e);
                    }
                    return Err(e);
                },
            }
            proof {
                let (t, ps) = term_emit(block.term, before_term.len() as int).unwrap();
                assert(self.code@ =~= s_i.code + ops + t);
            }
            i = i + 1;
        }
        Ok(())
    }

    /// Points every jump at the start of its target block.
    fn patch_jumps(&mut self) -> (res: Result<(), EmitError>)
        requires
            patches_in(old(self).patches@, old(self).code@.len() as int),
        ensures
            final(self).code@.len() == old(self).code@.len(),
            match patch_all(old(self).code@, old(self).block_offsets@, old(self).patches@, old(self).patches@.len() as int) {
                Ok(c) => res is Ok && final(self).code@ == c,
                Err(e) => res == Err::<(), EmitError>(e),
            },
    {
        let mut i: usize = 0;
        while i < self.patches.len()
            invariant
                i <= self.patches@.len(),
                self.patches == old(self).patches,
                self.block_offsets == old(self).block_offsets,
                self.code@.len() == old(self).code@.len(),
                patches_in(self.patches@, self.code@.len() as int),
                patch_all(old(self).code@, old(self).block_offsets@, old(self).patches@, i as int) == Ok::<
                    Seq<Op>,
                    EmitError,
                >(self.code@),
            decreases self.patches@.len() - i,
        {
            let patch = self.patches[i];
            let ghost n = self.patches@.len() as int;
            let target_offset = match find_offset(&self.block_offsets, patch.target) {
                Some(o) => o,
                None => {
                    proof {
                        lemma_patch_all_err(old(self).code@, old(self).block_offsets@, old(self).patches@, i + 1, n, EmitError::MissingBlock);
                    }
                    return Err(EmitError::MissingBlock);
                },
            };
            match self.code[patch.at] {
                Op::Jump(_) => self.code.set(patch.at, Op::Jump(target_offset as u16)),
                Op::JumpIfFalse(_) => self.code.set(patch.at, Op::JumpIfFalse(target_offset as u16)),
                _ => {
                    proof {
                        lemma_patch_all_err(old(self).code@, old(self).block_offsets@, old(self).patches@, i + 1, n, EmitError::NotAJump);
                    }
                    return Err(EmitError::NotAJump);
                },
            }
            i = i + 1;
        }
        Ok(())
    }
}

/// Turns one lowered function into instructions.
pub fn emit_fun(fun: &ir::Fun) -> (res: Result<Function, EmitError>)
    ensures
        match fun_emit(*fun) {
            Ok(c) => res matches Ok(f) && f.code@ == c && f.local_count == fun.locals && f.arity == fun.arity as u8,
            Err(e) => res matches Err(e2) && e2 == e,
        },
{
    let mut emitter = Emitter::new();
    proof {
        assert(emitter.code@ =~= Seq::<Op>::empty());
        assert(emitter.block_offsets@ =~= Seq::<(BlockId, usize)>::empty());
        assert(emitter.patches@ =~= Seq::<Patch>::empty());
    }
    emitter.emit_blocks(fun)?;
    emitter.patch_jumps()?;
    Ok(Function { code: emitter.code, local_count: fun.locals as usize, arity: fun.arity as u8 })
}

/// Turns every function of a lowered program into instructions, in order.
pub fn emit(program: &ir::Program) -> (res: Result<Vec<Function>, EmitError>)
    ensures
        res is Ok <==> forall|i: int| 0 <= i < program.funs@.len() ==> (#[trigger] fun_emit(program.funs@[i])) is Ok,
        res matches Ok(fs) ==> fs@.len() == program.funs@.len() && forall|i: int|
            0 <= i < program.funs@.len() ==> {
                let f = #[trigger] fs@[i];
                &&& fun_emit(program.funs@[i]) == Ok::<Seq<Op>, EmitError>(f.code@)
                &&& f.local_count == program.funs@[i].locals
                &&& f.arity == program.funs@[i].arity as u8
            },
        res matches Err(e) ==> exists|i: int|
            0 <= i < program.funs@.len() && fun_emit(program.funs@[i]) == Err::<Seq<Op>, EmitError>(e) && forall|j: int|
                0 <= j < i ==> (#[trigger] fun_emit(program.funs@[j])) is Ok,
{
    let mut out: Vec<Function> = Vec::new();
    let mut i: usize = 0;
    while i < program.funs.len()
        invariant
            i <= program.funs@.len(),
            out@.len() == i,
            forall|k: int| 0 <= k < i ==> (#[trigger] fun_emit(program.funs@[k])) is Ok,
            forall|k: int|
                0 <= k < i ==> {
                    let f = #[trigger] out@[k];
                    &&& fun_emit(program.funs@[k]) == Ok::<Seq<Op>, EmitError>(f.code@)
                    &&& f.local_count == program.funs@[k].locals
                    &&& f.arity == program.funs@[k].arity as u8
                },
        decreases program.funs@.len() - i,
    {
        let f = match emit_fun(&program.funs[i]) {
            Ok(f) => f,
            Err(e) => {
                proof {
                    assert(fun_emit(program.funs@[i as int]) == Err::<Seq<Op>, EmitError>(e));
                }
                return Err(e);
            },
        };
        out.push(f);
        i = i + 1;
    }
    Ok(out)
}

/// A value of the machine.
#[derive(Clone, Copy, Debug, PartialEq, Eq, Structural)]
pub enum Value {
    Int(i32),
    Bool(bool),
}

impl Value {
    pub fn as_int(self) -> (res: i32)
        requires
            self is Int,
        ensures
            self == Value::Int(res),
    {
        match self {
            Value::Int(n) => n,
            _ => 0,
        }
    }

    pub fn as_bool(self) -> (res: bool)
        requires
            self is Bool,
        ensures
            self == Value::Bool(res),
    {
        match self {
            Value::Bool(b) => b,
            _ => false,
        }
    }
}

/// An active call: its function, where it is in the code, and where its
/// locals start on the stack.
#[derive(Clone, Copy, Debug, PartialEq, Eq, Structural)]
pub struct CallFrame {
    pub fun: ir::FunId,
    pub ip: usize,
    pub base: usize,
}

/// What a step did besides changing the state.
#[derive(Clone, Copy, Debug, PartialEq, Eq, Structural)]
pub enum Event {
    Continue,
    /// A call returned this value to its caller.
    Return(Value),
    /// The outermost call returned this value; the machine stops.
    Halt(Value),
}

/// Why the machine cannot go on.
#[derive(Clone, Copy, Debug, PartialEq, Eq, Structural)]
pub enum Fault {
    NoFrame,
    BadFunction,
    PastEnd,
    BadSlot,
    StackUnderflow,
    NotInt(Value),
    NotBool(Value),
    Arithmetic,
    /// A function called with more arguments than it has locals.
    TooManyArguments,
}

/// The result of a binary operation on the top two values: the stack after
/// it, or why it fails.
pub open spec fn bin_result(op: BinOp, stack: Seq<Value>) -> Result<Seq<Value>, Fault> {
    if stack.len() == 0 {
        Err(Fault::StackUnderflow)
    } else if op == BinOp::EqBool {
        match stack.last() {
            Value::Bool(r) => if stack.len() == 1 {
                Err(Fault::StackUnderflow)
            } else {
                match stack[stack.len() - 2] {
                    Value::Bool(l) => Ok(stack.drop_last().drop_last().push(Value::Bool(l == r))),
                    v => Err(Fault::NotBool(v)),
                }
            },
            v => Err(Fault::NotBool(v)),
        }
    } else {
        match stack.last() {
            Value::Int(r) => if stack.len() == 1 {
                Err(Fault::StackUnderflow)
            } else {
                match stack[stack.len() - 2] {
                    Value::Int(l) => {
                        let rest = stack.drop_last().drop_last();
                        let v = match op {
                            BinOp::AddInt => match l.checked_add(r) {
                                Some(x) => Some(Value::Int(x)),
                                None => None,
                            },
                            BinOp::SubInt => match l.checked_sub(r) {
                                Some(x) => Some(Value::Int(x)),
                                None => None,
                            },
                            BinOp::MulInt => match l.checked_mul(r) {
                                Some(x) => Some(Value::Int(x)),
                                None => None,
                            },
                            BinOp::DivInt => match l.checked_div(r) {
                                Some(x) => Some(Value::Int(x)),
                                None => None,
                            },
                            BinOp::EqInt => Some(Value::Bool(l == r)),
                            BinOp::GtInt => Some(Value::Bool(l > r)),
                            BinOp::GeInt => Some(Value::Bool(l >= r)),
                            BinOp::LtInt => Some(Value::Bool(l < r)),
                            _ => Some(Value::Bool(l <= r)),
                        };
                        match v {
                            Some(v) => Ok(rest.push(v)),
                            None => Err(Fault::Arithmetic),
                        }
                    },
                    v => Err(Fault::NotInt(v)),
                }
            },
            v => Err(Fault::NotInt(v)),
        }
    }
}

/// The integer operations pop the right operand, then the left one, and push
/// `left op right`: the sum, difference and product when it fits in an `i32`
/// (else the operation faults), the quotient rounded toward zero (a zero
/// divisor faults), and the comparisons of `left` with `right`; `EqBool`
/// compares two booleans.
pub proof fn lemma_bin_result_values(op: BinOp, rest: Seq<Value>, l: i32, r: i32, a: bool, b: bool)
    ensures
        ({
            let s = rest.push(Value::Int(l)).push(Value::Int(r));
            &&& op == BinOp::AddInt ==> bin_result(op, s) == if i32::MIN <= l + r <= i32::MAX {
                Ok::<Seq<Value>, Fault>(rest.push(Value::Int((l + r) as i32)))
            } else {
                Err(Fault::Arithmetic)
            }
            &&& op == BinOp::SubInt ==> bin_result(op, s) == if i32::MIN <= l - r <= i32::MAX {
                Ok::<Seq<Value>, Fault>(rest.push(Value::Int((l - r) as i32)))
            } else {
                Err(Fault::Arithmetic)
            }
            &&& op == BinOp::MulInt ==> bin_result(op, s) == if i32::MIN <= l * r <= i32::MAX {
                Ok::<Seq<Value>, Fault>(rest.push(Value::Int((l * r) as i32)))
            } else {
                Err(Fault::Arithmetic)
            }
            &&& op == BinOp::DivInt && r == 0 ==> bin_result(op, s) == Err::<Seq<Value>, Fault>(Fault::Arithmetic)
            &&& op == BinOp::DivInt && l >= 0 && r > 0 ==> bin_result(op, s) == Ok::<Seq<Value>, Fault>(
                rest.push(Value::Int(((l as int) / (r as int)) as i32)),
            )
            &&& op == BinOp::DivInt && l < 0 && r > 0 ==> bin_result(op, s) == Ok::<Seq<Value>, Fault>(
                rest.push(Value::Int((-((-(l as int)) / (r as int))) as i32)),
            )
            &&& op == BinOp::EqInt ==> bin_result(op, s) == Ok::<Seq<Value>, Fault>(rest.push(Value::Bool(l == r)))
            &&& op == BinOp::GtInt ==> bin_result(op, s) == Ok::<Seq<Value>, Fault>(rest.push(Value::Bool(l > r)))
            &&& op == BinOp::GeInt ==> bin_result(op, s) == Ok::<Seq<Value>, Fault>(rest.push(Value::Bool(l >= r)))
            &&& op == BinOp::LtInt ==> bin_result(op, s) == Ok::<Seq<Value>, Fault>(rest.push(Value::Bool(l < r)))
            &&& op == BinOp::LeInt ==> bin_result(op, s) == Ok::<Seq<Value>, Fault>(rest.push(Value::Bool(l <= r)))
        }),
        bin_result(BinOp::EqBool, rest.push(Value::Bool(a)).push(Value::Bool(b))) == Ok::<Seq<Value>, Fault>(
            rest.push(Value::Bool(a == b)),
        ),
{
    let s = rest.push(Value::Int(l)).push(Value::Int(r));
    assert(s.drop_last().drop_last() =~= rest);
    assert(s.last() == Value::Int(r));
    assert(s[s.len() - 2] == Value::Int(l));
    let sb = rest.push(Value::Bool(a)).push(Value::Bool(b));
    assert(sb.drop_last().drop_last() =~= rest);
    assert(sb[sb.len() - 2] == Value::Bool(a));
    if op == BinOp::DivInt && r > 0 {
        assert(0 <= (if l >= 0 { l as int } else { -l }) / (r as int) <= (if l >= 0 { l as int } else { -l }))
            by (nonlinear_arith)
            requires r > 0, l >= i32::MIN;
    }
}

/// The frames after a call of function `f` with `argc` arguments on top of
/// `stack`, and the stack with its other locals set to 0; or why the call
/// cannot be made.
pub open spec fn call_result(
    functions: Seq<Function>,
    stack: Seq<Value>,
    frames: Seq<CallFrame>,
    f: ir::FunId,
    argc: u8,
) -> Result<(Seq<Value>, Seq<CallFrame>), Fault> {
    if f as int >= functions.len() {
        Err(Fault::BadFunction)
    } else if stack.len() < argc {
        Err(Fault::StackUnderflow)
    } else if functions[f as int].local_count < argc {
        Err(Fault::TooManyArguments)
    } else {
        let extra = functions[f as int].local_count - argc;
        Ok(
            (
                stack + Seq::new(extra as nat, |i: int| Value::Int(0)),
                frames.push(CallFrame { fun: f, ip: 0, base: (stack.len() - argc) as usize }),
            ),
        )
    }
}

/// One step of the machine: the stack and frames after it, and what
/// happened; or why it cannot go on.
pub open spec fn transition(functions: Seq<Function>, stack: Seq<Value>, frames: Seq<CallFrame>) -> Result<
    (Seq<Value>, Seq<CallFrame>, Event),
    Fault,
> {
    if frames.len() == 0 {
        Err(Fault::NoFrame)
    } else {
        let f = frames.last();
        if f.fun as int >= functions.len() {
            Err(Fault::BadFunction)
        } else if f.ip as int >= functions[f.fun as int].code@.len() {
            Err(Fault::PastEnd)
        } else {
            let op = functions[f.fun as int].code@[f.ip as int];
            let fr = frames.update(frames.len() - 1, CallFrame { ip: (f.ip + 1) as usize, ..f });
            match op {
                Op::ConstInt(n) => Ok((stack.push(Value::Int(n)), fr, Event::Continue)),
                Op::ConstBool(b) => Ok((stack.push(Value::Bool(b)), fr, Event::Continue)),
                Op::LoadLocal(slot) => if f.base + slot >= stack.len() {
                    Err(Fault::BadSlot)
                } else {
                    Ok((stack.push(stack[f.base + slot]), fr, Event::Continue))
                },
                Op::StoreLocal(slot) => if stack.len() == 0 {
                    Err(Fault::StackUnderflow)
                } else if f.base + slot >= stack.len() - 1 {
                    Err(Fault::BadSlot)
                } else {
                    Ok((stack.drop_last().update(f.base + slot, stack.last()), fr, Event::Continue))
                },
                Op::Bin(b) => match bin_result(b, stack) {
                    Ok(s) => Ok((s, fr, Event::Continue)),
                    Err(e) => Err(e),
                },
                Op::Jump(t) => Ok(
                    (stack, frames.update(frames.len() - 1, CallFrame { ip: t as usize, ..f }), Event::Continue),
                ),
                Op::JumpIfFalse(t) => if stack.len() == 0 {
                    Err(Fault::StackUnderflow)
                } else {
                    match stack.last() {
                        Value::Bool(b) => Ok(
                            (
                                stack.drop_last(),
                                if b {
                                    fr
                                } else {
                                    frames.update(frames.len() - 1, CallFrame { ip: t as usize, ..f })
                                },
                                Event::Continue,
                            ),
                        ),
                        v => Err(Fault::NotBool(v)),
                    }
                },
                Op::Call(g, argc) => match call_result(functions, stack, fr, g, argc) {
                    Ok((s, fs)) => Ok((s, fs, Event::Continue)),
                    Err(e) => Err(e),
                },
                Op::Return => if stack.len() == 0 {
                    Err(Fault::StackUnderflow)
                } else {
                    let v = stack.last();
                    let rest = stack.drop_last();
                    let frames2 = frames.drop_last();
                    if frames2.len() == 0 {
                        Ok((rest, frames2, Event::Halt(v)))
                    } else {
                        let kept = if f.base <= rest.len() {
                            rest.take(f.base as int)
                        } else {
                            rest
                        };
                        Ok((kept.push(v), frames2, Event::Return(v)))
                    }
                },
            }
        }
    }
}

/// The machine for lowered functions: a value stack, the active calls, and
/// the functions.
pub struct VM {
    stack: Vec<Value>,
    frames: Vec<CallFrame>,
    pub functions: Vec<Function>,
}

impl VM {
    pub closed spec fn stack(&self) -> Seq<Value> {
        self.stack@
    }

    pub closed spec fn frames(&self) -> Seq<CallFrame> {
        self.frames@
    }

    pub closed spec fn functions(&self) -> Seq<Function> {
        self.functions@
    }

    pub fn new(functions: Vec<Function>) -> (res: VM)
        ensures
            res.stack().len() == 0,
            res.frames().len() == 0,
            res.functions() == functions@,
    {
        VM { stack: Vec::new(), frames: Vec::new(), functions }
    }

    pub fn push(&mut self, value: Value)
        ensures
            final(self).stack() == old(self).stack().push(value),
            final(self).frames() == old(self).frames(),
            final(self).functions() == old(self).functions(),
    {
        self.stack.push(value);
    }

    pub fn pop(&mut self) -> (res: Result<Value, Fault>)
        ensures
            final(self).frames() == old(self).frames(),
            final(self).functions() == old(self).functions(),
            old(self).stack().len() == 0 ==> res == Err::<Value, Fault>(Fault::StackUnderflow) && final(self).stack() == old(self).stack(),
            old(self).stack().len() > 0 ==> res == Ok::<Value, Fault>(old(self).stack().last()) && final(self).stack() == old(self).stack().drop_last(),
    {
        match self.stack.pop() {
            Some(v) => Ok(v),
            None => Err(Fault::StackUnderflow),
        }
    }

    /// The top two integers, the lower first.
    pub fn pop_int2(&mut self) -> (res: Result<(i32, i32), Fault>)
        ensures
            final(self).frames() == old(self).frames(),
            final(self).functions() == old(self).functions(),
            ({
                let s = old(self).stack();
                if s.len() == 0 {
                    res == Err::<(i32, i32), Fault>(Fault::StackUnderflow)
                } else if !(s.last() is Int) {
                    res == Err::<(i32, i32), Fault>(Fault::NotInt(s.last()))
                } else if s.len() == 1 {
                    res == Err::<(i32, i32), Fault>(Fault::StackUnderflow)
                } else if !(s[s.len() - 2] is Int) {
                    res == Err::<(i32, i32), Fault>(Fault::NotInt(s[s.len() - 2]))
                } else {
                    &&& res matches Ok((l, r))
                    &&& Value::Int(l) == s[s.len() - 2]
                    &&& Value::Int(r) == s.last()
                    &&& final(self).stack() == s.drop_last().drop_last()
                }
            }),
    {
        let rhs = match self.pop()? {
            Value::Int(n) => n,
            v => {
                return Err(Fault::NotInt(v));
            },
        };
        let lhs = match self.pop()? {
            Value::Int(n) => n,
            v => {
                return Err(Fault::NotInt(v));
            },
        };
        Ok((lhs, rhs))
    }

    /// The top two booleans, the lower first.
    pub fn pop_bool2(&mut self) -> (res: Result<(bool, bool), Fault>)
        ensures
            final(self).frames() == old(self).frames(),
            final(self).functions() == old(self).functions(),
            ({
                let s = old(self).stack();
                if s.len() == 0 {
                    res == Err::<(bool, bool), Fault>(Fault::StackUnderflow)
                } else if !(s.last() is Bool) {
                    res == Err::<(bool, bool), Fault>(Fault::NotBool(s.last()))
                } else if s.len() == 1 {
                    res == Err::<(bool, bool), Fault>(Fault::StackUnderflow)
                } else if !(s[s.len() - 2] is Bool) {
                    res == Err::<(bool, bool), Fault>(Fault::NotBool(s[s.len() - 2]))
                } else {
                    &&& res matches Ok((l, r))
                    &&& Value::Bool(l) == s[s.len() - 2]
                    &&& Value::Bool(r) == s.last()
                    &&& final(self).stack() == s.drop_last().drop_last()
                }
            }),
    {
        let rhs = match self.pop()? {
            Value::Bool(b) => b,
            v => {
                return Err(Fault::NotBool(v));
            },
        };
        let lhs = match self.pop()? {
            Value::Bool(b) => b,
            v => {
                return Err(Fault::NotBool(v));
            },
        };
        Ok((lhs, rhs))
    }

    /// Applies `op` to the top two values.
    pub fn exec_bin(&mut self, op: BinOp) -> (res: Result<(), Fault>)
        ensures
            final(self).frames() == old(self).frames(),
            final(self).functions() == old(self).functions(),
            match bin_result(op, old(self).stack()) {
                Ok(s) => res is Ok && final(self).stack() == s,
                Err(e) => res == Err::<(), Fault>(e),
            },
    {
        if op == BinOp::EqBool {
            let (lhs, rhs) = self.pop_bool2()?;
            self.push(Value::Bool(lhs == rhs));
            return Ok(());
        }
        let (lhs, rhs) = self.pop_int2()?;
        let v = match op {
            BinOp::AddInt => match lhs.checked_add(rhs) {
                Some(x) => Value::Int(x),
                None => {
                    return Err(Fault::Arithmetic);
                },
            },
            BinOp::SubInt => match lhs.checked_sub(rhs) {
                Some(x) => Value::Int(x),
                None => {
                    return Err(Fault::Arithmetic);
                },
            },
            BinOp::MulInt => match lhs.checked_mul(rhs) {
                Some(x) => Value::Int(x),
                None => {
                    return Err(Fault::Arithmetic);
                },
            },
            BinOp::DivInt => match lhs.checked_div(rhs) {
                Some(x) => Value::Int(x),
                None => {
                    return Err(Fault::Arithmetic);
                },
            },
            BinOp::EqInt => Value::Bool(lhs == rhs),
            BinOp::GtInt => Value::Bool(lhs > rhs),
            BinOp::GeInt => Value::Bool(lhs >= rhs),
            BinOp::LtInt => Value::Bool(lhs < rhs),
            _ => Value::Bool(lhs <= rhs),
        };
        self.push(v);
        Ok(())
    }

    /// Starts a call of function `fun_id` whose `argc` arguments are on top
    /// of the stack, its other locals set to 0.
    pub fn call(&mut self, fun_id: ir::FunId, argc: u8) -> (res: Result<(), Fault>)
        ensures
            final(self).functions() == old(self).functions(),
            match call_result(old(self).functions(), old(self).stack(), old(self).frames(), fun_id, argc) {
                Ok((s, fs)) => res is Ok && final(self).stack() == s && final(self).frames() == fs,
                Err(e) => res == Err::<(), Fault>(e) && final(self).stack() == old(self).stack() && final(self).frames() == old(self).frames(),
            },
    {
        if fun_id as usize >= self.functions.len() {
            return Err(Fault::BadFunction);
        }
        if self.stack.len() < argc as usize {
            return Err(Fault::StackUnderflow);
        }
        let local_count = self.functions[fun_id as usize].local_count;
        if local_count < argc as usize {
            return Err(Fault::TooManyArguments);
        }
        let frame = CallFrame { fun: fun_id, ip: 0, base: self.stack.len() - argc as usize };
        let extra = local_count - argc as usize;
        let ghost s0 = self.stack@;
        let mut i: usize = 0;
        while i < extra
            invariant
                i <= extra,
                self.stack@ == s0 + Seq::new(i as nat, |k: int| Value::Int(0)),
                self.frames == old(self).frames,
                self.functions == old(self).functions,
            decreases extra - i,
        {
            self.stack.push(Value::Int(0));
            i = i + 1;
            proof {
                assert(self.stack@ =~= s0 + Seq::new(i as nat, |k: int| Value::Int(0)));
            }
        }
        self.frames.push(frame);
        Ok(())
    }

    /// Runs one instruction of the running call.
    pub fn step(&mut self) -> (res: Result<Event, Fault>)
        ensures
            final(self).functions() == old(self).functions(),
            match transition(old(self).functions(), old(self).stack(), old(self).frames()) {
                Ok((s, fs, e)) => res == Ok::<Event, Fault>(e) && final(self).stack() == s && final(self).frames() == fs,
                Err(f) => res == Err::<Event, Fault>(f),
            },
    {
        if self.frames.len() == 0 {
            return Err(Fault::NoFrame);
        }
        let last = self.frames.len() - 1;
        let f = self.frames[last];
        if f.fun as usize >= self.functions.len() {
            return Err(Fault::BadFunction);
        }
        if f.ip >= self.functions[f.fun as usize].code.len() {
            return Err(Fault::PastEnd);
        }
        let op = self.functions[f.fun as usize].code[f.ip];
        self.frames.set(last, CallFrame { ip: f.ip + 1, ..f });
        match op {
            Op::ConstInt(n) => {
                self.push(Value::Int(n));
                Ok(Event::Continue)
            },
            Op::ConstBool(b) => {
                self.push(Value::Bool(b));
                Ok(Event::Continue)
            },
            Op::LoadLocal(slot) => {
                if f.base >= self.stack.len() || slot as usize >= self.stack.len() - f.base {
                    return Err(Fault::BadSlot);
                }
                let v = self.stack[f.base + slot as usize];
                self.push(v);
                Ok(Event::Continue)
            },
            Op::StoreLocal(slot) => {
                if self.stack.len() == 0 {
                    return Err(Fault::StackUnderflow);
                }
                if f.base >= self.stack.len() - 1 || slot as usize >= self.stack.len() - 1 - f.base {
                    return Err(Fault::BadSlot);
                }
                let v = self.pop()?;
                self.stack.set(f.base + slot as usize, v);
                Ok(Event::Continue)
            },
            Op::Bin(b) => {
                self.exec_bin(b)?;
                Ok(Event::Continue)
            },
            Op::Jump(t) => {
                self.frames.set(last, CallFrame { ip: t as usize, ..f });
                Ok(Event::Continue)
            },
            Op::JumpIfFalse(t) => {
                let v = self.pop()?;
                match v {
                    Value::Bool(b) => {
                        if !b {
                            self.frames.set(last, CallFrame { ip: t as usize, ..f });
                        }
                        Ok(Event::Continue)
                    },
                    _ => Err(Fault::NotBool(v)),
                }
            },
            Op::Call(g, argc) => {
                self.call(g, argc)?;
                Ok(Event::Continue)
            },
            Op::Return => {
                let v = self.pop()?;
                self.frames.pop();
                if self.frames.len() == 0 {
                    return Ok(Event::Halt(v));
                }
                let ghost rest = self.stack@;
                self.stack.truncate(f.base);
                proof {
                    if f.base == rest.len() {
                        assert(rest.subrange(0, f.base as int) =~= rest);
                    }
                }
                self.push(v);
                Ok(Event::Return(v))
            },
        }
    }
}

} // verus!
