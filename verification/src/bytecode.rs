use vstd::prelude::*;

use crate::opcode::{
    is_opcode, name_of, ADD_INT, CALL, CLOSURE, CONST, DIV_INT, EQ_BOOL, EQ_INT, FALSE, GE_INT,
    GT_INT, JMP, JMP_FALSE, LE_INT, LOAD_CAPTURE, LOAD_LOCAL, LT_INT, MUL_INT, RET, SUB_INT, TRUE,
};
use crate::ast::{Ast, AstTable, Expr, ExprId, Lit, Node};
use crate::lexer::Token;
use crate::resolver::{Local, Resolution};
use crate::types::TypeId;
use crate::opcode::as_str;
use crate::text::{
    decimal_chars, int_chars, push_i32, push_space_padded, push_str, push_usize, push_zero_padded,
    space_pad, zero_pad,
};

verus! {

/// A binary operation of the machine.
#[derive(Clone, Copy, Debug, PartialEq, Eq, Structural)]
pub enum BinOp {
    AddInt,
    SubInt,
    MulInt,
    DivInt,
    EqInt,
    LtInt,
    LeInt,
    GtInt,
    GeInt,
    EqBool,
}

/// An instruction of the first instruction set, kept as values.
#[derive(Clone, Copy, Debug, PartialEq, Eq, Structural)]
pub enum Op {
    ConstInt(i32),
    ConstBool(bool),
    LoadLocal(u16),
    LoadCapture(u16),
    Bin(BinOp),
    Jmp(u16),
    JmpIfFalse(u16),
    Closure(usize, u8),
    Call(u8),
    Ret,
}

/// A value of the machine: closures are numbered by where they were made.
#[derive(Clone, Copy, Debug, PartialEq, Eq, Structural)]
pub enum Value {
    Int(i32),
    Bool(bool),
    Closure(usize),
}

/// How a value is written.
pub open spec fn value_str(v: Value) -> Seq<char> {
    match v {
        Value::Int(n) => int_chars(n as int),
        Value::Bool(b) => if b {
            "true"@
        } else {
            "false"@
        },
        Value::Closure(_) => "<fn>"@,
    }
}

impl Value {
    pub fn as_int(self) -> (res: i32)
        requires
            self is Int,
        ensures
            self == Value::Int(res),
    {
        match self {
            Value::Int(n) => n,
            _ => 0,
        }
    }

    pub fn as_bool(self) -> (res: bool)
        requires
            self is Bool,
        ensures
            self == Value::Bool(res),
    {
        match self {
            Value::Bool(b) => b,
            _ => false,
        }
    }

    pub fn as_closure(self) -> (res: usize)
        requires
            self is Closure,
        ensures
            self == Value::Closure(res),
    {
        match self {
            Value::Closure(c) => c,
            _ => 0,
        }
    }

    /// Appends how the value is written.
    pub fn push_to(self, out: &mut String)
        ensures
            final(out)@ == old(out)@ + value_str(self),
    {
        match self {
            Value::Int(n) => push_i32(out, n),
            Value::Bool(b) => {
                if b {
                    push_str(out, "true");
                } else {
                    push_str(out, "false");
                }
            },
            Value::Closure(_) => push_str(out, "<fn>"),
        }
    }
}

/// A compiled function: its code, the number of its parameters, the bindings
/// it captures in slot order, and its constants.
#[derive(Debug)]
pub struct Fun {
    pub code: Vec<u8>,
    pub arity: u8,
    pub captures: Vec<Local>,
    pub consts: Vec<Value>,
}

/// A function made at run time, with the values it captured.
#[derive(Debug)]
pub struct Closure {
    pub fun: usize,
    pub captures: Vec<Value>,
}

/// An active call: the closure it runs, where it is in the code, and where
/// its arguments start on the stack.
#[derive(Clone, Copy, Debug, PartialEq, Eq, Structural)]
pub struct CallFrame {
    pub closure: usize,
    pub ip: usize,
    pub base: usize,
}

/// What a step of the machine did besides changing its state.
#[derive(Clone, Copy, Debug, PartialEq, Eq, Structural)]
pub enum Event {
    Continue,
    /// A call returned this value to its caller.
    Return(Value),
    /// The outermost call returned this value; the machine stops.
    Halt(Value),
}

/// Why the machine cannot go on.
#[derive(Clone, Copy, Debug, PartialEq, Eq, Structural)]
pub enum Fault {
    NoFrame,
    BadClosure,
    PastEnd,
    BadOpcode(u8),
    BadConst,
    BadSlot,
    StackUnderflow,
    NotInt(Value),
    NotBool(Value),
    NotClosure(Value),
    Arithmetic,
}

/// The mutable part of the machine, as values.
pub struct Machine {
    pub stack: Seq<Value>,
    pub frames: Seq<CallFrame>,
    pub closures: Seq<(usize, Seq<Value>)>,
}

/// The big-endian number in bytes `i` and `i + 1` of `code`.
pub open spec fn read_u16(code: Seq<u8>, i: int) -> int {
    code[i] as int * 256 + code[i + 1] as int
}

/// The number written with `Builder::write_u16` reads back unchanged: high
/// byte first, then low byte.
pub proof fn lemma_read_written_u16(code: Seq<u8>, n: u16)
    ensures
        read_u16(code + seq![(n / 256) as u8, (n % 256) as u8], code.len() as int) == n,
{
    let c = code + seq![(n / 256) as u8, (n % 256) as u8];
    assert(c[code.len() as int] == (n / 256) as u8);
    assert(c[code.len() as int + 1] == (n % 256) as u8);
}

/// The values that a closure made by the instruction at `ip` captures, from
/// the `k`-th on: each a pair of bytes, a flag for a local of the frame at
/// `base` or a capture of the running closure, and its slot.
pub open spec fn read_captures(
    code: Seq<u8>,
    ip: int,
    k: int,
    n: int,
    stack: Seq<Value>,
    base: int,
    caps: Seq<Value>,
) -> Result<Seq<Value>, Fault>
    decreases n - k,
{
    if k >= n {
        Ok(Seq::empty())
    } else if ip + 3 + 2 * k >= code.len() {
        Err(Fault::PastEnd)
    } else {
        let is_local = code[ip + 2 + 2 * k] != 0;
        let index = code[ip + 3 + 2 * k] as int;
        let v = if is_local {
            if base + index < stack.len() {
                Ok(stack[base + index])
            } else {
                Err(Fault::BadSlot)
            }
        } else {
            if index < caps.len() {
                Ok(caps[index])
            } else {
                Err(Fault::BadSlot)
            }
        };
        match v {
            Err(f) => Err(f),
            Ok(v) => match read_captures(code, ip, k + 1, n, stack, base, caps) {
                Err(f) => Err(f),
                Ok(rest) => Ok(seq![v] + rest),
            },
        }
    }
}

/// The result of an integer operation, or `None` where it overflows or
/// divides by zero.
pub open spec fn int_op(op: u8, lhs: i32, rhs: i32) -> Option<Value> {
    if op == ADD_INT {
        match lhs.checked_add(rhs) {
            Some(v) => Some(Value::Int(v)),
            None => None,
        }
    } else if op == SUB_INT {
        match lhs.checked_sub(rhs) {
            Some(v) => Some(Value::Int(v)),
            None => None,
        }
    } else if op == MUL_INT {
        match lhs.checked_mul(rhs) {
            Some(v) => Some(Value::Int(v)),
            None => None,
        }
    } else if op == DIV_INT {
        match lhs.checked_div(rhs) {
            Some(v) => Some(Value::Int(v)),
            None => None,
        }
    } else if op == EQ_INT {
        Some(Value::Bool(lhs == rhs))
    } else if op == GT_INT {
        Some(Value::Bool(lhs > rhs))
    } else if op == GE_INT {
        Some(Value::Bool(lhs >= rhs))
    } else if op == LT_INT {
        Some(Value::Bool(lhs < rhs))
    } else {
        Some(Value::Bool(lhs <= rhs))
    }
}

/// The frames with the running one moved to `ip`.
pub open spec fn goto(frames: Seq<CallFrame>, ip: int) -> Seq<CallFrame> {
    frames.update(frames.len() - 1, CallFrame { ip: ip as usize, ..frames.last() })
}

/// One step of the machine running the functions `funs`: the next state and
/// what happened, or why it cannot go on.
pub open spec fn transition(funs: Seq<Fun>, m: Machine) -> Result<(Machine, Event), Fault> {
    if m.frames.len() == 0 {
        Err(Fault::NoFrame)
    } else {
        let f = m.frames.last();
        let ci = f.closure as int;
        if ci >= m.closures.len() || m.closures[ci].0 >= funs.len() {
            Err(Fault::BadClosure)
        } else {
            let fun = funs[m.closures[ci].0 as int];
            let code = fun.code@;
            let consts = fun.consts@;
            let caps = m.closures[ci].1;
            let ip = f.ip as int;
            let base = f.base as int;
            let stack = m.stack;
            if ip >= code.len() {
                Err(Fault::PastEnd)
            } else {
                let op = code[ip];
                let next = |s: Seq<Value>, ip2: int|
                    Ok((Machine { stack: s, frames: goto(m.frames, ip2), closures: m.closures }, Event::Continue));
                if op == CONST {
                    if ip + 1 >= code.len() {
                        Err(Fault::PastEnd)
                    } else if code[ip + 1] as int >= consts.len() {
                        Err(Fault::BadConst)
                    } else {
                        next(stack.push(consts[code[ip + 1] as int]), ip + 2)
                    }
                } else if op == TRUE {
                    next(stack.push(Value::Bool(true)), ip + 1)
                } else if op == FALSE {
                    next(stack.push(Value::Bool(false)), ip + 1)
                } else if op == LOAD_LOCAL {
                    if ip + 1 >= code.len() {
                        Err(Fault::PastEnd)
                    } else if base + code[ip + 1] as int >= stack.len() {
                        Err(Fault::BadSlot)
                    } else {
                        next(stack.push(stack[base + code[ip + 1] as int]), ip + 2)
                    }
                } else if op == LOAD_CAPTURE {
                    if ip + 1 >= code.len() {
                        Err(Fault::PastEnd)
                    } else if code[ip + 1] as int >= caps.len() {
                        Err(Fault::BadSlot)
                    } else {
                        next(stack.push(caps[code[ip + 1] as int]), ip + 2)
                    }
                } else if op == JMP {
                    if ip + 2 >= code.len() {
                        Err(Fault::PastEnd)
                    } else if ip + 3 + read_u16(code, ip + 1) > usize::MAX {
                        Err(Fault::PastEnd)
                    } else {
                        next(stack, ip + 3 + read_u16(code, ip + 1))
                    }
                } else if op == JMP_FALSE {
                    if ip + 2 >= code.len() {
                        Err(Fault::PastEnd)
                    } else if stack.len() == 0 {
                        Err(Fault::StackUnderflow)
                    } else {
                        match stack.last() {
                            Value::Bool(b) => if b {
                                next(stack.drop_last(), ip + 3)
                            } else if ip + 3 + read_u16(code, ip + 1) > usize::MAX {
                                Err(Fault::PastEnd)
                            } else {
                                next(stack.drop_last(), ip + 3 + read_u16(code, ip + 1))
                            },
                            v => Err(Fault::NotBool(v)),
                        }
                    }
                } else if op == CLOSURE {
                    if ip + 1 >= code.len() {
                        Err(Fault::PastEnd)
                    } else if code[ip + 1] as int >= consts.len() {
                        Err(Fault::BadConst)
                    } else {
                        match consts[code[ip + 1] as int] {
                            Value::Closure(fi) => if fi >= funs.len() {
                                Err(Fault::BadClosure)
                            } else {
                                let n = funs[fi as int].captures@.len() as int;
                                match read_captures(code, ip, 0, n, stack, base, caps) {
                                    Err(e) => Err(e),
                                    Ok(values) => Ok(
                                        (
                                            Machine {
                                                stack: stack.push(Value::Closure(m.closures.len() as usize)),
                                                frames: goto(m.frames, ip + 2 + 2 * n),
                                                closures: m.closures.push((fi, values)),
                                            },
                                            Event::Continue,
                                        ),
                                    ),
                                }
                            },
                            v => Err(Fault::NotClosure(v)),
                        }
                    }
                } else if op == CALL {
                    if ip + 1 >= code.len() {
                        Err(Fault::PastEnd)
                    } else {
                        let argc = code[ip + 1] as int;
                        if stack.len() <= argc {
                            Err(Fault::StackUnderflow)
                        } else {
                            match stack[stack.len() - 1 - argc] {
                                Value::Closure(clo) => if clo >= m.closures.len() {
                                    Err(Fault::BadClosure)
                                } else {
                                    Ok(
                                        (
                                            Machine {
                                                stack,
                                                frames: goto(m.frames, ip + 2).push(
                                                    CallFrame {
                                                        closure: clo,
                                                        ip: 0,
                                                        base: (stack.len() - argc) as usize,
                                                    },
                                                ),
                                                closures: m.closures,
                                            },
                                            Event::Continue,
                                        ),
                                    )
                                },
                                v => Err(Fault::NotClosure(v)),
                            }
                        }
                    }
                } else if op == RET {
                    if stack.len() == 0 {
                        Err(Fault::StackUnderflow)
                    } else {
                        let v = stack.last();
                        let rest = stack.drop_last();
                        let frames = m.frames.drop_last();
                        if frames.len() == 0 {
                            Ok((Machine { stack: rest, frames, closures: m.closures }, Event::Halt(v)))
                        } else if base == 0 {
                            Err(Fault::StackUnderflow)
                        } else {
                            let kept = if base - 1 < rest.len() {
                                rest.take(base - 1)
                            } else {
                                rest
                            };
                            Ok((Machine { stack: kept.push(v), frames, closures: m.closures }, Event::Return(v)))
                        }
                    }
                } else if ADD_INT <= op <= LE_INT {
                    if stack.len() == 0 {
                        Err(Fault::StackUnderflow)
                    } else {
                        match stack.last() {
                            Value::Int(r) => if stack.len() == 1 {
                                Err(Fault::StackUnderflow)
                            } else {
                                match stack[stack.len() - 2] {
                                    Value::Int(l) => match int_op(op, l, r) {
                                        Some(v) => next(stack.drop_last().drop_last().push(v), ip + 1),
                                        None => Err(Fault::Arithmetic),
                                    },
                                    v => Err(Fault::NotInt(v)),
                                }
                            },
                            v => Err(Fault::NotInt(v)),
                        }
                    }
                } else if op == EQ_BOOL {
                    if stack.len() == 0 {
                        Err(Fault::StackUnderflow)
                    } else {
                        match stack.last() {
                            Value::Bool(r) => if stack.len() == 1 {
                                Err(Fault::StackUnderflow)
                            } else {
                                match stack[stack.len() - 2] {
                                    Value::Bool(l) => next(
                                        stack.drop_last().drop_last().push(Value::Bool(l == r)),
                                        ip + 1,
                                    ),
                                    v => Err(Fault::NotBool(v)),
                                }
                            },
                            v => Err(Fault::NotBool(v)),
                        }
                    }
                } else {
                    Err(Fault::BadOpcode(op))
                }
            }
        }
    }
}

/// The code of the function that the running frame of `m` runs.
pub open spec fn running_code(funs: Seq<Fun>, m: Machine) -> Seq<u8> {
    funs[m.closures[m.frames.last().closure as int].0 as int].code@
}

/// The running frame of `m` is at an instruction `op` of `funs`.
pub open spec fn at_instruction(funs: Seq<Fun>, m: Machine, op: u8) -> bool {
    &&& m.frames.len() > 0
    &&& (m.frames.last().closure as int) < m.closures.len()
    &&& (m.closures[m.frames.last().closure as int].0 as int) < funs.len()
    &&& (m.frames.last().ip as int) < running_code(funs, m).len()
    &&& running_code(funs, m)[m.frames.last().ip as int] == op
}

/// `m` gone on at `ip` with the stack `stack`.
pub open spec fn continue_at(m: Machine, stack: Seq<Value>, ip: int) -> Result<(Machine, Event), Fault> {
    Ok((Machine { stack, frames: goto(m.frames, ip), closures: m.closures }, Event::Continue))
}

/// `TRUE` and `FALSE` push their boolean. `JMP_FALSE` pops a boolean: on
/// `true` it goes on after its two offset bytes, on `false` it skips as many
/// bytes more as the offset says. `EQ_BOOL` pops two booleans and pushes
/// whether they are equal.
pub proof fn lemma_bool_instructions(funs: Seq<Fun>, m: Machine, op: u8)
    requires
        at_instruction(funs, m, op),
    ensures
        ({
            let ip = m.frames.last().ip as int;
            let code = running_code(funs, m);
            &&& op == TRUE ==> transition(funs, m) == continue_at(m, m.stack.push(Value::Bool(true)), ip + 1)
            &&& op == FALSE ==> transition(funs, m) == continue_at(m, m.stack.push(Value::Bool(false)), ip + 1)
            &&& op == JMP_FALSE && ip + 2 < code.len() && m.stack.len() > 0 && m.stack.last() == Value::Bool(true)
                ==> transition(funs, m) == continue_at(m, m.stack.drop_last(), ip + 3)
            &&& op == JMP_FALSE && ip + 2 < code.len() && m.stack.len() > 0 && m.stack.last() == Value::Bool(false)
                && ip + 3 + read_u16(code, ip + 1) <= usize::MAX ==> transition(funs, m) == continue_at(
                m,
                m.stack.drop_last(),
                ip + 3 + code[ip + 1] * 256 + code[ip + 2],
            )
            &&& op == EQ_BOOL && m.stack.len() >= 2 && m.stack.last() is Bool && m.stack[m.stack.len() - 2] is Bool
                ==> transition(funs, m) == continue_at(
                m,
                m.stack.drop_last().drop_last().push(
                    Value::Bool(m.stack[m.stack.len() - 2]->Bool_0 == m.stack.last()->Bool_0),
                ),
                ip + 1,
            )
        }),
{
}

/// The running frame of `m` is at an instruction `op` of `funs`, with the
/// integers `l` and then `r` on top of the stack (`r` topmost).
pub open spec fn at_int_operands(funs: Seq<Fun>, m: Machine, op: u8, l: i32, r: i32) -> bool {
    &&& at_instruction(funs, m, op)
    &&& m.stack.len() >= 2
    &&& m.stack.last() == Value::Int(r)
    &&& m.stack[m.stack.len() - 2] == Value::Int(l)
}

/// `m` after an instruction of one byte that replaced its two topmost values
/// by `v`.
pub open spec fn after_binary(m: Machine, v: Value) -> Result<(Machine, Event), Fault> {
    Ok(
        (
            Machine {
                stack: m.stack.drop_last().drop_last().push(v),
                frames: goto(m.frames, m.frames.last().ip + 1),
                closures: m.closures,
            },
            Event::Continue,
        ),
    )
}

/// The integer instructions pop the right operand, then the left one, and
/// push `left op right`: the sum, difference and product when it fits in an
/// `i32` (else the step faults), the quotient rounded toward zero (a zero
/// divisor faults), and the comparisons of `left` with `right`.
pub proof fn lemma_int_instructions(funs: Seq<Fun>, m: Machine, op: u8, l: i32, r: i32)
    requires
        at_int_operands(funs, m, op, l, r),
    ensures
        op == ADD_INT ==> transition(funs, m) == if i32::MIN <= l + r <= i32::MAX {
            after_binary(m, Value::Int((l + r) as i32))
        } else {
            Err(Fault::Arithmetic)
        },
        op == SUB_INT ==> transition(funs, m) == if i32::MIN <= l - r <= i32::MAX {
            after_binary(m, Value::Int((l - r) as i32))
        } else {
            Err(Fault::Arithmetic)
        },
        op == MUL_INT ==> transition(funs, m) == if i32::MIN <= l * r <= i32::MAX {
            after_binary(m, Value::Int((l * r) as i32))
        } else {
            Err(Fault::Arithmetic)
        },
        op == DIV_INT && r == 0 ==> transition(funs, m) == Err::<(Machine, Event), Fault>(Fault::Arithmetic),
        op == DIV_INT && l >= 0 && r > 0 ==> transition(funs, m) == after_binary(m, Value::Int(((l as int) / (r as int)) as i32)),
        op == DIV_INT && l < 0 && r > 0 ==> transition(funs, m) == after_binary(
            m,
            Value::Int((-((-(l as int)) / (r as int))) as i32),
        ),
        op == EQ_INT ==> transition(funs, m) == after_binary(m, Value::Bool(l == r)),
        op == GT_INT ==> transition(funs, m) == after_binary(m, Value::Bool(l > r)),
        op == GE_INT ==> transition(funs, m) == after_binary(m, Value::Bool(l >= r)),
        op == LT_INT ==> transition(funs, m) == after_binary(m, Value::Bool(l < r)),
        op == LE_INT ==> transition(funs, m) == after_binary(m, Value::Bool(l <= r)),
{
    if op == DIV_INT && r > 0 {
        assert(0 <= (if l >= 0 { l as int } else { -l }) / (r as int) <= (if l >= 0 { l as int } else { -l }))
            by (nonlinear_arith)
            requires r > 0, l >= i32::MIN;
    }
}

pub proof fn lemma_read_captures_len(
    code: Seq<u8>,
    ip: int,
    k: int,
    n: int,
    stack: Seq<Value>,
    base: int,
    caps: Seq<Value>,
)
    requires
        0 <= k <= n,
        ip + 2 + 2 * k <= code.len(),
    ensures
        read_captures(code, ip, k, n, stack, base, caps) matches Ok(vs) ==> vs.len() == n - k && ip + 2 + 2 * n <= code.len(),
    decreases n - k,
{
    if k < n && ip + 3 + 2 * k < code.len() {
        lemma_read_captures_len(code, ip, k + 1, n, stack, base, caps);
    }
}

/// The first index recorded for `v` in the constant map.
pub open spec fn const_index(map: Seq<(Value, u8)>, v: Value) -> Option<u8>
    decreases map.len(),
{
    if map.len() == 0 {
        None
    } else {
        match const_index(map.drop_last(), v) {
            Some(i) => Some(i),
            None => if map.last().0 == v {
                Some(map.last().1)
            } else {
                None
            },
        }
    }
}

/// The first position of `v` in `consts`.
pub open spec fn const_position(consts: Seq<Value>, v: Value) -> Option<int>
    decreases consts.len(),
{
    if consts.len() == 0 {
        None
    } else {
        match const_position(consts.drop_last(), v) {
            Some(i) => Some(i),
            None => if consts.last() == v {
                Some(consts.len() - 1)
            } else {
                None
            },
        }
    }
}

/// The table of constants gives entry `k` of `consts` the index `k`, past 255
/// wrapping around.
pub open spec fn consts_wf(consts: Seq<Value>, map: Seq<(Value, u8)>) -> bool {
    &&& map.len() == consts.len()
    &&& forall|k: int| 0 <= k < map.len() ==> #[trigger] map[k] == (consts[k], k as u8)
}

/// Where the table matches the constants, looking a constant up in the table
/// finds its first position among the constants.
pub proof fn lemma_const_index_position(consts: Seq<Value>, map: Seq<(Value, u8)>, v: Value)
    requires
        consts_wf(consts, map),
    ensures
        const_index(map, v) == match const_position(consts, v) {
            Some(i) => Some(i as u8),
            None => None::<u8>,
        },
    decreases consts.len(),
{
    if consts.len() > 0 {
        assert(consts_wf(consts.drop_last(), map.drop_last())) by {
            assert forall|k: int| 0 <= k < map.drop_last().len() implies #[trigger] map.drop_last()[k] == (
            consts.drop_last()[k], k as u8) by {
                assert(map[k] == (consts[k], k as u8));
            }
        }
        lemma_const_index_position(consts.drop_last(), map.drop_last(), v);
        assert(map.last() == (consts.last(), (consts.len() - 1) as u8));
    }
}

/// What adding constant `value` to `before` does: the code stays, and the
/// index `res` is the one the table gives `value`, or the next free one
/// (past 255 it wraps around) when `value` is new, which is then appended.
pub open spec fn const_added(before: Builder, value: Value, res: u8, after: Builder) -> bool {
    &&& after.code() == before.code()
    &&& match const_index(before.const_map(), value) {
        Some(i) => res == i && after.consts() == before.consts() && after.const_map() == before.const_map(),
        None => {
            &&& res == before.consts().len() as u8
            &&& after.consts() == before.consts().push(value)
            &&& after.const_map() == before.const_map().push((value, res))
        },
    }
}

/// Adding the same constant twice: the second time gives the index of the
/// first and changes neither the code nor the constants.
pub proof fn lemma_add_const_twice(b0: Builder, b1: Builder, b2: Builder, v: Value, r1: u8, r2: u8)
    requires
        const_added(b0, v, r1, b1),
        const_added(b1, v, r2, b2),
    ensures
        r2 == r1,
        b2.code() == b1.code(),
        b2.consts() == b1.consts(),
        b2.const_map() == b1.const_map(),
{
    if const_index(b0.const_map(), v) is None {
        assert(b1.const_map().drop_last() =~= b0.const_map());
    }
}

/// Appends instructions to the code of one function, and keeps its constants.
pub struct Builder {
    code: Vec<u8>,
    consts: Vec<Value>,
    consts_map: Vec<(Value, u8)>,
}

impl Builder {
    pub closed spec fn code(&self) -> Seq<u8> {
        self.code@
    }

    pub closed spec fn consts(&self) -> Seq<Value> {
        self.consts@
    }

    /// Each constant with the index it was given, in the order they came.
    pub closed spec fn const_map(&self) -> Seq<(Value, u8)> {
        self.consts_map@
    }

    /// The table of constants matches the constants.
    pub open spec fn wf(&self) -> bool {
        consts_wf(self.consts(), self.const_map())
    }

    pub fn new() -> (res: Builder)
        ensures
            res.wf(),
            res.code().len() == 0,
            res.consts().len() == 0,
            res.const_map().len() == 0,
    {
        Builder { code: Vec::new(), consts: Vec::new(), consts_map: Vec::new() }
    }

    pub fn len(&self) -> (res: usize)
        ensures
            res == self.code().len(),
    {
        self.code.len()
    }

    /// Appends one byte.
    pub fn push(&mut self, byte: u8)
        ensures
            final(self).code() == old(self).code().push(byte),
            final(self).consts() == old(self).consts(),
            final(self).const_map() == old(self).const_map(),
    {
        self.code.push(byte);
    }

    /// Overwrites byte `at`.
    pub fn patch(&mut self, at: usize, byte: u8)
        requires
            at < old(self).code().len(),
        ensures
            final(self).code() == old(self).code().update(at as int, byte),
            final(self).consts() == old(self).consts(),
            final(self).const_map() == old(self).const_map(),
    {
        self.code.set(at, byte);
    }

    /// Appends `n`, high byte first.
    pub fn write_u16(&mut self, n: u16)
        ensures
            final(self).code() == old(self).code() + seq![(n / 256) as u8, (n % 256) as u8],
            final(self).consts() == old(self).consts(),
            final(self).const_map() == old(self).const_map(),
    {
        self.code.push((n / 256) as u8);
        self.code.push((n % 256) as u8);
        assert(self.code@ =~= old(self).code() + seq![(n / 256) as u8, (n % 256) as u8]);
    }

    /// Appends two bytes.
    pub fn write_bytes(&mut self, byte1: u8, byte2: u8)
        ensures
            final(self).code() == old(self).code() + seq![byte1, byte2],
            final(self).consts() == old(self).consts(),
            final(self).const_map() == old(self).const_map(),
    {
        self.code.push(byte1);
        self.code.push(byte2);
        assert(self.code@ =~= old(self).code() + seq![byte1, byte2]);
    }

    /// The index of constant `value`, added when it is new; indices past 255
    /// wrap around.
    pub fn add_const(&mut self, value: Value) -> (res: u8)
        requires
            const_room(bmodel(*old(self)), value),
        ensures
            const_added(*old(self), value, res, *final(self)),
            old(self).wf() ==> final(self).wf(),
            old(self).wf() ==> match const_position(old(self).consts(), value) {
                Some(i) => res == i as u8 && final(self).consts() == old(self).consts(),
                None => res == old(self).consts().len() as u8 && final(self).consts() == old(
                    self,
                ).consts().push(value),
            },
            bmodel(*final(self)) == add_const_model(bmodel(*old(self)), value).0,
            res == add_const_model(bmodel(*old(self)), value).1,
    {
        proof {
            if self.wf() {
                lemma_const_index_position(self.consts@, self.consts_map@, value);
            }
        }
        let mut i: usize = 0;
        while i < self.consts_map.len()
            invariant
                i <= self.consts_map@.len(),
                const_index(self.consts_map@.take(i as int), value) is None,
                self.consts@ == old(self).consts(),
                self.consts_map@ == old(self).const_map(),
                old(self).wf() ==> const_index(self.consts_map@, value) == match const_position(self.consts@, value) {
                    Some(i) => Some(i as u8),
                    None => None::<u8>,
                },
            decreases self.consts_map@.len() - i,
        {
            proof {
                assert(self.consts_map@.take(i + 1).drop_last() =~= self.consts_map@.take(i as int));
            }
            if self.consts_map[i].0 == value {
                let index = self.consts_map[i].1;
                proof {
                    self.lemma_const_index_prefix(i as int + 1, value);
                }
                return index;
            }
            i = i + 1;
        }
        proof {
            assert(self.consts_map@.take(self.consts_map@.len() as int) =~= self.consts_map@);
        }
        let index = self.consts.len() as u8;
        self.consts.push(value);
        self.consts_map.push((value, index));
        proof {
            assert(self.consts_map@.drop_last() =~= old(self).const_map());
            if old(self).wf() {
                assert forall|k: int| 0 <= k < self.consts_map@.len() implies #[trigger] self.consts_map@[k] == (
                self.consts@[k], k as u8) by {
                    if k < old(self).consts().len() {
                        assert(old(self).const_map()[k] == (old(self).consts()[k], k as u8));
                    }
                }
            }
        }
        index
    }

    /// Whether constant `value` can be added: it is there already, or fewer
    /// than 256 constants are.
    pub fn has_room(&self, value: Value) -> (res: bool)
        ensures
            res == const_room(bmodel(*self), value),
    {
        if self.consts.len() < 256 {
            return true;
        }
        let mut i: usize = 0;
        while i < self.consts_map.len()
            invariant
                i <= self.consts_map@.len(),
                const_index(self.consts_map@.take(i as int), value) is None,
            decreases self.consts_map@.len() - i,
        {
            proof {
                assert(self.consts_map@.take(i + 1).drop_last() =~= self.consts_map@.take(i as int));
            }
            if self.consts_map[i].0 == value {
                proof {
                    self.lemma_const_index_prefix(i as int + 1, value);
                }
                return true;
            }
            i = i + 1;
        }
        proof {
            assert(self.consts_map@.take(self.consts_map@.len() as int) =~= self.consts_map@);
        }
        false
    }

    proof fn lemma_const_index_prefix(&self, k: int, v: Value)
        requires
            0 < k <= self.consts_map@.len(),
            const_index(self.consts_map@.take(k), v) is Some,
        ensures
            const_index(self.consts_map@, v) == const_index(self.consts_map@.take(k), v),
        decreases self.consts_map@.len() - k,
    {
        if k < self.consts_map@.len() {
            assert(self.consts_map@.take(k + 1).drop_last() =~= self.consts_map@.take(k));
            self.lemma_const_index_prefix(k + 1, v);
        } else {
            assert(self.consts_map@.take(k) =~= self.consts_map@);
        }
    }

    pub fn const_int(&mut self, n: i32)
        requires
            const_room(bmodel(*old(self)), Value::Int(n)),
        ensures
            old(self).wf() ==> final(self).wf(),
            ({
                let (b, i) = add_const_model(bmodel(*old(self)), Value::Int(n));
                bmodel(*final(self)) == with_bytes(b, seq![CONST, i])
            }),
    {
        self.code.push(CONST);
        let index = self.add_const(Value::Int(n));
        self.code.push(index);
        proof {
            assert(self.code@ =~= old(self).code() + seq![CONST, index]);
        }
    }

    pub fn const_bool(&mut self, b: bool)
        ensures
            final(self).code() == old(self).code().push(if b { TRUE } else { FALSE }),
            final(self).consts() == old(self).consts(),
            final(self).const_map() == old(self).const_map(),
    {
        self.code.push(if b { TRUE } else { FALSE });
    }

    pub fn load_local(&mut self, slot: u8)
        ensures
            final(self).code() == old(self).code() + seq![LOAD_LOCAL, slot],
            final(self).consts() == old(self).consts(),
            final(self).const_map() == old(self).const_map(),
    {
        self.write_bytes(LOAD_LOCAL, slot);
    }

    pub fn load_capture(&mut self, slot: u8)
        ensures
            final(self).code() == old(self).code() + seq![LOAD_CAPTURE, slot],
            final(self).consts() == old(self).consts(),
            final(self).const_map() == old(self).const_map(),
    {
        self.write_bytes(LOAD_CAPTURE, slot);
    }

    pub fn bin(&mut self, op: BinOp)
        requires
            op != BinOp::EqBool,
        ensures
            final(self).code() == old(self).code().push(bin_opcode(op)),
            final(self).consts() == old(self).consts(),
            final(self).const_map() == old(self).const_map(),
    {
        self.code.push(
            match op {
                BinOp::AddInt => ADD_INT,
                BinOp::SubInt => SUB_INT,
                BinOp::MulInt => MUL_INT,
                BinOp::DivInt => DIV_INT,
                BinOp::EqInt => EQ_INT,
                BinOp::GtInt => GT_INT,
                BinOp::GeInt => GE_INT,
                BinOp::LtInt => LT_INT,
                _ => LE_INT,
            },
        );
    }

    /// A jump with a placeholder target.
    pub fn jmp(&mut self)
        ensures
            final(self).code() == old(self).code() + seq![JMP, 0xffu8, 0xffu8],
            final(self).consts() == old(self).consts(),
            final(self).const_map() == old(self).const_map(),
    {
        self.code.push(JMP);
        self.write_bytes(0xff, 0xff);
        assert(self.code@ =~= old(self).code() + seq![JMP, 0xffu8, 0xffu8]);
    }

    /// The opcode of a conditional jump. Only the opcode is written: the
    /// machine and the disassembler read a two-byte target after it, which
    /// the caller writes.
    pub fn jmp_if_false(&mut self)
        ensures
            final(self).code() == old(self).code().push(JMP_FALSE),
            final(self).consts() == old(self).consts(),
            final(self).const_map() == old(self).const_map(),
    {
        self.code.push(JMP_FALSE);
    }

    pub fn call(&mut self, argc: u8)
        ensures
            final(self).code() == old(self).code() + seq![CALL, argc],
            final(self).consts() == old(self).consts(),
            final(self).const_map() == old(self).const_map(),
    {
        self.code.push(CALL);
        self.code.push(argc);
        assert(self.code@ =~= old(self).code() + seq![CALL, argc]);
    }

    pub fn ret(&mut self)
        ensures
            final(self).code() == old(self).code().push(RET),
            final(self).consts() == old(self).consts(),
            final(self).const_map() == old(self).const_map(),
    {
        self.code.push(RET);
    }

    /// The finished code and constants.
    pub fn finish(self) -> (res: (Vec<u8>, Vec<Value>))
        ensures
            res.0@ == self.code(),
            res.1@ == self.consts(),
    {
        (self.code, self.consts)
    }
}

/// The opcode of a binary operation.
pub open spec fn bin_opcode(op: BinOp) -> u8 {
    match op {
        BinOp::AddInt => ADD_INT,
        BinOp::SubInt => SUB_INT,
        BinOp::MulInt => MUL_INT,
        BinOp::DivInt => DIV_INT,
        BinOp::EqInt => EQ_INT,
        BinOp::GtInt => GT_INT,
        BinOp::GeInt => GE_INT,
        BinOp::LtInt => LT_INT,
        BinOp::LeInt => LE_INT,
        BinOp::EqBool => EQ_BOOL,
    }
}

/// How the instruction at `offset` is listed, and how many bytes it takes.
pub open spec fn instr_text(code: Seq<u8>, consts: Seq<Value>, offset: int) -> Option<(Seq<char>, int)> {
    if offset < 0 || offset >= code.len() || !is_opcode(code[offset]) {
        None
    } else {
        let op = code[offset];
        let prefix = zero_pad(decimal_chars(offset as nat), 4) + "  "@;
        let named = prefix + space_pad(name_of(op), 10) + " "@;
        if op == CONST || op == CLOSURE {
            if offset + 1 >= code.len() || code[offset + 1] as int >= consts.len() {
                None
            } else {
                let index = code[offset + 1];
                Some((named + decimal_chars(index as nat) + " '"@ + value_str(consts[index as int]) + "'"@, 2))
            }
        } else if op == LOAD_LOCAL || op == LOAD_CAPTURE || op == CALL {
            if offset + 1 >= code.len() {
                None
            } else {
                Some((named + decimal_chars(code[offset + 1] as nat), 2))
            }
        } else if op == JMP || op == JMP_FALSE {
            if offset + 2 >= code.len() || offset + 3 + read_u16(code, offset + 1) > usize::MAX {
                None
            } else {
                Some(
                    (
                        named + decimal_chars(offset as nat) + " -> "@ + decimal_chars(
                            (offset + 3 + read_u16(code, offset + 1)) as nat,
                        ),
                        3,
                    ),
                )
            }
        } else {
            Some((prefix + name_of(op), 1))
        }
    }
}

/// How the instruction of `fun` at `offset` is listed, and how many bytes it
/// takes; `None` where there is no whole instruction there.
pub fn dump_instruction(fun: &Fun, offset: usize) -> (res: Option<(String, usize)>)
    ensures
        match instr_text(fun.code@, fun.consts@, offset as int) {
            Some((text, n)) => res matches Some((s, m)) && s@ == text && m == n,
            None => res is None,
        },
{
    let code = &fun.code;
    if offset >= code.len() {
        return None;
    }
    let op = code[offset];
    if op == 0 || op > 20 {
        return None;
    }
    let name = as_str(op);
    let mut out = String::new();
    push_zero_padded(&mut out, offset, 4);
    push_str(&mut out, "  ");
    if op == CONST || op == CLOSURE || op == LOAD_LOCAL || op == LOAD_CAPTURE || op == CALL || op == JMP
        || op == JMP_FALSE {
        push_space_padded(&mut out, name, 10);
        push_str(&mut out, " ");
        if op == JMP || op == JMP_FALSE {
            if code.len() - offset <= 2 {
                return None;
            }
            let jump = code[offset + 1] as usize * 256 + code[offset + 2] as usize;
            if jump > usize::MAX - 3 - offset {
                return None;
            }
            push_usize(&mut out, offset);
            push_str(&mut out, " -> ");
            push_usize(&mut out, offset + 3 + jump);
            proof {
                assert(out@ =~= instr_text(fun.code@, fun.consts@, offset as int).unwrap().0);
            }
            return Some((out, 3));
        }
        if offset + 1 >= code.len() {
            return None;
        }
        let arg = code[offset + 1];
        if op == CONST || op == CLOSURE {
            if arg as usize >= fun.consts.len() {
                return None;
            }
            push_usize(&mut out, arg as usize);
            push_str(&mut out, " '");
            fun.consts[arg as usize].push_to(&mut out);
            push_str(&mut out, "'");
        } else {
            push_usize(&mut out, arg as usize);
        }
        proof {
            assert(out@ =~= instr_text(fun.code@, fun.consts@, offset as int).unwrap().0);
        }
        Some((out, 2))
    } else {
        push_str(&mut out, name);
        proof {
            assert(out@ =~= instr_text(fun.code@, fun.consts@, offset as int).unwrap().0);
        }
        Some((out, 1))
    }
}

/// The listing of the instructions from `offset` on, or `None` where the code
/// does not split into whole instructions.
pub open spec fn listing(code: Seq<u8>, consts: Seq<Value>, offset: int) -> Option<Seq<Seq<char>>>
    decreases code.len() - offset,
{
    if offset < 0 {
        None
    } else if offset >= code.len() {
        Some(Seq::empty())
    } else {
        match instr_text(code, consts, offset) {
            None => None,
            Some((t, n)) => if n <= 0 {
                None
            } else {
                match listing(code, consts, offset + n) {
                    Some(rest) => Some(seq![t] + rest),
                    None => None,
                }
            },
        }
    }
}

/// The listing of every instruction of `fun`, in order; `None` where the code
/// does not split into whole instructions.
pub fn dump(fun: &Fun) -> (res: Option<Vec<String>>)
    ensures
        match listing(fun.code@, fun.consts@, 0) {
            Some(ls) => res matches Some(lines) && lines@.map_values(|l: String| l@) == ls,
            None => res is None,
        },
{
    let mut lines: Vec<String> = Vec::new();
    let mut offset: usize = 0;
    while offset < fun.code.len()
        invariant
            offset <= fun.code@.len(),
            listing(fun.code@, fun.consts@, 0) == match listing(fun.code@, fun.consts@, offset as int) {
                Some(rest) => Some(lines@.map_values(|l: String| l@) + rest),
                None => None,
            },
        decreases fun.code@.len() - offset,
    {
        match dump_instruction(fun, offset) {
            Some((line, n)) => {
                let ghost before = lines@.map_values(|l: String| l@);
                lines.push(line);
                proof {
                    assert(lines@.map_values(|l: String| l@) =~= before.push(line@));
                    match listing(fun.code@, fun.consts@, offset + n) {
                        Some(rest) => {
                            assert(before + (seq![line@] + rest) =~= before.push(line@) + rest);
                        },
                        None => {},
                    }
                }
                offset = offset + n;
            },
            None => {
                return None;
            },
        }
    }
    proof {
        assert(lines@.map_values(|l: String| l@) + Seq::<Seq<char>>::empty() =~= lines@.map_values(|l: String| l@));
    }
    Some(lines)
}

/// Why code for an expression could not be emitted.
#[derive(Clone, Copy, Debug, PartialEq, Eq, Structural)]
pub enum EmitError {
    /// A form that code is not emitted for yet: the unit literal, a recursive
    /// binding, or an operator without an instruction.
    Unsupported,
    /// A variable, or a binding, that the resolution does not cover.
    Unresolved,
    /// A variable that no enclosing function binds.
    Unbound,
    /// A captured binding that the enclosing function cannot reach.
    CaptureNotFound,
    /// More than 256 local slots in one function.
    TooManySlots,
    /// More than 256 constants in one function.
    TooManyConstants,
}

/// The last slot recorded for `l`.
pub open spec fn slot_of(entries: Seq<(Local, u8)>, l: Local) -> Option<u8>
    decreases entries.len(),
{
    if entries.len() == 0 {
        None
    } else if entries.last().0 == l {
        Some(entries.last().1)
    } else {
        slot_of(entries.drop_last(), l)
    }
}

/// The last slot recorded for `l` in `entries`.
fn find_slot(entries: &Vec<(Local, u8)>, l: Local) -> (res: Option<u8>)
    ensures
        res == slot_of(entries@, l),
{
    let mut i = entries.len();
    proof {
        assert(entries@.take(i as int) =~= entries@);
    }
    while i > 0
        invariant
            i <= entries@.len(),
            slot_of(entries@, l) == slot_of(entries@.take(i as int), l),
        decreases i,
    {
        proof {
            assert(entries@.take(i as int).drop_last() =~= entries@.take(i - 1));
        }
        if entries[i - 1].0 == l {
            return Some(entries[i - 1].1);
        }
        i = i - 1;
    }
    None
}

/// The bindings that a function being emitted can name: its locals and its
/// captures, each with its slot.
pub struct E {
    pub locals: Vec<(Local, u8)>,
    pub captures: Vec<(Local, u8)>,
}

impl E {
    pub fn new() -> (res: E)
        ensures
            res.locals@.len() == 0,
            res.captures@.len() == 0,
    {
        E { locals: Vec::new(), captures: Vec::new() }
    }

    /// Whether `l` is a local or a capture here.
    pub fn contains(&self, l: Local) -> (res: bool)
        ensures
            res == (slot_of(self.locals@, l) is Some || slot_of(self.captures@, l) is Some),
    {
        find_slot(&self.locals, l).is_some() || find_slot(&self.captures, l).is_some()
    }
}

/// The captures `caps` whose slot is below `k`, ordered by slot and, within a
/// slot, in the order they were added.
pub open spec fn by_slot(caps: Seq<(Local, u8)>, k: int) -> Seq<Local>
    decreases k,
{
    if k <= 0 {
        Seq::empty()
    } else {
        by_slot(caps, k - 1) + caps.filter(|e: (Local, u8)| e.1 as int == k - 1).map_values(|e: (Local, u8)| e.0)
    }
}

/// The captured bindings, ordered by slot.
fn captures_by_slot(caps: &Vec<(Local, u8)>) -> (res: Vec<Local>)
    ensures
        res@ == by_slot(caps@, 256),
{
    let mut out: Vec<Local> = Vec::new();
    let mut k: usize = 0;
    while k < 256
        invariant
            k <= 256,
            out@ == by_slot(caps@, k as int),
        decreases 256 - k,
    {
        let ghost before = out@;
        let mut i: usize = 0;
        while i < caps.len()
            invariant
                k < 256,
                i <= caps@.len(),
                out@ == before + caps@.take(i as int).filter(|e: (Local, u8)| e.1 as int == k as int).map_values(
                    |e: (Local, u8)| e.0,
                ),
            decreases caps@.len() - i,
        {
            let ghost prev = out@;
            proof {
                assert(caps@.take(i + 1).drop_last() =~= caps@.take(i as int));
                reveal_with_fuel(Seq::filter, 1);
            }
            if caps[i].1 as usize == k {
                out.push(caps[i].0);
            }
            proof {
                let f = caps@.take(i as int).filter(|e: (Local, u8)| e.1 as int == k as int);
                let f2 = caps@.take(i + 1).filter(|e: (Local, u8)| e.1 as int == k as int);
                if caps@[i as int].1 as int == k as int {
                    assert(f2 == f.push(caps@[i as int]));
                    assert(f2.map_values(|e: (Local, u8)| e.0) =~= f.map_values(|e: (Local, u8)| e.0).push(caps@[i as int].0));
                    assert(out@ =~= before + f2.map_values(|e: (Local, u8)| e.0));
                } else {
                    assert(f2 == f);
                }
            }
            i = i + 1;
        }
        proof {
            assert(caps@.take(caps@.len() as int) =~= caps@);
        }
        k = k + 1;
    }
    out
}

pub open spec fn abs_body_spec(nodes: Seq<crate::ast::Node>, id: int) -> Option<ExprId> {
    match nodes[id].expr {
        Expr::Abs(_, b) => Some(b),
        _ => None,
    }
}

pub open spec fn app_parts_spec(nodes: Seq<crate::ast::Node>, id: int) -> Option<(ExprId, ExprId)> {
    match nodes[id].expr {
        Expr::App(f, a) => Some((f, a)),
        _ => None,
    }
}

/// The body of node `id` when it is an abstraction.
fn abs_body(ast: &Ast, id: ExprId) -> (res: Option<ExprId>)
    requires
        id.0 < ast@.len(),
    ensures
        res == abs_body_spec(ast@, id.0 as int),
{
    match ast.expr(id) {
        Expr::Abs(_, b) => Some(b),
        _ => None,
    }
}

/// The function and argument of node `id` when it is an application.
fn app_parts(ast: &Ast, id: ExprId) -> (res: Option<(ExprId, ExprId)>)
    requires
        id.0 < ast@.len(),
    ensures
        res == app_parts_spec(ast@, id.0 as int),
{
    match ast.expr(id) {
        Expr::App(f, a) => Some((f, a)),
        _ => None,
    }
}

/// A builder, as values.
#[verifier::ext_equal]
pub struct BuilderModel {
    pub code: Seq<u8>,
    pub consts: Seq<Value>,
    pub const_map: Seq<(Value, u8)>,
}

pub open spec fn bmodel(b: Builder) -> BuilderModel {
    BuilderModel { code: b.code(), consts: b.consts(), const_map: b.const_map() }
}

/// A builder with nothing in it.
pub open spec fn empty_builder() -> BuilderModel {
    BuilderModel { code: Seq::empty(), consts: Seq::empty(), const_map: Seq::empty() }
}

/// `b` with `bytes` appended to its code.
pub open spec fn with_bytes(b: BuilderModel, bytes: Seq<u8>) -> BuilderModel {
    BuilderModel { code: b.code + bytes, ..b }
}

/// `b` with byte `at` of its code overwritten.
pub open spec fn with_patch(b: BuilderModel, at: int, byte: u8) -> BuilderModel {
    BuilderModel { code: b.code.update(at, byte), ..b }
}

/// Constant `v` can go into `b`: it is there already, or fewer than 256
/// constants are, so that its index fits in a byte.
pub open spec fn const_room(b: BuilderModel, v: Value) -> bool {
    const_index(b.const_map, v) is Some || b.consts.len() < 256
}

/// Adding constant `v` to `b`: the builder after, and the constant's index.
pub open spec fn add_const_model(b: BuilderModel, v: Value) -> (BuilderModel, u8) {
    match const_index(b.const_map, v) {
        Some(i) => (b, i),
        None => {
            let i = b.consts.len() as u8;
            (BuilderModel { consts: b.consts.push(v), const_map: b.const_map.push((v, i)), ..b }, i)
        },
    }
}

/// The bindings of a function being emitted, as values.
#[verifier::ext_equal]
pub struct EnvModel {
    pub locals: Seq<(Local, u8)>,
    pub captures: Seq<(Local, u8)>,
}

pub open spec fn envmodel(e: E) -> EnvModel {
    EnvModel { locals: e.locals@, captures: e.captures@ }
}

pub open spec fn empty_env() -> EnvModel {
    EnvModel { locals: Seq::empty(), captures: Seq::empty() }
}

/// Whether `l` is a local or a capture of `e`.
pub open spec fn env_has(e: EnvModel, l: Local) -> bool {
    slot_of(e.locals, l) is Some || slot_of(e.captures, l) is Some
}

/// Whether one of the enclosing functions `parents` has `l`.
pub open spec fn parents_have(parents: Seq<(BuilderModel, EnvModel, u8)>, l: Local) -> bool
    decreases parents.len(),
{
    parents.len() > 0 && (env_has(parents.last().1, l) || parents_have(parents.drop_last(), l))
}

/// A compiled function, as values.
#[verifier::ext_equal]
pub struct FunModel {
    pub code: Seq<u8>,
    pub arity: u8,
    pub captures: Seq<Local>,
    pub consts: Seq<Value>,
}

pub open spec fn funmodel(f: Fun) -> FunModel {
    FunModel { code: f.code@, arity: f.arity, captures: f.captures@, consts: f.consts@ }
}

/// The state of emission, as values: the function being emitted (its code,
/// its bindings and its next free slot), the functions that enclose it, and
/// the functions finished so far.
#[verifier::ext_equal]
pub struct EmModel {
    pub bb: BuilderModel,
    pub env: EnvModel,
    pub slot_count: u8,
    pub parents: Seq<(BuilderModel, EnvModel, u8)>,
    pub funs: Seq<FunModel>,
}

/// `m` with `bytes` appended to the code of the function being emitted.
pub open spec fn emit_bytes(m: EmModel, bytes: Seq<u8>) -> EmModel {
    EmModel { bb: with_bytes(m.bb, bytes), ..m }
}

/// The operation an operator token compiles to.
pub open spec fn bin_op_of(op: Token) -> Option<BinOp> {
    if op == Token::Plus {
        Some(BinOp::AddInt)
    } else if op == Token::Minus {
        Some(BinOp::SubInt)
    } else if op == Token::Star {
        Some(BinOp::MulInt)
    } else if op == Token::Slash {
        Some(BinOp::DivInt)
    } else if op == Token::EqEq {
        Some(BinOp::EqInt)
    } else if op == Token::Gt {
        Some(BinOp::GtInt)
    } else if op == Token::GtEq {
        Some(BinOp::GeInt)
    } else if op == Token::Lt {
        Some(BinOp::LtInt)
    } else if op == Token::LtEq {
        Some(BinOp::LeInt)
    } else {
        None
    }
}

/// The code for a literal.
pub open spec fn lit_emit(m: EmModel, lit: Lit) -> Result<EmModel, EmitError> {
    match lit {
        Lit::Unit => Err(EmitError::Unsupported),
        Lit::Int(n) => if !const_room(m.bb, Value::Int(n)) {
            Err(EmitError::TooManyConstants)
        } else {
            let (b, i) = add_const_model(m.bb, Value::Int(n));
            Ok(EmModel { bb: with_bytes(b, seq![CONST, i]), ..m })
        },
        Lit::Bool(v) => Ok(emit_bytes(m, seq![if v { TRUE } else { FALSE }])),
    }
}

/// The code for a variable that uses local `l`: a load of its slot, or of a
/// capture that is added when an enclosing function has `l`.
pub open spec fn var_emit(m: EmModel, l: Local) -> Result<EmModel, EmitError> {
    match slot_of(m.env.locals, l) {
        Some(s) => Ok(emit_bytes(m, seq![LOAD_LOCAL, s])),
        None => match slot_of(m.env.captures, l) {
            Some(s) => Ok(emit_bytes(m, seq![LOAD_CAPTURE, s])),
            None => if parents_have(m.parents, l) {
                let s = m.env.captures.len() as u8;
                Ok(
                    EmModel {
                        bb: with_bytes(m.bb, seq![LOAD_CAPTURE, s]),
                        env: EnvModel { captures: m.env.captures.push((l, s)), ..m.env },
                        ..m
                    },
                )
            } else {
                Err(EmitError::Unbound)
            },
        },
    }
}

/// The locals that the abstractions nested from node `id` declare, outermost
/// first, and the body that the innermost one has.
pub open spec fn abs_params(nodes: Seq<Node>, binders: Seq<Option<Local>>, id: int) -> Result<
    (Seq<Local>, int),
    EmitError,
>
    decreases id,
{
    if !(0 <= id < nodes.len()) {
        Ok((Seq::empty(), id))
    } else {
        match nodes[id].expr {
            Expr::Abs(_, b) => if !(b.0 < id) {
                Ok((Seq::empty(), id))
            } else if id >= binders.len() {
                Err(EmitError::Unresolved)
            } else {
                match binders[id] {
                    None => Err(EmitError::Unresolved),
                    Some(l) => match abs_params(nodes, binders, b.0 as int) {
                        Err(e) => Err(e),
                        Ok((ps, body)) => Ok((seq![l] + ps, body)),
                    },
                }
            },
            _ => Ok((Seq::empty(), id)),
        }
    }
}

/// `m` with the first `k` of `params` given fresh slots.
pub open spec fn bind_params(m: EmModel, params: Seq<Local>, k: int) -> Result<EmModel, EmitError>
    decreases k,
{
    if k <= 0 {
        Ok(m)
    } else {
        match bind_params(m, params, k - 1) {
            Err(e) => Err(e),
            Ok(m1) => if m1.slot_count == 255 {
                Err(EmitError::TooManySlots)
            } else {
                Ok(
                    EmModel {
                        slot_count: (m1.slot_count + 1) as u8,
                        env: EnvModel { locals: m1.env.locals.push((params[k - 1], m1.slot_count)), ..m1.env },
                        ..m1
                    },
                )
            },
        }
    }
}

/// The operands of a closure for the first `c` of `caps`: each a flag, 1 for
/// a local and 0 for a capture of the function being emitted, and its slot.
pub open spec fn capture_operands(env: EnvModel, caps: Seq<Local>, c: int) -> Result<Seq<u8>, EmitError>
    decreases c,
{
    if c <= 0 {
        Ok(Seq::empty())
    } else {
        match capture_operands(env, caps, c - 1) {
            Err(e) => Err(e),
            Ok(bytes) => match slot_of(env.locals, caps[c - 1]) {
                Some(s) => Ok(bytes + seq![1u8, s]),
                None => match slot_of(env.captures, caps[c - 1]) {
                    Some(s) => Ok(bytes + seq![0u8, s]),
                    None => Err(EmitError::CaptureNotFound),
                },
            },
        }
    }
}

/// The arguments of the applications nested from node `id`, outermost
/// first, and the function they are applied to.
pub open spec fn app_spine(nodes: Seq<Node>, id: int) -> (Seq<ExprId>, int)
    decreases id,
{
    if !(0 <= id < nodes.len()) {
        (Seq::empty(), id)
    } else {
        match nodes[id].expr {
            Expr::App(f, a) => if f.0 < id {
                let (args, callee) = app_spine(nodes, f.0 as int);
                (seq![a] + args, callee)
            } else {
                (Seq::empty(), id)
            },
            _ => (Seq::empty(), id),
        }
    }
}

/// The code for node `id`, emitted in state `m`: the state after, or why
/// there is none.
///
/// A literal loads its value; a variable loads its slot. A `let` leaves its
/// initializer in a fresh slot and emits its body. An operator emits both
/// operands and its instruction. A conditional jumps over the code of its
/// then-branch, which ends with a jump over the code of its else-branch. An
/// abstraction, with those nested in it, becomes one function: its body is
/// emitted as a function of its own, whose captures the closure instruction
/// is given: the flag and slot of each capture are emitted before `CLOSURE`
/// and its constant, while the machine reads them after that constant. An
/// application, with those nested in it, emits the function and its
/// arguments, innermost first, and one call.
pub open spec fn em_expr(nodes: Seq<Node>, uses: Seq<Option<Local>>, binders: Seq<Option<Local>>, id: int, m: EmModel) -> Result<
    EmModel,
    EmitError,
>
    decreases id, 2int, 0int,
{
    if !(0 <= id < nodes.len()) {
        Err(EmitError::Unsupported)
    } else {
        match nodes[id].expr {
            Expr::Lit(lit) => lit_emit(m, lit),
            Expr::Var(_) => if id >= uses.len() {
                Err(EmitError::Unresolved)
            } else {
                match uses[id] {
                    None => Err(EmitError::Unresolved),
                    Some(l) => var_emit(m, l),
                }
            },
            Expr::Bind { is_recursive, init, body, .. } => if is_recursive {
                Err(EmitError::Unsupported)
            } else if !(init.0 < id && body.0 < id) {
                Err(EmitError::Unsupported)
            } else {
                match em_expr(nodes, uses, binders, init.0 as int, m) {
                    Err(e) => Err(e),
                    Ok(m1) => if m1.slot_count == 255 {
                        Err(EmitError::TooManySlots)
                    } else if id >= binders.len() {
                        Err(EmitError::Unresolved)
                    } else {
                        match binders[id] {
                            None => Err(EmitError::Unresolved),
                            Some(l) => em_expr(
                                nodes,
                                uses,
                                binders,
                                body.0 as int,
                                EmModel {
                                    slot_count: (m1.slot_count + 1) as u8,
                                    env: EnvModel { locals: m1.env.locals.push((l, m1.slot_count)), ..m1.env },
                                    ..m1
                                },
                            ),
                        }
                    },
                }
            },
            Expr::Bin(l, op, r) => if !(l.0 < id && r.0 < id) {
                Err(EmitError::Unsupported)
            } else {
                match em_expr(nodes, uses, binders, l.0 as int, m) {
                    Err(e) => Err(e),
                    Ok(m1) => match em_expr(nodes, uses, binders, r.0 as int, m1) {
                        Err(e) => Err(e),
                        Ok(m2) => match bin_op_of(op) {
                            None => Err(EmitError::Unsupported),
                            Some(bop) => Ok(emit_bytes(m2, seq![bin_opcode(bop)])),
                        },
                    },
                }
            },
            Expr::Cond { cond, then_branch, else_branch } => if !(cond.0 < id && then_branch.0 < id
                && else_branch.0 < id) {
                Err(EmitError::Unsupported)
            } else {
                match em_expr(nodes, uses, binders, cond.0 as int, m) {
                    Err(e) => Err(e),
                    Ok(m1) => {
                        let then_jump = m1.bb.code.len() as int + 1;
                        match em_expr(
                            nodes,
                            uses,
                            binders,
                            then_branch.0 as int,
                            emit_bytes(m1, seq![JMP_FALSE, 0xffu8, 0xffu8]),
                        ) {
                            Err(e) => Err(e),
                            Ok(m2) => {
                                let else_jump = m2.bb.code.len() as int + 1;
                                let b = with_bytes(m2.bb, seq![JMP, 0xffu8, 0xffu8]);
                                let jump = b.code.len() - then_jump - 2;
                                let b = with_patch(
                                    with_patch(b, then_jump, ((jump / 256) % 256) as u8),
                                    then_jump + 1,
                                    (jump % 256) as u8,
                                );
                                match em_expr(
                                    nodes,
                                    uses,
                                    binders,
                                    else_branch.0 as int,
                                    EmModel { bb: b, ..m2 },
                                ) {
                                    Err(e) => Err(e),
                                    Ok(m3) => {
                                        let jump = m3.bb.code.len() - else_jump - 2;
                                        Ok(
                                            EmModel {
                                                bb: with_patch(
                                                    with_patch(m3.bb, else_jump, ((jump / 256) % 256) as u8),
                                                    else_jump + 1,
                                                    (jump % 256) as u8,
                                                ),
                                                ..m3
                                            },
                                        )
                                    },
                                }
                            },
                        }
                    },
                }
            },
            Expr::Abs(_, _) => match abs_params(nodes, binders, id) {
                Err(e) => Err(e),
                Ok((params, body)) => if !(0 <= body < id) {
                    Err(EmitError::Unsupported)
                } else {
                    let child = EmModel {
                        bb: empty_builder(),
                        env: empty_env(),
                        slot_count: 0,
                        parents: m.parents.push((m.bb, m.env, m.slot_count)),
                        funs: m.funs,
                    };
                    match bind_params(child, params, params.len() as int) {
                        Err(e) => Err(e),
                        Ok(mc) => match em_fun(nodes, uses, binders, body, params.len() as u8, mc) {
                            Err(e) => Err(e),
                            Ok((fun, mf)) => if !(fun < mf.funs.len()) {
                                Err(EmitError::Unsupported)
                            } else {
                                let caps = mf.funs[fun as int].captures;
                                match capture_operands(mf.env, caps, caps.len() as int) {
                                    Err(e) => Err(e),
                                    Ok(ops) => if !const_room(mf.bb, Value::Closure(fun)) {
                                        Err(EmitError::TooManyConstants)
                                    } else {
                                        let b = with_bytes(mf.bb, ops + seq![CLOSURE]);
                                        let (b, i) = add_const_model(b, Value::Closure(fun));
                                        Ok(EmModel { bb: with_bytes(b, seq![i]), ..mf })
                                    },
                                }
                            },
                        },
                    }
                },
            },
            Expr::App(_, _) => {
                let (args, callee) = app_spine(nodes, id);
                if !(0 <= callee < id) {
                    Err(EmitError::Unsupported)
                } else {
                    match em_expr(nodes, uses, binders, callee, m) {
                        Err(e) => Err(e),
                        Ok(m1) => match em_args(nodes, uses, binders, id, args, args.len() as int, m1) {
                            Err(e) => Err(e),
                            Ok(m2) => Ok(emit_bytes(m2, seq![CALL, args.len() as u8])),
                        },
                    }
                }
            },
        }
    }
}

/// The code for the first `j` of the arguments `args` of node `parent`, the
/// last of them first.
pub open spec fn em_args(
    nodes: Seq<Node>,
    uses: Seq<Option<Local>>,
    binders: Seq<Option<Local>>,
    parent: int,
    args: Seq<ExprId>,
    j: int,
    m: EmModel,
) -> Result<EmModel, EmitError>
    decreases parent, 1int, j,
{
    if j <= 0 || j > args.len() {
        Ok(m)
    } else if !(0 <= args[j - 1].0 < parent) {
        Err(EmitError::Unsupported)
    } else {
        match em_expr(nodes, uses, binders, args[j - 1].0 as int, m) {
            Err(e) => Err(e),
            Ok(m1) => em_args(nodes, uses, binders, parent, args, j - 1, m1),
        }
    }
}

/// Emitting node `id` as the body of the function being emitted, with
/// `arity` parameters: the body and a return are its code, its captures are
/// ordered by slot, and it is added to the functions; emission goes back to
/// the enclosing function. Gives the new function's index and the state
/// after.
pub open spec fn em_fun(
    nodes: Seq<Node>,
    uses: Seq<Option<Local>>,
    binders: Seq<Option<Local>>,
    id: int,
    arity: u8,
    m: EmModel,
) -> Result<(usize, EmModel), EmitError>
    decreases id, 3int, 0int,
{
    match em_expr(nodes, uses, binders, id, m) {
        Err(e) => Err(e),
        Ok(m1) => {
            let done = with_bytes(m1.bb, seq![RET]);
            let f = FunModel { code: done.code, arity, captures: by_slot(m1.env.captures, 256), consts: done.consts };
            let next = if m1.parents.len() > 0 {
                EmModel {
                    bb: m1.parents.last().0,
                    env: m1.parents.last().1,
                    slot_count: m1.parents.last().2,
                    parents: m1.parents.drop_last(),
                    funs: m1.funs.push(f),
                }
            } else {
                EmModel { bb: empty_builder(), env: empty_env(), slot_count: 0, parents: m1.parents, funs: m1.funs.push(f) }
            };
            Ok((m1.funs.len() as usize, next))
        },
    }
}

/// The operator tokens and the opcodes they compile to: `+ - * /` to the
/// integer arithmetic, `== > >= < <=` to the integer comparisons of the same
/// name.
pub open spec fn operator_opcode(op: Token, byte: u8) -> bool {
    ||| op == Token::Plus && byte == ADD_INT
    ||| op == Token::Minus && byte == SUB_INT
    ||| op == Token::Star && byte == MUL_INT
    ||| op == Token::Slash && byte == DIV_INT
    ||| op == Token::EqEq && byte == EQ_INT
    ||| op == Token::Gt && byte == GT_INT
    ||| op == Token::GtEq && byte == GE_INT
    ||| op == Token::Lt && byte == LT_INT
    ||| op == Token::LtEq && byte == LE_INT
}

/// A binary operator compiles to the code of its left operand, then that of
/// its right operand, then the one opcode of the operator.
pub proof fn lemma_em_operator(
    nodes: Seq<Node>,
    uses: Seq<Option<Local>>,
    binders: Seq<Option<Local>>,
    id: int,
    m: EmModel,
)
    requires
        0 <= id < nodes.len(),
    ensures
        match (nodes[id].expr, em_expr(nodes, uses, binders, id, m)) {
            (Expr::Bin(l, op, r), Ok(m2)) => match em_expr(nodes, uses, binders, l.0 as int, m) {
                Ok(m1) => match em_expr(nodes, uses, binders, r.0 as int, m1) {
                    Ok(mr) => {
                        &&& m2.bb.code.len() == mr.bb.code.len() + 1
                        &&& operator_opcode(op, m2.bb.code.last())
                        &&& m2 == emit_bytes(mr, seq![m2.bb.code.last()])
                    },
                    Err(_) => false,
                },
                Err(_) => false,
            },
            _ => true,
        },
{
    match (nodes[id].expr, em_expr(nodes, uses, binders, id, m)) {
        (Expr::Bin(l, op, r), Ok(m2)) => {
            let m1 = em_expr(nodes, uses, binders, l.0 as int, m)->Ok_0;
            let mr = em_expr(nodes, uses, binders, r.0 as int, m1)->Ok_0;
            let bop = bin_op_of(op)->Some_0;
            assert(m2 == emit_bytes(mr, seq![bin_opcode(bop)]));
            assert(m2.bb.code == mr.bb.code + seq![bin_opcode(bop)]);
            assert(m2.bb.code.last() == bin_opcode(bop));
        },
        _ => {},
    }
}

/// A boolean literal compiles to the one opcode `TRUE` or `FALSE` of its
/// value.
pub proof fn lemma_em_bool_literal(
    nodes: Seq<Node>,
    uses: Seq<Option<Local>>,
    binders: Seq<Option<Local>>,
    id: int,
    m: EmModel,
    b: bool,
)
    requires
        0 <= id < nodes.len(),
        nodes[id].expr == Expr::Lit(Lit::Bool(b)),
    ensures
        b ==> em_expr(nodes, uses, binders, id, m) == Ok::<EmModel, EmitError>(emit_bytes(m, seq![TRUE])),
        !b ==> em_expr(nodes, uses, binders, id, m) == Ok::<EmModel, EmitError>(emit_bytes(m, seq![FALSE])),
{
}

proof fn lemma_bind_params_err(m: EmModel, params: Seq<Local>, k: int, n: int)
    requires
        0 <= k <= n,
        bind_params(m, params, k) is Err,
    ensures
        bind_params(m, params, n) == bind_params(m, params, k),
    decreases n - k,
{
    if k < n {
        lemma_bind_params_err(m, params, k, n - 1);
    }
}

proof fn lemma_capture_operands_err(env: EnvModel, caps: Seq<Local>, c: int, n: int)
    requires
        0 <= c <= n,
        capture_operands(env, caps, c) is Err,
    ensures
        capture_operands(env, caps, n) == capture_operands(env, caps, c),
    decreases n - c,
{
    if c < n {
        lemma_capture_operands_err(env, caps, c, n - 1);
    }
}

/// The locals that the abstractions nested from `expr` declare, and the body
/// of the innermost one.
fn collect_params(ast: &Ast, binders_table: &AstTable<Option<Local>>, expr: ExprId) -> (res: Result<
    (Vec<Local>, ExprId),
    EmitError,
>)
    requires
        ast.wf(),
        expr.0 < ast@.len(),
        ast@[expr.0 as int].expr is Abs,
    ensures
        match abs_params(ast@, binders_table@, expr.0 as int) {
            Ok((ps, b)) => res matches Ok((v, bid)) && v@ == ps && bid.0 == b && bid.0 < expr.0,
            Err(e) => res matches Err(e2) && e2 == e,
        },
{
    let ghost nodes = ast@;
    let ghost binders = binders_table@;
    let mut params: Vec<Local> = Vec::new();
    let mut body = expr;
    let mut next = abs_body(ast, body);
    proof {
        assert(params@ + Seq::<Local>::empty() =~= params@);
    }
    while next.is_some()
        invariant
            nodes == ast@,
            binders == binders_table@,
            ast.wf(),
            body.0 <= expr.0,
            body.0 < nodes.len(),
            next == abs_body_spec(nodes, body.0 as int),
            body.0 == expr.0 ==> next is Some,
            abs_params(nodes, binders, expr.0 as int) == match abs_params(nodes, binders, body.0 as int) {
                Ok((ps, b)) => Ok((params@ + ps, b)),
                Err(e) => Err(e),
            },
        decreases body.0,
    {
        let inner = next.unwrap();
        proof {
            assert(crate::ast::children_before(nodes[body.0 as int].expr, body.0 as int));
        }
        if body.0 >= binders_table.len() {
            return Err(EmitError::Unresolved);
        }
        let bound = match *binders_table.get(body) {
            Some(l) => l,
            None => {
                return Err(EmitError::Unresolved);
            },
        };
        proof {
            match abs_params(nodes, binders, inner.0 as int) {
                Ok((ps, b)) => {
                    assert(params@.push(bound) + ps =~= params@ + (seq![bound] + ps));
                },
                Err(_) => {},
            }
        }
        params.push(bound);
        body = inner;
        next = abs_body(ast, body);
    }
    proof {
        assert(params@ + Seq::<Local>::empty() =~= params@);
    }
    Ok((params, body))
}

/// The arguments of the applications nested from `expr`, outermost first,
/// and the function they are applied to.
fn collect_args(ast: &Ast, expr: ExprId) -> (res: (Vec<ExprId>, ExprId))
    requires
        ast.wf(),
        expr.0 < ast@.len(),
        ast@[expr.0 as int].expr is App,
    ensures
        app_spine(ast@, expr.0 as int) == (res.0@, res.1.0 as int),
        res.1.0 < expr.0,
        forall|j: int| 0 <= j < res.0@.len() ==> (#[trigger] res.0@[j]).0 < expr.0,
{
    let ghost nodes = ast@;
    let mut args: Vec<ExprId> = Vec::new();
    let mut callee = expr;
    let mut next = app_parts(ast, callee);
    proof {
        assert(args@ + app_spine(nodes, expr.0 as int).0 =~= app_spine(nodes, expr.0 as int).0);
    }
    while next.is_some()
        invariant
            nodes == ast@,
            ast.wf(),
            callee.0 <= expr.0,
            callee.0 < nodes.len(),
            next == app_parts_spec(nodes, callee.0 as int),
            callee.0 == expr.0 ==> next is Some,
            forall|j: int| 0 <= j < args@.len() ==> (#[trigger] args@[j]).0 < expr.0,
            app_spine(nodes, expr.0 as int) == (
                args@ + app_spine(nodes, callee.0 as int).0,
                app_spine(nodes, callee.0 as int).1,
            ),
        decreases callee.0,
    {
        let (lhs, arg) = next.unwrap();
        proof {
            assert(crate::ast::children_before(nodes[callee.0 as int].expr, callee.0 as int));
            let sp = app_spine(nodes, lhs.0 as int);
            assert(args@.push(arg) + sp.0 =~= args@ + (seq![arg] + sp.0));
        }
        args.push(arg);
        callee = lhs;
        next = app_parts(ast, callee);
    }
    proof {
        assert(args@ + Seq::<ExprId>::empty() =~= args@);
    }
    (args, callee)
}

/// What emission reads: the program, how its names resolved, and the types
/// found for its nodes; and the functions emitted so far.
pub struct Context<'a> {
    pub ast: &'a Ast,
    pub resolution: &'a Resolution,
    pub types: &'a AstTable<Option<TypeId>>,
    pub funs: Vec<Fun>,
}

/// Emits bytecode for the function whose body is being walked; the functions
/// that enclose it wait in `parents`, innermost last.
pub struct Em<'a> {
    pub cx: Context<'a>,
    pub bb: Builder,
    pub env: E,
    pub slot_count: u8,
    pub parents: Vec<(Builder, E, u8)>,
}

impl<'a> Em<'a> {
    pub fn new(ast: &'a Ast, resolution: &'a Resolution, types: &'a AstTable<Option<TypeId>>) -> (res: Self)
        ensures
            res.cx.ast == ast,
            res.cx.resolution == resolution,
            res.cx.types == types,
            res.model() == (EmModel {
                bb: empty_builder(),
                env: empty_env(),
                slot_count: 0,
                parents: Seq::empty(),
                funs: Seq::empty(),
            }),
    {
        let em = Em {
            cx: Context { ast, resolution, types, funs: Vec::new() },
            bb: Builder::new(),
            env: E::new(),
            slot_count: 0,
            parents: Vec::new(),
        };
        proof {
            assert(em.model() =~= (EmModel {
                bb: empty_builder(),
                env: empty_env(),
                slot_count: 0,
                parents: Seq::empty(),
                funs: Seq::empty(),
            }));
        }
        em
    }

    /// The program emission reads is well formed.
    pub open spec fn ready(&self) -> bool {
        self.cx.ast.wf()
    }

    /// The state of emission, as values.
    pub open spec fn model(&self) -> EmModel {
        EmModel {
            bb: bmodel(self.bb),
            env: envmodel(self.env),
            slot_count: self.slot_count,
            parents: Seq::new(
                self.parents@.len(),
                |i: int| (bmodel(self.parents@[i].0), envmodel(self.parents@[i].1), self.parents@[i].2),
            ),
            funs: Seq::new(self.cx.funs@.len(), |i: int| funmodel(self.cx.funs@[i])),
        }
    }

    /// Starts a function nested in the current one.
    fn child(&mut self)
        ensures
            final(self).cx == old(self).cx,
            final(self).parents@ == old(self).parents@.push((old(self).bb, old(self).env, old(self).slot_count)),
            final(self).bb.code().len() == 0,
            final(self).bb.consts().len() == 0,
            final(self).bb.const_map().len() == 0,
            final(self).env.locals@.len() == 0,
            final(self).env.captures@.len() == 0,
            final(self).slot_count == 0,
    {
        let mut bb = Builder::new();
        std::mem::swap(&mut bb, &mut self.bb);
        let mut env = E::new();
        std::mem::swap(&mut env, &mut self.env);
        let slot_count = self.slot_count;
        self.slot_count = 0;
        self.parents.push((bb, env, slot_count));
    }

    fn fresh_slot(&mut self) -> (res: Result<u8, EmitError>)
        ensures
            final(self).cx == old(self).cx,
            final(self).bb == old(self).bb,
            final(self).env == old(self).env,
            final(self).parents == old(self).parents,
            old(self).slot_count < 255 ==> res == Ok::<u8, EmitError>(old(self).slot_count) && final(self).slot_count == old(self).slot_count + 1,
            old(self).slot_count == 255 ==> res == Err::<u8, EmitError>(EmitError::TooManySlots),
    {
        if self.slot_count == 255 {
            return Err(EmitError::TooManySlots);
        }
        let slot = self.slot_count;
        self.slot_count = self.slot_count + 1;
        Ok(slot)
    }

    /// Finishes the current function: emits `expr` as its body and a return,
    /// adds it to the functions, and goes back to the enclosing function if
    /// there is one. Returns the new function's index.
    pub fn emit_fun(&mut self, expr: ExprId, arity: u8) -> (res: Result<usize, EmitError>)
        requires
            old(self).ready(),
            expr.0 < old(self).cx.ast@.len(),
        ensures
            final(self).same_cx(old(self)),
            res is Ok && old(self).parents@.len() > 0 ==> final(self).parents@ == old(self).parents@.drop_last()
                && final(self).bb == old(self).parents@.last().0,
            match em_fun(
                old(self).cx.ast@,
                old(self).cx.resolution.uses@,
                old(self).cx.resolution.binders@,
                expr.0 as int,
                arity,
                old(self).model(),
            ) {
                Ok((i, m)) => res == Ok::<usize, EmitError>(i) && final(self).model() == m,
                Err(e) => res == Err::<usize, EmitError>(e),
            },
        decreases expr.0, 3int, 0int,
    {
        self.emit_expr(expr)?;
        let ghost m1 = self.model();
        self.bb.ret();
        let captures = captures_by_slot(&self.env.captures);
        let (mut done, env, slot_count) = match self.parents.pop() {
            Some(parent) => parent,
            None => (Builder::new(), E::new(), 0),
        };
        std::mem::swap(&mut done, &mut self.bb);
        self.env = env;
        self.slot_count = slot_count;
        let ghost done_code = done.code();
        let ghost done_consts = done.consts();
        let (code, consts) = done.finish();
        let fun = self.cx.funs.len();
        let ghost old_funs = self.cx.funs@;
        let ghost fm = FunModel {
            code: with_bytes(m1.bb, seq![RET]).code,
            arity,
            captures: by_slot(m1.env.captures, 256),
            consts: m1.bb.consts,
        };
        proof {
            assert(with_bytes(m1.bb, seq![RET]).code =~= m1.bb.code.push(RET));
            assert(code@ == fm.code);
            assert(consts@ == fm.consts);
            assert(captures@ == fm.captures);
        }
        self.cx.funs.push(Fun { code, arity, captures, consts });
        proof {
            assert(funmodel(self.cx.funs@[fun as int]) == fm);
            assert forall|i: int| 0 <= i < old_funs.len() implies #[trigger] funmodel(self.cx.funs@[i]) == m1.funs[i] by {
                assert(self.cx.funs@[i] == old_funs[i]);
            }
            assert(self.model().funs =~= m1.funs.push(fm));
            if m1.parents.len() > 0 {
                assert(self.model().parents =~= m1.parents.drop_last());
            } else {
                assert(self.model().parents =~= m1.parents);
                assert(self.model().bb.code =~= empty_builder().code);
                assert(self.model().bb.consts =~= empty_builder().consts);
                assert(self.model().bb.const_map =~= empty_builder().const_map);
                assert(self.model().env.locals =~= empty_env().locals);
                assert(self.model().env.captures =~= empty_env().captures);
            }
        }
        Ok(fun)
    }

    /// The program, the resolution and the types stay.
    pub open spec fn same_cx(&self, old: &Self) -> bool {
        &&& self.cx.ast == old.cx.ast
        &&& self.cx.resolution == old.cx.resolution
        &&& self.cx.types == old.cx.types
    }

    /// Emits code that leaves the value of `expr` on the stack.
    fn emit_expr(&mut self, expr: ExprId) -> (res: Result<(), EmitError>)
        requires
            old(self).ready(),
            expr.0 < old(self).cx.ast@.len(),
        ensures
            final(self).same_cx(old(self)),
            res is Ok ==> is_code_prefix(old(self).bb.code(), final(self).bb.code()),
            res is Ok ==> final(self).parents@ == old(self).parents@,
            match em_expr(
                old(self).cx.ast@,
                old(self).cx.resolution.uses@,
                old(self).cx.resolution.binders@,
                expr.0 as int,
                old(self).model(),
            ) {
                Ok(m) => res is Ok && final(self).model() == m,
                Err(e) => res == Err::<(), EmitError>(e),
            },
        decreases expr.0, 2int, 0int,
    {
        proof {
            assert(crate::ast::children_before(self.cx.ast@[expr.0 as int].expr, expr.0 as int));
        }
        match self.cx.ast.expr(expr) {
            Expr::Lit(lit) => match lit {
                Lit::Unit => Err(EmitError::Unsupported),
                Lit::Int(n) => {
                    if !self.bb.has_room(Value::Int(n)) {
                        return Err(EmitError::TooManyConstants);
                    }
                    self.bb.const_int(n);
                    Ok(())
                },
                Lit::Bool(b) => {
                    self.bb.const_bool(b);
                    Ok(())
                },
            },
            Expr::Var(_) => self.emit_var(expr),
            Expr::Bind { .. } => self.emit_bind(expr),
            Expr::Cond { .. } => self.emit_cond(expr),
            Expr::Abs(_, _) => self.emit_abs(expr),
            Expr::App(_, _) => self.emit_app(expr),
            Expr::Bin(_, _, _) => self.emit_bin(expr),
        }
    }

    fn emit_var(&mut self, expr: ExprId) -> (res: Result<(), EmitError>)
        requires
            old(self).ready(),
            expr.0 < old(self).cx.ast@.len(),
            old(self).cx.ast@[expr.0 as int].expr is Var,
        ensures
            final(self).same_cx(old(self)),
            res is Ok ==> is_code_prefix(old(self).bb.code(), final(self).bb.code()),
            res is Ok ==> final(self).parents@ == old(self).parents@,
            match em_expr(
                old(self).cx.ast@,
                old(self).cx.resolution.uses@,
                old(self).cx.resolution.binders@,
                expr.0 as int,
                old(self).model(),
            ) {
                Ok(m) => res is Ok && final(self).model() == m,
                Err(e) => res == Err::<(), EmitError>(e),
            },
    {
        if expr.0 >= self.cx.resolution.uses.len() {
            return Err(EmitError::Unresolved);
        }
        let local = match *self.cx.resolution.uses.get(expr) {
            Some(l) => l,
            None => {
                return Err(EmitError::Unresolved);
            },
        };
        if let Some(slot) = find_slot(&self.env.locals, local) {
            self.bb.load_local(slot);
            return Ok(());
        }
        if let Some(slot) = find_slot(&self.env.captures, local) {
            self.bb.load_capture(slot);
            return Ok(());
        }
        let ghost m0 = self.model();
        let mut i = self.parents.len();
        proof {
            assert(m0.parents.take(i as int) =~= m0.parents);
        }
        while i > 0
            invariant
                i <= self.parents@.len(),
                self == old(self),
                m0 == old(self).model(),
                parents_have(m0.parents, local) == parents_have(m0.parents.take(i as int), local),
                expr.0 < old(self).cx.ast@.len(),
                old(self).cx.ast@[expr.0 as int].expr is Var,
                expr.0 < old(self).cx.resolution.uses@.len(),
                old(self).cx.resolution.uses@[expr.0 as int] == Some(local),
                slot_of(m0.env.locals, local) is None,
                slot_of(m0.env.captures, local) is None,
            decreases i,
        {
            proof {
                assert(m0.parents.take(i as int).drop_last() =~= m0.parents.take(i - 1));
                assert(m0.parents.take(i as int).last() == m0.parents[i - 1]);
            }
            if self.parents[i - 1].1.contains(local) {
                let slot = self.env.captures.len() as u8;
                self.env.captures.push((local, slot));
                self.bb.load_capture(slot);
                return Ok(());
            }
            i = i - 1;
        }
        Err(EmitError::Unbound)
    }

    fn emit_bind(&mut self, expr: ExprId) -> (res: Result<(), EmitError>)
        requires
            old(self).ready(),
            expr.0 < old(self).cx.ast@.len(),
            old(self).cx.ast@[expr.0 as int].expr is Bind,
        ensures
            final(self).same_cx(old(self)),
            res is Ok ==> is_code_prefix(old(self).bb.code(), final(self).bb.code()),
            res is Ok ==> final(self).parents@ == old(self).parents@,
            match em_expr(
                old(self).cx.ast@,
                old(self).cx.resolution.uses@,
                old(self).cx.resolution.binders@,
                expr.0 as int,
                old(self).model(),
            ) {
                Ok(m) => res is Ok && final(self).model() == m,
                Err(e) => res == Err::<(), EmitError>(e),
            },
        decreases expr.0, 1int, 0int,
    {
        proof {
            assert(crate::ast::children_before(self.cx.ast@[expr.0 as int].expr, expr.0 as int));
        }
        let (is_recursive, init, body) = match self.cx.ast.expr(expr) {
            Expr::Bind { is_recursive, init, body, .. } => (is_recursive, init, body),
            _ => {
                return Err(EmitError::Unsupported);
            },
        };
        if is_recursive {
            return Err(EmitError::Unsupported);
        }
        self.emit_expr(init)?;
        let ghost mid = self.bb.code();
        let slot = self.fresh_slot()?;
        if expr.0 >= self.cx.resolution.binders.len() {
            return Err(EmitError::Unresolved);
        }
        let bound = match *self.cx.resolution.binders.get(expr) {
            Some(l) => l,
            None => {
                return Err(EmitError::Unresolved);
            },
        };
        self.env.locals.push((bound, slot));
        let r = self.emit_expr(body);
        proof {
            if r is Ok {
                assert(is_code_prefix(old(self).bb.code(), self.bb.code())) by {
                    assert forall|k: int| 0 <= k < old(self).bb.code().len() implies #[trigger] self.bb.code()[k]
                        == old(self).bb.code()[k] by {
                        assert(mid[k] == old(self).bb.code()[k]);
                    }
                }
            }
        }
        r
    }

    fn emit_bin(&mut self, expr: ExprId) -> (res: Result<(), EmitError>)
        requires
            old(self).ready(),
            expr.0 < old(self).cx.ast@.len(),
            old(self).cx.ast@[expr.0 as int].expr is Bin,
        ensures
            final(self).same_cx(old(self)),
            res is Ok ==> is_code_prefix(old(self).bb.code(), final(self).bb.code()),
            res is Ok ==> final(self).parents@ == old(self).parents@,
            match em_expr(
                old(self).cx.ast@,
                old(self).cx.resolution.uses@,
                old(self).cx.resolution.binders@,
                expr.0 as int,
                old(self).model(),
            ) {
                Ok(m) => res is Ok && final(self).model() == m,
                Err(e) => res == Err::<(), EmitError>(e),
            },
        decreases expr.0, 1int, 0int,
    {
        proof {
            assert(crate::ast::children_before(self.cx.ast@[expr.0 as int].expr, expr.0 as int));
        }
        let (lhs, op, rhs) = match self.cx.ast.expr(expr) {
            Expr::Bin(lhs, op, rhs) => (lhs, op, rhs),
            _ => {
                return Err(EmitError::Unsupported);
            },
        };
        self.emit_expr(lhs)?;
        let ghost c1 = self.bb.code();
        self.emit_expr(rhs)?;
        let op = if op == Token::Plus {
            BinOp::AddInt
        } else if op == Token::Minus {
            BinOp::SubInt
        } else if op == Token::Star {
            BinOp::MulInt
        } else if op == Token::Slash {
            BinOp::DivInt
        } else if op == Token::EqEq {
            BinOp::EqInt
        } else if op == Token::Gt {
            BinOp::GtInt
        } else if op == Token::GtEq {
            BinOp::GeInt
        } else if op == Token::Lt {
            BinOp::LtInt
        } else if op == Token::LtEq {
            BinOp::LeInt
        } else {
            return Err(EmitError::Unsupported);
        };
        let ghost c2 = self.bb.code();
        self.bb.bin(op);
        proof {
            assert forall|k: int| 0 <= k < old(self).bb.code().len() implies #[trigger] self.bb.code()[k]
                == old(self).bb.code()[k] by {
                assert(c2[k] == c1[k]);
            }
        }
        Ok(())
    }

    fn emit_cond(&mut self, expr: ExprId) -> (res: Result<(), EmitError>)
        requires
            old(self).ready(),
            expr.0 < old(self).cx.ast@.len(),
            old(self).cx.ast@[expr.0 as int].expr is Cond,
        ensures
            final(self).same_cx(old(self)),
            res is Ok ==> is_code_prefix(old(self).bb.code(), final(self).bb.code()),
            res is Ok ==> final(self).parents@ == old(self).parents@,
            match em_expr(
                old(self).cx.ast@,
                old(self).cx.resolution.uses@,
                old(self).cx.resolution.binders@,
                expr.0 as int,
                old(self).model(),
            ) {
                Ok(m) => res is Ok && final(self).model() == m,
                Err(e) => res == Err::<(), EmitError>(e),
            },
        decreases expr.0, 1int, 0int,
    {
        proof {
            assert(crate::ast::children_before(self.cx.ast@[expr.0 as int].expr, expr.0 as int));
        }
        let (cond, then_branch, else_branch) = match self.cx.ast.expr(expr) {
            Expr::Cond { cond, then_branch, else_branch } => (cond, then_branch, else_branch),
            _ => {
                return Err(EmitError::Unsupported);
            },
        };
        self.emit_expr(cond)?;
        let ghost c1 = self.bb.code();
        self.bb.push(JMP_FALSE);
        let then_jump = self.bb.len();
        self.bb.write_bytes(0xff, 0xff);
        proof {
            assert(self.bb.code() =~= c1 + seq![JMP_FALSE, 0xffu8, 0xffu8]);
        }
        let ghost c2 = self.bb.code();
        self.emit_expr(then_branch)?;
        let ghost c3 = self.bb.code();
        self.bb.push(JMP);
        let else_jump = self.bb.len();
        self.bb.write_bytes(0xff, 0xff);
        proof {
            assert(self.bb.code() =~= c3 + seq![JMP, 0xffu8, 0xffu8]);
        }
        let jump = self.bb.len() - then_jump - 2;
        self.bb.patch(then_jump, ((jump / 256) % 256) as u8);
        self.bb.patch(then_jump + 1, (jump % 256) as u8);
        let ghost c4 = self.bb.code();
        self.emit_expr(else_branch)?;
        let ghost c5 = self.bb.code();
        let jump = self.bb.len() - else_jump - 2;
        self.bb.patch(else_jump, ((jump / 256) % 256) as u8);
        self.bb.patch(else_jump + 1, (jump % 256) as u8);
        proof {
            assert forall|k: int| 0 <= k < old(self).bb.code().len() implies #[trigger] self.bb.code()[k]
                == old(self).bb.code()[k] by {
                assert(c5[k] == c4[k]);
                assert(c3[k] == c2[k]);
                assert(c2[k] == c1[k]);
            }
        }
        Ok(())
    }

    /// Gives each of `params` a fresh slot of the function being emitted.
    fn bind_params_exec(&mut self, params: &Vec<Local>) -> (res: Result<(), EmitError>)
        ensures
            final(self).cx == old(self).cx,
            final(self).bb == old(self).bb,
            final(self).parents == old(self).parents,
            match bind_params(old(self).model(), params@, params@.len() as int) {
                Ok(m) => res is Ok && final(self).model() == m,
                Err(e) => res == Err::<(), EmitError>(e),
            },
    {
        let ghost m0 = self.model();
        let mut k: usize = 0;
        while k < params.len()
            invariant
                k <= params@.len(),
                self.cx == old(self).cx,
                self.bb == old(self).bb,
                self.parents == old(self).parents,
                m0 == old(self).model(),
                bind_params(m0, params@, k as int) == Ok::<EmModel, EmitError>(self.model()),
            decreases params@.len() - k,
        {
            let slot = match self.fresh_slot() {
                Ok(s) => s,
                Err(e) => {
                    proof {
                        lemma_bind_params_err(m0, params@, k as int + 1, params@.len() as int);
                    }
                    return Err(e);
                },
            };
            self.env.locals.push((params[k], slot));
            k = k + 1;
        }
        Ok(())
    }

    /// Appends the operands of a closure of function `fun`: where each of
    /// its captures is found in the function being emitted.
    fn push_capture_operands(&mut self, fun: usize) -> (res: Result<(), EmitError>)
        requires
            fun < old(self).cx.funs@.len(),
        ensures
            final(self).cx == old(self).cx,
            final(self).env == old(self).env,
            final(self).slot_count == old(self).slot_count,
            final(self).parents == old(self).parents,
            res is Ok ==> is_code_prefix(old(self).bb.code(), final(self).bb.code()),
            match capture_operands(
                old(self).model().env,
                old(self).model().funs[fun as int].captures,
                old(self).model().funs[fun as int].captures.len() as int,
            ) {
                Ok(ops) => res is Ok && final(self).model() == emit_bytes(old(self).model(), ops),
                Err(e) => res == Err::<(), EmitError>(e),
            },
    {
        let ghost m0 = self.model();
        let ghost caps = m0.funs[fun as int].captures;
        let n = self.cx.funs[fun].captures.len();
        proof {
            assert(self.bb.code() =~= m0.bb.code + Seq::<u8>::empty());
            assert(self.model() =~= emit_bytes(m0, Seq::<u8>::empty()));
        }
        let mut c: usize = 0;
        while c < n
            invariant
                self.cx == old(self).cx,
                self.env == old(self).env,
                self.slot_count == old(self).slot_count,
                self.parents == old(self).parents,
                m0 == old(self).model(),
                fun < self.cx.funs@.len(),
                n == caps.len(),
                caps == self.cx.funs@[fun as int].captures@,
                c <= n,
                capture_operands(m0.env, caps, c as int) matches Ok(ops) && self.model() == emit_bytes(m0, ops),
            decreases n - c,
        {
            let capture = self.cx.funs[fun].captures[c];
            if let Some(slot) = find_slot(&self.env.locals, capture) {
                self.bb.push(1);
                self.bb.push(slot);
            } else if let Some(slot) = find_slot(&self.env.captures, capture) {
                self.bb.push(0);
                self.bb.push(slot);
            } else {
                proof {
                    lemma_capture_operands_err(m0.env, caps, c as int + 1, n as int);
                }
                return Err(EmitError::CaptureNotFound);
            }
            proof {
                let ops2 = capture_operands(m0.env, caps, c as int + 1).unwrap();
                assert(self.bb.code() =~= m0.bb.code + ops2);
                assert(self.model() =~= emit_bytes(m0, ops2));
            }
            c = c + 1;
        }
        proof {
            assert forall|k: int| 0 <= k < old(self).bb.code().len() implies #[trigger] self.bb.code()[k]
                == old(self).bb.code()[k] by {
                let ops = capture_operands(m0.env, caps, n as int).unwrap();
                assert(self.bb.code() == m0.bb.code + ops);
            }
        }
        Ok(())
    }

    fn emit_abs(&mut self, expr: ExprId) -> (res: Result<(), EmitError>)
        requires
            old(self).ready(),
            expr.0 < old(self).cx.ast@.len(),
            old(self).cx.ast@[expr.0 as int].expr is Abs,
        ensures
            final(self).same_cx(old(self)),
            res is Ok ==> is_code_prefix(old(self).bb.code(), final(self).bb.code()),
            res is Ok ==> final(self).parents@ == old(self).parents@,
            match em_expr(
                old(self).cx.ast@,
                old(self).cx.resolution.uses@,
                old(self).cx.resolution.binders@,
                expr.0 as int,
                old(self).model(),
            ) {
                Ok(m) => res is Ok && final(self).model() == m,
                Err(e) => res == Err::<(), EmitError>(e),
            },
        decreases expr.0, 1int, 0int,
    {
        let (params, body) = match collect_params(self.cx.ast, &self.cx.resolution.binders, expr) {
            Ok(p) => p,
            Err(e) => {
                return Err(e);
            },
        };
        let ghost m0 = self.model();
        self.child();
        proof {
            assert(self.model().bb =~= empty_builder());
            assert(self.model().env =~= empty_env());
            assert(self.model().parents =~= m0.parents.push((m0.bb, m0.env, m0.slot_count)));
        }
        self.bind_params_exec(&params)?;
        let fun = self.emit_fun(body, params.len() as u8)?;
        let ghost mf = self.model();
        let ghost c1 = self.bb.code();
        self.push_capture_operands(fun)?;
        let ghost c2 = self.bb.code();
        if !self.bb.has_room(Value::Closure(fun)) {
            return Err(EmitError::TooManyConstants);
        }
        self.bb.push(CLOSURE);
        let index = self.bb.add_const(Value::Closure(fun));
        self.bb.push(index);
        proof {
            let caps = mf.funs[fun as int].captures;
            let ops = capture_operands(mf.env, caps, caps.len() as int).unwrap();
            let b = with_bytes(mf.bb, ops + seq![CLOSURE]);
            assert(self.bb.code() =~= with_bytes(add_const_model(b, Value::Closure(fun)).0, seq![index]).code);
            assert forall|k: int| 0 <= k < old(self).bb.code().len() implies #[trigger] self.bb.code()[k]
                == old(self).bb.code()[k] by {
                assert(c2[k] == c1[k]);
            }
        }
        Ok(())
    }

    fn emit_app(&mut self, expr: ExprId) -> (res: Result<(), EmitError>)
        requires
            old(self).ready(),
            expr.0 < old(self).cx.ast@.len(),
            old(self).cx.ast@[expr.0 as int].expr is App,
        ensures
            final(self).same_cx(old(self)),
            res is Ok ==> is_code_prefix(old(self).bb.code(), final(self).bb.code()),
            res is Ok ==> final(self).parents@ == old(self).parents@,
            match em_expr(
                old(self).cx.ast@,
                old(self).cx.resolution.uses@,
                old(self).cx.resolution.binders@,
                expr.0 as int,
                old(self).model(),
            ) {
                Ok(m) => res is Ok && final(self).model() == m,
                Err(e) => res == Err::<(), EmitError>(e),
            },
        decreases expr.0, 1int, 0int,
    {
        let ghost nodes = self.cx.ast@;
        let ghost uses = self.cx.resolution.uses@;
        let ghost binders = self.cx.resolution.binders@;
        let (args, callee) = collect_args(self.cx.ast, expr);
        self.emit_expr(callee)?;
        let ghost m1 = self.model();
        let ghost c1 = self.bb.code();
        let mut j = args.len();
        while j > 0
            invariant
                self.ready(),
                self.same_cx(old(self)),
                nodes == self.cx.ast@,
                uses == self.cx.resolution.uses@,
                binders == self.cx.resolution.binders@,
                j <= args@.len(),
                forall|i: int| 0 <= i < args@.len() ==> (#[trigger] args@[i]).0 < expr.0,
                expr.0 < nodes.len(),
                em_args(nodes, uses, binders, expr.0 as int, args@, args@.len() as int, m1) == em_args(
                    nodes,
                    uses,
                    binders,
                    expr.0 as int,
                    args@,
                    j as int,
                    self.model(),
                ),
                self.parents@ == old(self).parents@,
                is_code_prefix(c1, self.bb.code()),
                is_code_prefix(old(self).bb.code(), c1),
                old(self).cx.ast@[expr.0 as int].expr is App,
                app_spine(nodes, expr.0 as int) == (args@, callee.0 as int),
                callee.0 < expr.0,
                em_expr(nodes, uses, binders, callee.0 as int, old(self).model()) == Ok::<EmModel, EmitError>(m1),
                nodes == old(self).cx.ast@,
                uses == old(self).cx.resolution.uses@,
                binders == old(self).cx.resolution.binders@,
            decreases j,
        {
            let ghost cj = self.bb.code();
            self.emit_expr(args[j - 1])?;
            proof {
                assert forall|k: int| 0 <= k < c1.len() implies #[trigger] self.bb.code()[k] == c1[k] by {
                    assert(cj[k] == c1[k]);
                }
            }
            j = j - 1;
        }
        let ghost c2 = self.bb.code();
        self.bb.call(args.len() as u8);
        proof {
            assert forall|k: int| 0 <= k < old(self).bb.code().len() implies #[trigger] self.bb.code()[k]
                == old(self).bb.code()[k] by {
                assert(c2[k] == c1[k]);
            }
        }
        Ok(())
    }
}

/// `a` is the start of `b`.
pub open spec fn is_code_prefix(a: Seq<u8>, b: Seq<u8>) -> bool {
    &&& a.len() <= b.len()
    &&& forall|i: int| 0 <= i < a.len() ==> #[trigger] b[i] == a[i]
}

/// The last slot recorded for `l`, among 16-bit slots.
pub open spec fn wide_slot_of(entries: Seq<(Local, u16)>, l: Local) -> Option<u16>
    decreases entries.len(),
{
    if entries.len() == 0 {
        None
    } else if entries.last().0 == l {
        Some(entries.last().1)
    } else {
        wide_slot_of(entries.drop_last(), l)
    }
}

fn find_wide_slot(entries: &Vec<(Local, u16)>, l: Local) -> (res: Option<u16>)
    ensures
        res == wide_slot_of(entries@, l),
{
    let mut i = entries.len();
    proof {
        assert(entries@.take(i as int) =~= entries@);
    }
    while i > 0
        invariant
            i <= entries@.len(),
            wide_slot_of(entries@, l) == wide_slot_of(entries@.take(i as int), l),
        decreases i,
    {
        proof {
            assert(entries@.take(i as int).drop_last() =~= entries@.take(i - 1));
        }
        if entries[i - 1].0 == l {
            return Some(entries[i - 1].1);
        }
        i = i - 1;
    }
    None
}

/// The locals and captures of a function that the first emitter is walking.
pub struct Scope {
    pub locals: Vec<(Local, u16)>,
    pub captures: Vec<(Local, u16)>,
}

impl Scope {
    pub fn new() -> (res: Scope)
        ensures
            res.locals@.len() == 0,
            res.captures@.len() == 0,
    {
        Scope { locals: Vec::new(), captures: Vec::new() }
    }

    pub fn contains(&self, l: Local) -> (res: bool)
        ensures
            res == (wide_slot_of(self.locals@, l) is Some || wide_slot_of(self.captures@, l) is Some),
    {
        find_wide_slot(&self.locals, l).is_some() || find_wide_slot(&self.captures, l).is_some()
    }
}

/// `a` is the start of `b`.
pub open spec fn is_ops_prefix(a: Seq<Op>, b: Seq<Op>) -> bool {
    &&& a.len() <= b.len()
    &&& forall|i: int| 0 <= i < a.len() ==> #[trigger] b[i] == a[i]
}

/// A scope, as values.
#[verifier::ext_equal]
pub struct ScopeModel {
    pub locals: Seq<(Local, u16)>,
    pub captures: Seq<(Local, u16)>,
}

pub open spec fn scopemodel(s: Scope) -> ScopeModel {
    ScopeModel { locals: s.locals@, captures: s.captures@ }
}

/// Whether one of the enclosing scopes `parents` has `l`.
pub open spec fn scopes_have(parents: Seq<(Seq<Op>, ScopeModel, u16)>, l: Local) -> bool
    decreases parents.len(),
{
    parents.len() > 0 && (wide_slot_of(parents.last().1.locals, l) is Some || wide_slot_of(
        parents.last().1.captures,
        l,
    ) is Some || scopes_have(parents.drop_last(), l))
}

/// The state of the first emitter, as values.
#[verifier::ext_equal]
pub struct OpModel {
    pub code: Seq<Op>,
    pub env: ScopeModel,
    pub local_count: u16,
    pub parents: Seq<(Seq<Op>, ScopeModel, u16)>,
}

/// `m` with `op` appended to its code.
pub open spec fn emit_op(m: OpModel, op: Op) -> OpModel {
    OpModel { code: m.code.push(op), ..m }
}

/// The instructions for a variable that uses local `l`.
pub open spec fn op_var(m: OpModel, l: Local) -> Result<OpModel, EmitError> {
    match wide_slot_of(m.env.locals, l) {
        Some(s) => Ok(emit_op(m, Op::LoadLocal(s))),
        None => match wide_slot_of(m.env.captures, l) {
            Some(s) => Ok(emit_op(m, Op::LoadCapture(s))),
            None => if scopes_have(m.parents, l) {
                let s = m.env.captures.len() as u16;
                Ok(
                    OpModel {
                        code: m.code.push(Op::LoadCapture(s)),
                        env: ScopeModel { captures: m.env.captures.push((l, s)), ..m.env },
                        ..m
                    },
                )
            } else {
                Err(EmitError::Unbound)
            },
        },
    }
}

/// `m` with the first `k` of `params` given fresh locals.
pub open spec fn op_bind_params(m: OpModel, params: Seq<Local>, k: int) -> Result<OpModel, EmitError>
    decreases k,
{
    if k <= 0 {
        Ok(m)
    } else {
        match op_bind_params(m, params, k - 1) {
            Err(e) => Err(e),
            Ok(m1) => if m1.local_count == u16::MAX {
                Err(EmitError::TooManySlots)
            } else {
                Ok(
                    OpModel {
                        local_count: (m1.local_count + 1) as u16,
                        env: ScopeModel { locals: m1.env.locals.push((params[k - 1], m1.local_count)), ..m1.env },
                        ..m1
                    },
                )
            },
        }
    }
}

/// The instructions for node `id`, listed in state `m` by the first
/// emitter: the state after, or why there is none. Its jumps go to absolute
/// positions; an abstraction, once its body is listed, is not turned into a
/// function, and gives `Unsupported`.
pub open spec fn op_expr(nodes: Seq<Node>, uses: Seq<Option<Local>>, binders: Seq<Option<Local>>, id: int, m: OpModel) -> Result<
    OpModel,
    EmitError,
>
    decreases id, 2int, 0int,
{
    if !(0 <= id < nodes.len()) {
        Err(EmitError::Unsupported)
    } else {
        match nodes[id].expr {
            Expr::Lit(Lit::Unit) => Err(EmitError::Unsupported),
            Expr::Lit(Lit::Int(n)) => Ok(emit_op(m, Op::ConstInt(n))),
            Expr::Lit(Lit::Bool(b)) => Ok(emit_op(m, Op::ConstBool(b))),
            Expr::Var(_) => if id >= uses.len() {
                Err(EmitError::Unresolved)
            } else {
                match uses[id] {
                    None => Err(EmitError::Unresolved),
                    Some(l) => op_var(m, l),
                }
            },
            Expr::Bind { is_recursive, init, body, .. } => if is_recursive {
                Err(EmitError::Unsupported)
            } else if !(init.0 < id && body.0 < id) {
                Err(EmitError::Unsupported)
            } else {
                match op_expr(nodes, uses, binders, init.0 as int, m) {
                    Err(e) => Err(e),
                    Ok(m1) => if m1.local_count == u16::MAX {
                        Err(EmitError::TooManySlots)
                    } else if id >= binders.len() {
                        Err(EmitError::Unresolved)
                    } else {
                        match binders[id] {
                            None => Err(EmitError::Unresolved),
                            Some(l) => op_expr(
                                nodes,
                                uses,
                                binders,
                                body.0 as int,
                                OpModel {
                                    local_count: (m1.local_count + 1) as u16,
                                    env: ScopeModel { locals: m1.env.locals.push((l, m1.local_count)), ..m1.env },
                                    ..m1
                                },
                            ),
                        }
                    },
                }
            },
            Expr::Bin(l, op, r) => if !(l.0 < id && r.0 < id) {
                Err(EmitError::Unsupported)
            } else {
                match op_expr(nodes, uses, binders, l.0 as int, m) {
                    Err(e) => Err(e),
                    Ok(m1) => match op_expr(nodes, uses, binders, r.0 as int, m1) {
                        Err(e) => Err(e),
                        Ok(m2) => match bin_op_of(op) {
                            None => Err(EmitError::Unsupported),
                            Some(bop) => Ok(emit_op(m2, Op::Bin(bop))),
                        },
                    },
                }
            },
            Expr::Cond { cond, then_branch, else_branch } => if !(cond.0 < id && then_branch.0 < id
                && else_branch.0 < id) {
                Err(EmitError::Unsupported)
            } else {
                match op_expr(nodes, uses, binders, cond.0 as int, m) {
                    Err(e) => Err(e),
                    Ok(m1) => {
                        let then_jump = m1.code.len() as int;
                        match op_expr(nodes, uses, binders, then_branch.0 as int, emit_op(m1, Op::JmpIfFalse(u16::MAX))) {
                            Err(e) => Err(e),
                            Ok(m2) => {
                                let else_jump = m2.code.len() as int;
                                let code = m2.code.push(Op::Jmp(u16::MAX));
                                let code = code.update(then_jump, Op::JmpIfFalse(code.len() as u16));
                                match op_expr(nodes, uses, binders, else_branch.0 as int, OpModel { code, ..m2 }) {
                                    Err(e) => Err(e),
                                    Ok(m3) => Ok(
                                        OpModel {
                                            code: m3.code.update(else_jump, Op::Jmp(m3.code.len() as u16)),
                                            ..m3
                                        },
                                    ),
                                }
                            },
                        }
                    },
                }
            },
            Expr::Abs(_, _) => match abs_params(nodes, binders, id) {
                Err(e) => Err(e),
                Ok((params, body)) => if !(0 <= body < id) {
                    Err(EmitError::Unsupported)
                } else {
                    let child = OpModel {
                        code: Seq::empty(),
                        env: ScopeModel { locals: Seq::empty(), captures: Seq::empty() },
                        local_count: 0,
                        parents: m.parents.push((m.code, m.env, m.local_count)),
                    };
                    match op_bind_params(child, params, params.len() as int) {
                        Err(e) => Err(e),
                        Ok(mc) => match op_expr(nodes, uses, binders, body, mc) {
                            Err(e) => Err(e),
                            Ok(_) => Err(EmitError::Unsupported),
                        },
                    }
                },
            },
            Expr::App(_, _) => {
                let (args, callee) = app_spine(nodes, id);
                if !(0 <= callee < id) {
                    Err(EmitError::Unsupported)
                } else {
                    match op_expr(nodes, uses, binders, callee, m) {
                        Err(e) => Err(e),
                        Ok(m1) => match op_args(nodes, uses, binders, id, args, args.len() as int, m1) {
                            Err(e) => Err(e),
                            Ok(m2) => Ok(emit_op(m2, Op::Call(args.len() as u8))),
                        },
                    }
                }
            },
        }
    }
}

/// The instructions for the first `j` of the arguments `args` of node
/// `parent`, the last of them first.
pub open spec fn op_args(
    nodes: Seq<Node>,
    uses: Seq<Option<Local>>,
    binders: Seq<Option<Local>>,
    parent: int,
    args: Seq<ExprId>,
    j: int,
    m: OpModel,
) -> Result<OpModel, EmitError>
    decreases parent, 1int, j,
{
    if j <= 0 || j > args.len() {
        Ok(m)
    } else if !(0 <= args[j - 1].0 < parent) {
        Err(EmitError::Unsupported)
    } else {
        match op_expr(nodes, uses, binders, args[j - 1].0 as int, m) {
            Err(e) => Err(e),
            Ok(m1) => op_args(nodes, uses, binders, parent, args, j - 1, m1),
        }
    }
}

/// The operator tokens and the operations they compile to, as for the
/// opcodes.
pub open spec fn operator_binop(op: Token, b: BinOp) -> bool {
    ||| op == Token::Plus && b == BinOp::AddInt
    ||| op == Token::Minus && b == BinOp::SubInt
    ||| op == Token::Star && b == BinOp::MulInt
    ||| op == Token::Slash && b == BinOp::DivInt
    ||| op == Token::EqEq && b == BinOp::EqInt
    ||| op == Token::Gt && b == BinOp::GtInt
    ||| op == Token::GtEq && b == BinOp::GeInt
    ||| op == Token::Lt && b == BinOp::LtInt
    ||| op == Token::LtEq && b == BinOp::LeInt
}

/// A binary operator is listed as the instructions of its left operand, then
/// those of its right operand, then the one operation of the operator.
pub proof fn lemma_op_operator(
    nodes: Seq<Node>,
    uses: Seq<Option<Local>>,
    binders: Seq<Option<Local>>,
    id: int,
    m: OpModel,
)
    requires
        0 <= id < nodes.len(),
    ensures
        match (nodes[id].expr, op_expr(nodes, uses, binders, id, m)) {
            (Expr::Bin(l, op, r), Ok(m2)) => match op_expr(nodes, uses, binders, l.0 as int, m) {
                Ok(m1) => match op_expr(nodes, uses, binders, r.0 as int, m1) {
                    Ok(mr) => {
                        &&& m2.code.len() == mr.code.len() + 1
                        &&& m2.code.last() matches Op::Bin(b) && operator_binop(op, b)
                        &&& m2 == emit_op(mr, m2.code.last())
                    },
                    Err(_) => false,
                },
                Err(_) => false,
            },
            _ => true,
        },
{
    match (nodes[id].expr, op_expr(nodes, uses, binders, id, m)) {
        (Expr::Bin(l, op, r), Ok(m2)) => {
            let m1 = op_expr(nodes, uses, binders, l.0 as int, m)->Ok_0;
            let mr = op_expr(nodes, uses, binders, r.0 as int, m1)->Ok_0;
            let bop = bin_op_of(op)->Some_0;
            assert(m2 == emit_op(mr, Op::Bin(bop)));
        },
        _ => {},
    }
}

proof fn lemma_op_bind_params_err(m: OpModel, params: Seq<Local>, k: int, n: int)
    requires
        0 <= k <= n,
        op_bind_params(m, params, k) is Err,
    ensures
        op_bind_params(m, params, n) == op_bind_params(m, params, k),
    decreases n - k,
{
    if k < n {
        lemma_op_bind_params_err(m, params, k, n - 1);
    }
}

/// The first emitter, which lists instructions as values; the enclosing
/// functions wait in `parents`, innermost last.
pub struct Emitter<'a> {
    pub ast: &'a Ast,
    pub resolution: &'a Resolution,
    pub types: &'a AstTable<Option<TypeId>>,
    pub code: Vec<Op>,
    pub local_count: u16,
    pub funs: Vec<Fun>,
    pub env: Scope,
    pub parents: Vec<(Vec<Op>, Scope, u16)>,
}

impl<'a> Emitter<'a> {
    pub fn new(ast: &'a Ast, resolution: &'a Resolution, types: &'a AstTable<Option<TypeId>>) -> (res: Self)
        ensures
            res.ast == ast,
            res.resolution == resolution,
            res.types == types,
            res.code@.len() == 0,
            res.env.locals@.len() == 0,
            res.env.captures@.len() == 0,
            res.local_count == 0,
            res.funs@.len() == 0,
            res.parents@.len() == 0,
    {
        Emitter {
            ast,
            resolution,
            types,
            code: Vec::new(),
            local_count: 0,
            funs: Vec::new(),
            env: Scope::new(),
            parents: Vec::new(),
        }
    }

    /// Starts a function nested in the current one.
    fn child(&mut self)
        ensures
            final(self).ast == old(self).ast,
            final(self).resolution == old(self).resolution,
            final(self).funs == old(self).funs,
            final(self).types == old(self).types,
            final(self).parents@ == old(self).parents@.push((old(self).code, old(self).env, old(self).local_count)),
            final(self).code@.len() == 0,
            final(self).env.locals@.len() == 0,
            final(self).env.captures@.len() == 0,
            final(self).local_count == 0,
    {
        let mut code: Vec<Op> = Vec::new();
        std::mem::swap(&mut code, &mut self.code);
        let mut env = Scope::new();
        std::mem::swap(&mut env, &mut self.env);
        let count = self.local_count;
        self.local_count = 0;
        self.parents.push((code, env, count));
    }

    /// The state of emission, as values.
    pub open spec fn model(&self) -> OpModel {
        OpModel {
            code: self.code@,
            env: scopemodel(self.env),
            local_count: self.local_count,
            parents: Seq::new(
                self.parents@.len(),
                |i: int| (self.parents@[i].0@, scopemodel(self.parents@[i].1), self.parents@[i].2),
            ),
        }
    }

    /// The program, the resolution, the types and the finished functions stay.
    pub open spec fn same_input(&self, old: &Self) -> bool {
        &&& self.ast == old.ast
        &&& self.resolution == old.resolution
        &&& self.types == old.types
        &&& self.funs == old.funs
    }

    /// Emits `expr` and a return for the current function. Turning the list
    /// into a function is not done: this always ends in `Unsupported` unless
    /// emitting `expr` fails first.
    pub fn emit(&mut self, expr: ExprId, arity: u8) -> (res: Result<usize, EmitError>)
        requires
            old(self).ast.wf(),
            expr.0 < old(self).ast@.len(),
        ensures
            final(self).same_input(old(self)),
            res == match op_expr(
                old(self).ast@,
                old(self).resolution.uses@,
                old(self).resolution.binders@,
                expr.0 as int,
                old(self).model(),
            ) {
                Err(e) => Err::<usize, EmitError>(e),
                Ok(_) => Err::<usize, EmitError>(EmitError::Unsupported),
            },
        decreases expr.0, 3int, 0int,
    {
        self.emit_expr(expr)?;
        self.code.push(Op::Ret);
        Err(EmitError::Unsupported)
    }

    fn fresh_local(&mut self) -> (res: Result<u16, EmitError>)
        ensures
            final(self).same_input(old(self)),
            final(self).code == old(self).code,
            final(self).env == old(self).env,
            final(self).parents == old(self).parents,
            old(self).local_count < u16::MAX ==> res == Ok::<u16, EmitError>(old(self).local_count)
                && final(self).local_count == old(self).local_count + 1,
            old(self).local_count == u16::MAX ==> res == Err::<u16, EmitError>(EmitError::TooManySlots),
    {
        if self.local_count == u16::MAX {
            return Err(EmitError::TooManySlots);
        }
        let l = self.local_count;
        self.local_count = self.local_count + 1;
        Ok(l)
    }

    /// Appends instructions that leave the value of `expr` on the stack.
    fn emit_expr(&mut self, expr: ExprId) -> (res: Result<(), EmitError>)
        requires
            old(self).ast.wf(),
            expr.0 < old(self).ast@.len(),
        ensures
            final(self).same_input(old(self)),
            res is Ok ==> final(self).parents@ == old(self).parents@,
            res is Ok ==> is_ops_prefix(old(self).code@, final(self).code@),
            match op_expr(
                old(self).ast@,
                old(self).resolution.uses@,
                old(self).resolution.binders@,
                expr.0 as int,
                old(self).model(),
            ) {
                Ok(m) => res is Ok && final(self).model() == m,
                Err(e) => res == Err::<(), EmitError>(e),
            },
        decreases expr.0, 2int, 0int,
    {
        proof {
            assert(crate::ast::children_before(self.ast@[expr.0 as int].expr, expr.0 as int));
        }
        match self.ast.expr(expr) {
            Expr::Lit(lit) => match lit {
                Lit::Unit => Err(EmitError::Unsupported),
                Lit::Int(n) => {
                    self.code.push(Op::ConstInt(n));
                    Ok(())
                },
                Lit::Bool(b) => {
                    self.code.push(Op::ConstBool(b));
                    Ok(())
                },
            },
            Expr::Var(_) => self.var_ops(expr),
            Expr::Bind { .. } => self.bind_ops(expr),
            Expr::Bin(_, _, _) => self.bin_ops(expr),
            Expr::Cond { .. } => self.cond_ops(expr),
            Expr::Abs(_, _) => self.abs_ops(expr),
            Expr::App(_, _) => self.app_ops(expr),
        }
    }

    fn var_ops(&mut self, expr: ExprId) -> (res: Result<(), EmitError>)
        requires
            old(self).ast.wf(),
            expr.0 < old(self).ast@.len(),
            old(self).ast@[expr.0 as int].expr is Var,
        ensures
            final(self).same_input(old(self)),
            res is Ok ==> final(self).parents@ == old(self).parents@,
            res is Ok ==> is_ops_prefix(old(self).code@, final(self).code@),
            match op_expr(
                old(self).ast@,
                old(self).resolution.uses@,
                old(self).resolution.binders@,
                expr.0 as int,
                old(self).model(),
            ) {
                Ok(m) => res is Ok && final(self).model() == m,
                Err(e) => res == Err::<(), EmitError>(e),
            },
    {
        if expr.0 >= self.resolution.uses.len() {
            return Err(EmitError::Unresolved);
        }
        let local = match *self.resolution.uses.get(expr) {
            Some(l) => l,
            None => {
                return Err(EmitError::Unresolved);
            },
        };
        if let Some(slot) = find_wide_slot(&self.env.locals, local) {
            self.code.push(Op::LoadLocal(slot));
            return Ok(());
        }
        if let Some(slot) = find_wide_slot(&self.env.captures, local) {
            self.code.push(Op::LoadCapture(slot));
            return Ok(());
        }
        let ghost m0 = self.model();
        let mut i = self.parents.len();
        proof {
            assert(m0.parents.take(i as int) =~= m0.parents);
        }
        while i > 0
            invariant
                i <= self.parents@.len(),
                self == old(self),
                m0 == old(self).model(),
                scopes_have(m0.parents, local) == scopes_have(m0.parents.take(i as int), local),
                expr.0 < old(self).ast@.len(),
                old(self).ast@[expr.0 as int].expr is Var,
                expr.0 < old(self).resolution.uses@.len(),
                old(self).resolution.uses@[expr.0 as int] == Some(local),
                wide_slot_of(m0.env.locals, local) is None,
                wide_slot_of(m0.env.captures, local) is None,
            decreases i,
        {
            proof {
                assert(m0.parents.take(i as int).drop_last() =~= m0.parents.take(i - 1));
                assert(m0.parents.take(i as int).last() == m0.parents[i - 1]);
            }
            if self.parents[i - 1].1.contains(local) {
                let slot = self.env.captures.len() as u16;
                self.env.captures.push((local, slot));
                self.code.push(Op::LoadCapture(slot));
                return Ok(());
            }
            i = i - 1;
        }
        Err(EmitError::Unbound)
    }

    fn bind_ops(&mut self, expr: ExprId) -> (res: Result<(), EmitError>)
        requires
            old(self).ast.wf(),
            expr.0 < old(self).ast@.len(),
            old(self).ast@[expr.0 as int].expr is Bind,
        ensures
            final(self).same_input(old(self)),
            res is Ok ==> final(self).parents@ == old(self).parents@,
            res is Ok ==> is_ops_prefix(old(self).code@, final(self).code@),
            match op_expr(
                old(self).ast@,
                old(self).resolution.uses@,
                old(self).resolution.binders@,
                expr.0 as int,
                old(self).model(),
            ) {
                Ok(m) => res is Ok && final(self).model() == m,
                Err(e) => res == Err::<(), EmitError>(e),
            },
        decreases expr.0, 1int, 0int,
    {
        proof {
            assert(crate::ast::children_before(self.ast@[expr.0 as int].expr, expr.0 as int));
        }
        let (is_recursive, init, body) = match self.ast.expr(expr) {
            Expr::Bind { is_recursive, init, body, .. } => (is_recursive, init, body),
            _ => {
                return Err(EmitError::Unsupported);
            },
        };
        if is_recursive {
            return Err(EmitError::Unsupported);
        }
        self.emit_expr(init)?;
        let ghost mid = self.code@;
        let slot = self.fresh_local()?;
        if expr.0 >= self.resolution.binders.len() {
            return Err(EmitError::Unresolved);
        }
        let bound = match *self.resolution.binders.get(expr) {
            Some(l) => l,
            None => {
                return Err(EmitError::Unresolved);
            },
        };
        self.env.locals.push((bound, slot));
        let r = self.emit_expr(body);
        proof {
            if r is Ok {
                assert forall|k: int| 0 <= k < old(self).code@.len() implies #[trigger] self.code@[k]
                    == old(self).code@[k] by {
                    assert(mid[k] == old(self).code@[k]);
                }
            }
        }
        r
    }

    fn bin_ops(&mut self, expr: ExprId) -> (res: Result<(), EmitError>)
        requires
            old(self).ast.wf(),
            expr.0 < old(self).ast@.len(),
            old(self).ast@[expr.0 as int].expr is Bin,
        ensures
            final(self).same_input(old(self)),
            res is Ok ==> final(self).parents@ == old(self).parents@,
            res is Ok ==> is_ops_prefix(old(self).code@, final(self).code@),
            match op_expr(
                old(self).ast@,
                old(self).resolution.uses@,
                old(self).resolution.binders@,
                expr.0 as int,
                old(self).model(),
            ) {
                Ok(m) => res is Ok && final(self).model() == m,
                Err(e) => res == Err::<(), EmitError>(e),
            },
        decreases expr.0, 1int, 0int,
    {
        proof {
            assert(crate::ast::children_before(self.ast@[expr.0 as int].expr, expr.0 as int));
        }
        let (lhs, op, rhs) = match self.ast.expr(expr) {
            Expr::Bin(lhs, op, rhs) => (lhs, op, rhs),
            _ => {
                return Err(EmitError::Unsupported);
            },
        };
        self.emit_expr(lhs)?;
        let ghost c1 = self.code@;
        self.emit_expr(rhs)?;
        let op = if op == Token::Plus {
            BinOp::AddInt
        } else if op == Token::Minus {
            BinOp::SubInt
        } else if op == Token::Star {
            BinOp::MulInt
        } else if op == Token::Slash {
            BinOp::DivInt
        } else if op == Token::EqEq {
            BinOp::EqInt
        } else if op == Token::Gt {
            BinOp::GtInt
        } else if op == Token::GtEq {
            BinOp::GeInt
        } else if op == Token::Lt {
            BinOp::LtInt
        } else if op == Token::LtEq {
            BinOp::LeInt
        } else {
            return Err(EmitError::Unsupported);
        };
        let ghost c2 = self.code@;
        self.code.push(Op::Bin(op));
        proof {
            assert forall|k: int| 0 <= k < old(self).code@.len() implies #[trigger] self.code@[k]
                == old(self).code@[k] by {
                assert(c2[k] == c1[k]);
            }
        }
        Ok(())
    }

    fn cond_ops(&mut self, expr: ExprId) -> (res: Result<(), EmitError>)
        requires
            old(self).ast.wf(),
            expr.0 < old(self).ast@.len(),
            old(self).ast@[expr.0 as int].expr is Cond,
        ensures
            final(self).same_input(old(self)),
            res is Ok ==> final(self).parents@ == old(self).parents@,
            res is Ok ==> is_ops_prefix(old(self).code@, final(self).code@),
            match op_expr(
                old(self).ast@,
                old(self).resolution.uses@,
                old(self).resolution.binders@,
                expr.0 as int,
                old(self).model(),
            ) {
                Ok(m) => res is Ok && final(self).model() == m,
                Err(e) => res == Err::<(), EmitError>(e),
            },
        decreases expr.0, 1int, 0int,
    {
        proof {
            assert(crate::ast::children_before(self.ast@[expr.0 as int].expr, expr.0 as int));
        }
        let (cond, then_branch, else_branch) = match self.ast.expr(expr) {
            Expr::Cond { cond, then_branch, else_branch } => (cond, then_branch, else_branch),
            _ => {
                return Err(EmitError::Unsupported);
            },
        };
        self.emit_expr(cond)?;
        let ghost c1 = self.code@;
        let then_jump = self.code.len();
        self.code.push(Op::JmpIfFalse(u16::MAX));
        let ghost c2 = self.code@;
        self.emit_expr(then_branch)?;
        let ghost c3 = self.code@;
        let else_jump = self.code.len();
        self.code.push(Op::Jmp(u16::MAX));
        let target = self.code.len() as u16;
        self.code.set(then_jump, Op::JmpIfFalse(target));
        let ghost c4 = self.code@;
        self.emit_expr(else_branch)?;
        let ghost c5 = self.code@;
        let target = self.code.len() as u16;
        self.code.set(else_jump, Op::Jmp(target));
        proof {
            assert forall|k: int| 0 <= k < old(self).code@.len() implies #[trigger] self.code@[k]
                == old(self).code@[k] by {
                assert(c5[k] == c4[k]);
                assert(c3[k] == c2[k]);
                assert(c2[k] == c1[k]);
            }
        }
        Ok(())
    }

    fn abs_ops(&mut self, expr: ExprId) -> (res: Result<(), EmitError>)
        requires
            old(self).ast.wf(),
            expr.0 < old(self).ast@.len(),
            old(self).ast@[expr.0 as int].expr is Abs,
        ensures
            final(self).same_input(old(self)),
            res is Ok ==> final(self).parents@ == old(self).parents@,
            res is Ok ==> is_ops_prefix(old(self).code@, final(self).code@),
            match op_expr(
                old(self).ast@,
                old(self).resolution.uses@,
                old(self).resolution.binders@,
                expr.0 as int,
                old(self).model(),
            ) {
                Ok(m) => res is Ok && final(self).model() == m,
                Err(e) => res == Err::<(), EmitError>(e),
            },
        decreases expr.0, 1int, 0int,
    {
        let (params, body) = match collect_params(self.ast, &self.resolution.binders, expr) {
            Ok(p) => p,
            Err(e) => {
                return Err(e);
            },
        };
        let ghost m0 = self.model();
        self.child();
        let ghost mc = self.model();
        proof {
            assert(mc.code =~= Seq::<Op>::empty());
            assert(mc.env =~= (ScopeModel { locals: Seq::empty(), captures: Seq::empty() }));
            assert(mc.parents =~= m0.parents.push((m0.code, m0.env, m0.local_count)));
        }
        let mut k: usize = 0;
        while k < params.len()
            invariant
                self.ast.wf(),
                self.same_input(old(self)),
                k <= params@.len(),
                body.0 < self.ast@.len(),
                op_bind_params(mc, params@, k as int) == Ok::<OpModel, EmitError>(self.model()),
                old(self).ast@[expr.0 as int].expr is Abs,
                expr.0 < old(self).ast@.len(),
                body.0 < expr.0,
                abs_params(old(self).ast@, old(self).resolution.binders@, expr.0 as int) == Ok::<
                    (Seq<Local>, int),
                    EmitError,
                >((params@, body.0 as int)),
                mc.code == Seq::<Op>::empty(),
                mc.env == (ScopeModel { locals: Seq::empty(), captures: Seq::empty() }),
                mc.local_count == 0,
                mc.parents == m0.parents.push((m0.code, m0.env, m0.local_count)),
                m0 == old(self).model(),
            decreases params@.len() - k,
        {
            let slot = match self.fresh_local() {
                Ok(s) => s,
                Err(e) => {
                    proof {
                        lemma_op_bind_params_err(mc, params@, k as int + 1, params@.len() as int);
                    }
                    return Err(e);
                },
            };
            self.env.locals.push((params[k], slot));
            k = k + 1;
        }
        self.emit(body, params.len() as u8)?;
        Err(EmitError::Unsupported)
    }

    fn app_ops(&mut self, expr: ExprId) -> (res: Result<(), EmitError>)
        requires
            old(self).ast.wf(),
            expr.0 < old(self).ast@.len(),
            old(self).ast@[expr.0 as int].expr is App,
        ensures
            final(self).same_input(old(self)),
            res is Ok ==> final(self).parents@ == old(self).parents@,
            res is Ok ==> is_ops_prefix(old(self).code@, final(self).code@),
            match op_expr(
                old(self).ast@,
                old(self).resolution.uses@,
                old(self).resolution.binders@,
                expr.0 as int,
                old(self).model(),
            ) {
                Ok(m) => res is Ok && final(self).model() == m,
                Err(e) => res == Err::<(), EmitError>(e),
            },
        decreases expr.0, 1int, 0int,
    {
        let ghost nodes = self.ast@;
        let ghost uses = self.resolution.uses@;
        let ghost binders = self.resolution.binders@;
        let (args, callee) = collect_args(self.ast, expr);
        self.emit_expr(callee)?;
        let ghost m1 = self.model();
        let ghost c1 = self.code@;
        let mut j = args.len();
        while j > 0
            invariant
                self.ast.wf(),
                self.same_input(old(self)),
                self.parents@ == old(self).parents@,
                nodes == self.ast@,
                uses == self.resolution.uses@,
                binders == self.resolution.binders@,
                j <= args@.len(),
                forall|i: int| 0 <= i < args@.len() ==> (#[trigger] args@[i]).0 < expr.0,
                expr.0 < nodes.len(),
                op_args(nodes, uses, binders, expr.0 as int, args@, args@.len() as int, m1) == op_args(
                    nodes,
                    uses,
                    binders,
                    expr.0 as int,
                    args@,
                    j as int,
                    self.model(),
                ),
                is_ops_prefix(c1, self.code@),
                is_ops_prefix(old(self).code@, c1),
                old(self).ast@[expr.0 as int].expr is App,
                app_spine(nodes, expr.0 as int) == (args@, callee.0 as int),
                callee.0 < expr.0,
                op_expr(nodes, uses, binders, callee.0 as int, old(self).model()) == Ok::<OpModel, EmitError>(m1),
                nodes == old(self).ast@,
                uses == old(self).resolution.uses@,
                binders == old(self).resolution.binders@,
            decreases j,
        {
            let ghost cj = self.code@;
            self.emit_expr(args[j - 1])?;
            proof {
                assert forall|k: int| 0 <= k < c1.len() implies #[trigger] self.code@[k] == c1[k] by {
                    assert(cj[k] == c1[k]);
                }
            }
            j = j - 1;
        }
        let ghost c2 = self.code@;
        self.code.push(Op::Call(args.len() as u8));
        proof {
            assert forall|k: int| 0 <= k < old(self).code@.len() implies #[trigger] self.code@[k]
                == old(self).code@[k] by {
                assert(c2[k] == c1[k]);
            }
        }
        Ok(())
    }
}

/// The function that the innermost call of `m` runs and where it is in that
/// function's code.
pub open spec fn running_at(m: Machine) -> Option<(usize, usize)> {
    if m.frames.len() == 0 {
        None
    } else if m.frames.last().closure < m.closures.len() {
        Some((m.closures[m.frames.last().closure as int].0, m.frames.last().ip))
    } else {
        None
    }
}

/// The bytecode machine: a value stack, the active calls, the compiled
/// functions and the closures made so far.
pub struct VM {
    pub stack: Vec<Value>,
    pub frames: Vec<CallFrame>,
    pub funs: Vec<Fun>,
    pub closures: Vec<Closure>,
}

impl VM {
    /// The compiled functions.
    pub open spec fn funs(&self) -> Seq<Fun> {
        self.funs@
    }

    /// The mutable state, as values: the stack, the calls, and each closure's
    /// function and captured values.
    pub open spec fn machine(&self) -> Machine {
        Machine {
            stack: self.stack@,
            frames: self.frames@,
            closures: Seq::new(self.closures@.len(), |i: int| (self.closures@[i].fun, self.closures@[i].captures@)),
        }
    }

    pub fn new() -> (res: VM)
        ensures
            res.machine().stack.len() == 0,
            res.machine().frames.len() == 0,
            res.machine().closures.len() == 0,
            res.funs().len() == 0,
    {
        VM { stack: Vec::new(), frames: Vec::new(), funs: Vec::new(), closures: Vec::new() }
    }

    /// The value stack, bottom first.
    pub fn stack(&self) -> (res: &Vec<Value>)
        ensures
            res@ == self.machine().stack,
    {
        &self.stack
    }

    /// The function the running call executes and its instruction pointer,
    /// or `None` when no call runs or its closure does not exist.
    pub fn position(&self) -> (res: Option<(usize, usize)>)
        ensures
            res == running_at(self.machine()),
    {
        if self.frames.len() == 0 {
            return None;
        }
        let f = self.frames[self.frames.len() - 1];
        if f.closure >= self.closures.len() {
            return None;
        }
        Some((self.closures[f.closure].fun, f.ip))
    }

    /// Starts a call of closure `clo` whose `argc` arguments are on top of
    /// the stack.
    pub fn call(&mut self, clo: usize, argc: u8)
        requires
            clo < old(self).machine().closures.len(),
            argc <= old(self).machine().stack.len(),
        ensures
            final(self).machine().stack == old(self).machine().stack,
            final(self).machine().closures == old(self).machine().closures,
            final(self).machine().frames == old(self).machine().frames.push(
                CallFrame { closure: clo, ip: 0, base: (old(self).machine().stack.len() - argc) as usize },
            ),
            final(self).funs() == old(self).funs(),
    {
        let frame = CallFrame { closure: clo, ip: 0, base: self.stack.len() - argc as usize };
        self.frames.push(frame);
    }

    fn set_ip(&mut self, ip: usize)
        requires
            old(self).frames@.len() > 0,
        ensures
            final(self).frames@ == goto(old(self).frames@, ip as int),
            final(self).stack == old(self).stack,
            final(self).funs == old(self).funs,
            final(self).closures == old(self).closures,
    {
        let last = self.frames.len() - 1;
        let f = self.frames[last];
        self.frames.set(last, CallFrame { ip, ..f });
    }

    /// Reads the values that a closure captures, as `read_captures` says.
    fn read_captures(&self, fi: usize, ci: usize, ip: usize, n: usize, base: usize) -> (res: Result<Vec<Value>, Fault>)
        requires
            fi < self.funs@.len(),
            ci < self.closures@.len(),
            ip + 1 < self.funs@[fi as int].code@.len(),
        ensures
            match read_captures(
                self.funs@[fi as int].code@,
                ip as int,
                0,
                n as int,
                self.stack@,
                base as int,
                self.closures@[ci as int].captures@,
            ) {
                Ok(vs) => res matches Ok(v) && v@ == vs,
                Err(e) => res == Err::<Vec<Value>, Fault>(e),
            },
    {
        let code = &self.funs[fi].code;
        let caps = &self.closures[ci].captures;
        let clen = code.len();
        let ghost spec_of = |k: int|
            read_captures(code@, ip as int, k, n as int, self.stack@, base as int, caps@);
        let mut values: Vec<Value> = Vec::new();
        let mut k: usize = 0;
        let mut pos: usize = ip + 2;
        while k < n
            invariant
                k <= n,
                pos == ip + 2 + 2 * k,
                pos <= code@.len(),
                code == &self.funs@[fi as int].code,
                caps == &self.closures@[ci as int].captures,
                spec_of == (|k: int| read_captures(code@, ip as int, k, n as int, self.stack@, base as int, caps@)),
                spec_of(0) == match spec_of(k as int) {
                    Ok(rest) => Ok(values@ + rest),
                    Err(e) => Err(e),
                },
            decreases n - k,
        {
            if code.len() - pos < 2 {
                proof {
                    assert(ip + 3 + 2 * k >= code@.len());
                }
                return Err(Fault::PastEnd);
            }
            let is_local = code[pos] != 0;
            let index = code[pos + 1] as usize;
            let v = if is_local {
                if base >= self.stack.len() || index >= self.stack.len() - base {
                    return Err(Fault::BadSlot);
                }
                self.stack[base + index]
            } else {
                if index >= caps.len() {
                    return Err(Fault::BadSlot);
                }
                caps[index]
            };
            proof {
                assert(values@ + (seq![v] + match spec_of(k + 1) {
                    Ok(rest) => rest,
                    Err(_) => Seq::empty(),
                }) =~= values@.push(v) + match spec_of(k + 1) {
                    Ok(rest) => rest,
                    Err(_) => Seq::empty(),
                });
            }
            values.push(v);
            k = k + 1;
            pos = pos + 2;
        }
        proof {
            assert(values@ + Seq::<Value>::empty() =~= values@);
        }
        Ok(values)
    }

    /// Runs one instruction of the running call.
    pub fn step(&mut self) -> (res: Result<Event, Fault>)
        ensures
            final(self).funs() == old(self).funs(),
            match transition(old(self).funs(), old(self).machine()) {
                Ok((m, e)) => res == Ok::<Event, Fault>(e) && final(self).machine() == m,
                Err(f) => res == Err::<Event, Fault>(f),
            },
    {
        let ghost m0 = self.machine();
        if self.frames.len() == 0 {
            return Err(Fault::NoFrame);
        }
        let f = self.frames[self.frames.len() - 1];
        let ci = f.closure;
        if ci >= self.closures.len() {
            return Err(Fault::BadClosure);
        }
        let fi = self.closures[ci].fun;
        if fi >= self.funs.len() {
            return Err(Fault::BadClosure);
        }
        let ip = f.ip;
        let base = f.base;
        let len = self.funs[fi].code.len();
        if ip >= len {
            return Err(Fault::PastEnd);
        }
        let op = self.funs[fi].code[ip];
        proof {
            assert(m0.closures[ci as int] == (self.closures@[ci as int].fun, self.closures@[ci as int].captures@));
        }
        if op == CONST {
            if ip + 1 >= len {
                return Err(Fault::PastEnd);
            }
            let index = self.funs[fi].code[ip + 1] as usize;
            if index >= self.funs[fi].consts.len() {
                return Err(Fault::BadConst);
            }
            let v = self.funs[fi].consts[index];
            self.stack.push(v);
            self.set_ip(ip + 2);
            proof { self.lemma_same_closures(m0); }
            Ok(Event::Continue)
        } else if op == TRUE {
            self.stack.push(Value::Bool(true));
            self.set_ip(ip + 1);
            proof { self.lemma_same_closures(m0); }
            Ok(Event::Continue)
        } else if op == FALSE {
            self.stack.push(Value::Bool(false));
            self.set_ip(ip + 1);
            proof { self.lemma_same_closures(m0); }
            Ok(Event::Continue)
        } else if op == LOAD_LOCAL {
            if ip + 1 >= len {
                return Err(Fault::PastEnd);
            }
            let slot = self.funs[fi].code[ip + 1] as usize;
            if base >= self.stack.len() || slot >= self.stack.len() - base {
                return Err(Fault::BadSlot);
            }
            let v = self.stack[base + slot];
            self.stack.push(v);
            self.set_ip(ip + 2);
            proof { self.lemma_same_closures(m0); }
            Ok(Event::Continue)
        } else if op == LOAD_CAPTURE {
            if ip + 1 >= len {
                return Err(Fault::PastEnd);
            }
            let slot = self.funs[fi].code[ip + 1] as usize;
            if slot >= self.closures[ci].captures.len() {
                return Err(Fault::BadSlot);
            }
            let v = self.closures[ci].captures[slot];
            self.stack.push(v);
            self.set_ip(ip + 2);
            proof { self.lemma_same_closures(m0); }
            Ok(Event::Continue)
        } else if op == JMP || op == JMP_FALSE {
            if len - ip <= 2 {
                return Err(Fault::PastEnd);
            }
            let hi = self.funs[fi].code[ip + 1] as usize;
            let lo = self.funs[fi].code[ip + 2] as usize;
            let offset = hi * 256 + lo;
            let jump = if op == JMP {
                true
            } else {
                match self.stack.pop() {
                    None => {
                        return Err(Fault::StackUnderflow);
                    },
                    Some(Value::Bool(b)) => !b,
                    Some(v) => {
                        return Err(Fault::NotBool(v));
                    },
                }
            };
            if jump {
                if offset > usize::MAX - 3 - ip {
                    return Err(Fault::PastEnd);
                }
                self.set_ip(ip + 3 + offset);
            } else {
                self.set_ip(ip + 3);
            }
            proof { self.lemma_same_closures(m0); }
            Ok(Event::Continue)
        } else if op == CLOSURE {
            if ip + 1 >= len {
                return Err(Fault::PastEnd);
            }
            let index = self.funs[fi].code[ip + 1] as usize;
            if index >= self.funs[fi].consts.len() {
                return Err(Fault::BadConst);
            }
            let fv = self.funs[fi].consts[index];
            let target = match fv {
                Value::Closure(t) => t,
                _ => {
                    return Err(Fault::NotClosure(fv));
                },
            };
            if target >= self.funs.len() {
                return Err(Fault::BadClosure);
            }
            let n = self.funs[target].captures.len();
            let captures = match self.read_captures(fi, ci, ip, n, base) {
                Ok(values) => values,
                Err(e) => {
                    return Err(e);
                },
            };
            proof {
                lemma_read_captures_len(self.funs@[fi as int].code@, ip as int, 0, n as int, self.stack@, base as int, self.closures@[ci as int].captures@);
            }
            let clo = self.closures.len();
            let ghost cl0 = self.closures@;
            self.closures.push(Closure { fun: target, captures });
            self.stack.push(Value::Closure(clo));
            self.set_ip(ip + 2 + 2 * n);
            proof {
                assert(self.machine().closures =~= m0.closures.push((target, captures@))) by {
                    assert forall|i: int| 0 <= i < cl0.len() implies self.closures@[i] == cl0[i] by {}
                }
            }
            Ok(Event::Continue)
        } else if op == CALL {
            if ip + 1 >= len {
                return Err(Fault::PastEnd);
            }
            let argc = self.funs[fi].code[ip + 1];
            if self.stack.len() <= argc as usize {
                return Err(Fault::StackUnderflow);
            }
            let callee = self.stack[self.stack.len() - 1 - argc as usize];
            let clo = match callee {
                Value::Closure(c) => c,
                _ => {
                    return Err(Fault::NotClosure(callee));
                },
            };
            if clo >= self.closures.len() {
                return Err(Fault::BadClosure);
            }
            self.set_ip(ip + 2);
            self.call(clo, argc);
            proof { self.lemma_same_closures(m0); }
            Ok(Event::Continue)
        } else if op == RET {
            let value = match self.stack.pop() {
                Some(v) => v,
                None => {
                    return Err(Fault::StackUnderflow);
                },
            };
            self.frames.pop();
            if self.frames.len() == 0 {
                proof { self.lemma_same_closures(m0); }
                return Ok(Event::Halt(value));
            }
            if base == 0 {
                return Err(Fault::StackUnderflow);
            }
            let ghost rest = self.stack@;
            self.stack.truncate(base - 1);
            proof {
                if base - 1 == rest.len() {
                    assert(rest.subrange(0, base - 1) =~= rest);
                }
            }
            self.stack.push(value);
            proof { self.lemma_same_closures(m0); }
            Ok(Event::Return(value))
        } else if ADD_INT <= op && op <= LE_INT {
            let r = match self.stack.pop() {
                None => {
                    return Err(Fault::StackUnderflow);
                },
                Some(Value::Int(r)) => r,
                Some(v) => {
                    return Err(Fault::NotInt(v));
                },
            };
            let l = match self.stack.pop() {
                None => {
                    return Err(Fault::StackUnderflow);
                },
                Some(Value::Int(l)) => l,
                Some(v) => {
                    return Err(Fault::NotInt(v));
                },
            };
            let v = if op == ADD_INT {
                match l.checked_add(r) {
                    Some(x) => Value::Int(x),
                    None => {
                        return Err(Fault::Arithmetic);
                    },
                }
            } else if op == SUB_INT {
                match l.checked_sub(r) {
                    Some(x) => Value::Int(x),
                    None => {
                        return Err(Fault::Arithmetic);
                    },
                }
            } else if op == MUL_INT {
                match l.checked_mul(r) {
                    Some(x) => Value::Int(x),
                    None => {
                        return Err(Fault::Arithmetic);
                    },
                }
            } else if op == DIV_INT {
                match l.checked_div(r) {
                    Some(x) => Value::Int(x),
                    None => {
                        return Err(Fault::Arithmetic);
                    },
                }
            } else if op == EQ_INT {
                Value::Bool(l == r)
            } else if op == GT_INT {
                Value::Bool(l > r)
            } else if op == GE_INT {
                Value::Bool(l >= r)
            } else if op == LT_INT {
                Value::Bool(l < r)
            } else {
                Value::Bool(l <= r)
            };
            self.stack.push(v);
            self.set_ip(ip + 1);
            proof { self.lemma_same_closures(m0); }
            Ok(Event::Continue)
        } else if op == EQ_BOOL {
            let r = match self.stack.pop() {
                None => {
                    return Err(Fault::StackUnderflow);
                },
                Some(Value::Bool(r)) => r,
                Some(v) => {
                    return Err(Fault::NotBool(v));
                },
            };
            let l = match self.stack.pop() {
                None => {
                    return Err(Fault::StackUnderflow);
                },
                Some(Value::Bool(l)) => l,
                Some(v) => {
                    return Err(Fault::NotBool(v));
                },
            };
            self.stack.push(Value::Bool(l == r));
            self.set_ip(ip + 1);
            proof { self.lemma_same_closures(m0); }
            Ok(Event::Continue)
        } else {
            Err(Fault::BadOpcode(op))
        }
    }

    proof fn lemma_same_closures(&self, m0: Machine)
        requires
            m0.closures == Seq::new(self.closures@.len(), |i: int| (self.closures@[i].fun, self.closures@[i].captures@)),
        ensures
            self.machine().closures == m0.closures,
    {
    }
}

} // verus!
