use lc::interner::Interner;
use lc::ir::{BinOp, Instr, LowerError, Lowerer, Terminator, Value};
use lc::parser;
use lc::resolver;
use lc::vm::{self, Event, Fault, Op, VM};

fn lower_and_run(source: &str) -> (Vec<Op>, Result<vm::Value, Fault>) {
    let mut interner = Interner::with_capacity(64);
    let (ast, expr) = parser::parse(source, &mut interner).unwrap().unwrap();
    let resolution = resolver::resolve(&ast, expr, &interner).unwrap();
    let types = ast.table(None);
    let mut lowerer = Lowerer::new(&ast, &resolution, &types);
    lowerer.lower(expr).unwrap();
    let functions = vm::emit(&lowerer.program).unwrap();
    let code = functions[0].code.clone();
    let mut machine = VM::new(functions);
    machine.call(0, 0).unwrap();
    for _ in 0..10_000 {
        match machine.step() {
            Ok(Event::Halt(v)) => return (code, Ok(v)),
            Ok(_) => {}
            Err(f) => return (code, Err(f)),
        }
    }
    panic!("did not halt");
}

#[test]
fn lowers_let_and_arithmetic() {
    let mut interner = Interner::with_capacity(64);
    let (ast, expr) = parser::parse("let x = 1 in x + 2", &mut interner).unwrap().unwrap();
    let resolution = resolver::resolve(&ast, expr, &interner).unwrap();
    let types = ast.table(None);
    let mut lowerer = Lowerer::new(&ast, &resolution, &types);
    lowerer.lower(expr).unwrap();
    let fun = &lowerer.program.funs[0];
    assert_eq!(fun.locals, 1);
    assert_eq!(fun.temps, 1);
    assert_eq!(fun.blocks.len(), 1);
    let block = &fun.blocks[0];
    assert!(matches!(block.instrs[0], Instr::StoreLocal { dst: 0, src: Value::Int(1) }));
    assert!(matches!(
        block.instrs[1],
        Instr::BinOp { dst: 0, op: BinOp::AddInt, lhs: Value::Local(0), rhs: Value::Int(2) }
    ));
    assert_eq!(block.term, Terminator::Return(Value::Temp(0)));
}

#[test]
fn lowers_conditional_into_blocks() {
    let mut interner = Interner::with_capacity(64);
    let (ast, expr) = parser::parse("if true then 1 else 2", &mut interner).unwrap().unwrap();
    let resolution = resolver::resolve(&ast, expr, &interner).unwrap();
    let types = ast.table(None);
    let mut lowerer = Lowerer::new(&ast, &resolution, &types);
    lowerer.lower(expr).unwrap();
    let fun = &lowerer.program.funs[0];
    assert_eq!(fun.blocks.len(), 4);
    assert_eq!(
        fun.blocks[0].term,
        Terminator::Branch { cond: Value::Bool(true), then_block: 1, else_block: 2 }
    );
    assert_eq!(fun.blocks[1].term, Terminator::Jump(3));
    assert_eq!(fun.blocks[2].term, Terminator::Jump(3));
    assert_eq!(fun.blocks[3].term, Terminator::Return(Value::Local(0)));
    for (i, block) in fun.blocks.iter().enumerate() {
        assert_eq!(block.id as usize, i);
    }
    assert!(fun.blocks[0].instrs.is_empty() && fun.blocks[3].instrs.is_empty());
    assert!(matches!(fun.blocks[1].instrs[0], Instr::StoreLocal { dst: 0, src: Value::Int(1) }));
    assert!(matches!(fun.blocks[2].instrs[0], Instr::StoreLocal { dst: 0, src: Value::Int(2) }));
    assert_eq!((fun.locals, fun.temps), (1, 0));
}

#[test]
fn lowering_refuses_functions() {
    let mut interner = Interner::with_capacity(64);
    let (ast, expr) = parser::parse("\\x.x", &mut interner).unwrap().unwrap();
    let resolution = resolver::resolve(&ast, expr, &interner).unwrap();
    let types = ast.table(None);
    let mut lowerer = Lowerer::new(&ast, &resolution, &types);
    assert_eq!(lowerer.lower(expr), Err(LowerError::Unsupported));
}

#[test]
fn emits_and_runs_let() {
    let (code, result) = lower_and_run("let x = 1 in x + 2");
    assert_eq!(
        code,
        vec![
            Op::ConstInt(1),
            Op::StoreLocal(0),
            Op::LoadLocal(0),
            Op::ConstInt(2),
            Op::Bin(BinOp::AddInt),
            Op::Return
        ]
    );
    assert_eq!(result, Ok(vm::Value::Int(3)));
}

#[test]
fn emits_and_runs_conditional() {
    let (code, result) = lower_and_run("if true then 1 else 2");
    assert_eq!(
        code,
        vec![
            Op::ConstBool(true),
            Op::JumpIfFalse(5),
            Op::ConstInt(1),
            Op::StoreLocal(0),
            Op::Jump(8),
            Op::ConstInt(2),
            Op::StoreLocal(0),
            Op::Jump(8),
            Op::LoadLocal(0),
            Op::Return
        ]
    );
    assert_eq!(result, Ok(vm::Value::Int(1)));
    assert_eq!(lower_and_run("if false then 1 else 2").1, Ok(vm::Value::Int(2)));
}

#[test]
fn machine_faults_on_overflow() {
    assert_eq!(lower_and_run("2147483647 + 1").1, Err(Fault::Arithmetic));
}

#[test]
fn machine_stack_operations() {
    let mut machine = VM::new(vec![]);
    assert_eq!(machine.pop(), Err(Fault::StackUnderflow));
    machine.push(vm::Value::Int(6));
    machine.push(vm::Value::Int(3));
    assert_eq!(machine.exec_bin(BinOp::DivInt), Ok(()));
    assert_eq!(machine.pop(), Ok(vm::Value::Int(2)));
    machine.push(vm::Value::Bool(true));
    machine.push(vm::Value::Bool(true));
    assert_eq!(machine.pop_bool2(), Ok((true, true)));
    machine.push(vm::Value::Int(1));
    machine.push(vm::Value::Bool(true));
    assert_eq!(machine.pop_int2(), Err(Fault::NotInt(vm::Value::Bool(true))));
    assert_eq!(machine.call(0, 0), Err(Fault::BadFunction));
    assert_eq!(vm::Value::Int(7).as_int(), 7);
    assert!(vm::Value::Bool(true).as_bool());
}

#[test]
fn straight_line_code_stays_in_one_block() {
    let mut interner = Interner::with_capacity(64);
    let (ast, expr) = parser::parse("let a = 1 in let b = a * 3 in b - a / 1", &mut interner)
        .unwrap()
        .unwrap();
    let resolution = resolver::resolve(&ast, expr, &interner).unwrap();
    let types = ast.table(None);
    let mut lowerer = Lowerer::new(&ast, &resolution, &types);
    lowerer.lower(expr).unwrap();
    let fun = &lowerer.program.funs[0];
    assert_eq!(fun.blocks.len(), 1);
    assert_eq!(fun.blocks[0].instrs.len(), 5);
    assert!(matches!(fun.blocks[0].term, Terminator::Return(Value::Temp(_))));
}

fn value_in_range(v: &Value, locals: u32, temps: u32) -> bool {
    match v {
        Value::Temp(t) => *t < temps,
        Value::Local(l) => *l < locals,
        Value::Int(_) | Value::Bool(_) | Value::Unit => true,
        _ => false,
    }
}

#[test]
fn lowered_blocks_are_closed_and_slots_in_range() {
    let mut interner = Interner::with_capacity(64);
    let source = "let a = 2 in if true then (if false then a + 1 else a * 3) else let b = a - 1 in b / 2";
    let (ast, expr) = parser::parse(source, &mut interner).unwrap().unwrap();
    let resolution = resolver::resolve(&ast, expr, &interner).unwrap();
    let types = ast.table(None);
    let mut lowerer = Lowerer::new(&ast, &resolution, &types);
    lowerer.lower(expr).unwrap();
    let fun = &lowerer.program.funs[0];
    let n = fun.blocks.len() as u32;
    assert_eq!(n, 7);
    for (j, block) in fun.blocks.iter().enumerate() {
        assert_eq!(block.id as usize, j);
        match &block.term {
            Terminator::Unset => panic!("block {j} is not ended"),
            Terminator::Jump(b) => assert!(*b < n),
            Terminator::Branch { cond, then_block, else_block } => {
                assert!(*then_block < n && *else_block < n);
                assert!(value_in_range(cond, fun.locals, fun.temps));
            }
            Terminator::Return(v) => assert!(value_in_range(v, fun.locals, fun.temps)),
        }
        for instr in &block.instrs {
            match instr {
                Instr::StoreLocal { dst, src } => {
                    assert!(*dst < fun.locals && value_in_range(src, fun.locals, fun.temps))
                }
                Instr::BinOp { dst, lhs, rhs, .. } => {
                    assert!(*dst < fun.temps);
                    assert!(value_in_range(lhs, fun.locals, fun.temps));
                    assert!(value_in_range(rhs, fun.locals, fun.temps));
                }
                other => panic!("unexpected instruction {other:?}"),
            }
        }
    }
}
