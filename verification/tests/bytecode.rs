use lc::ast::Ast;
use lc::bytecode::{
    dump, dump_instruction, BinOp, Builder, Closure, Em, EmitError, Emitter, Event, Fault, Fun,
    Value, VM,
};
use lc::interner::Interner;
use lc::opcode::as_str;
use lc::parser;
use lc::resolver::{self, Resolution};

fn front(source: &str) -> (Ast, lc::ast::ExprId, Resolution) {
    let mut interner = Interner::with_capacity(64);
    let (ast, expr) = parser::parse(source, &mut interner).unwrap().unwrap();
    let resolution = resolver::resolve(&ast, expr, &interner).unwrap();
    (ast, expr, resolution)
}

fn compile(source: &str) -> Result<Vec<Fun>, EmitError> {
    let (ast, expr, resolution) = front(source);
    let types = ast.table(None);
    let mut em = Em::new(&ast, &resolution, &types);
    let fun = em.emit_fun(expr, 0)?;
    assert_eq!(fun, em.cx.funs.len() - 1);
    Ok(em.cx.funs)
}

fn run(funs: Vec<Fun>) -> Result<Value, Fault> {
    let entry = funs.len() - 1;
    let mut vm = VM::new();
    vm.funs = funs;
    vm.closures.push(Closure { fun: entry, captures: vec![] });
    vm.call(0, 0);
    for _ in 0..10_000 {
        match vm.step()? {
            Event::Halt(v) => return Ok(v),
            _ => {}
        }
    }
    panic!("did not halt");
}

#[test]
fn builder_writes_instruction_bytes() {
    let mut bb = Builder::new();
    bb.const_bool(true);
    bb.load_local(3);
    bb.load_capture(1);
    bb.bin(BinOp::AddInt);
    bb.jmp();
    bb.jmp_if_false();
    bb.call(2);
    bb.ret();
    bb.write_u16(0x1234);
    let (code, consts) = bb.finish();
    assert_eq!(code, vec![2, 4, 3, 5, 1, 6, 16, 255, 255, 17, 19, 2, 20, 0x12, 0x34]);
    assert!(consts.is_empty());
}

#[test]
fn constants_are_stored_once() {
    let mut bb = Builder::new();
    bb.const_int(5);
    bb.const_int(7);
    bb.const_int(5);
    assert_eq!(bb.add_const(Value::Int(7)), 1);
    assert_eq!(bb.add_const(Value::Bool(true)), 2);
    let (code, consts) = bb.finish();
    assert_eq!(code, vec![1, 0, 1, 1, 1, 0]);
    assert_eq!(consts, vec![Value::Int(5), Value::Int(7), Value::Bool(true)]);
}

#[test]
fn opcode_names() {
    assert_eq!(as_str(1), "CONST");
    assert_eq!(as_str(17), "JMP_FALSE");
    assert_eq!(as_str(20), "RET");
}

#[test]
fn dump_lists_instructions() {
    let fun = Fun { code: vec![1, 0, 2, 16, 0, 1, 20], arity: 0, captures: vec![], consts: vec![Value::Int(42)] };
    assert_eq!(dump_instruction(&fun, 0), Some(("0000  CONST      0 '42'".to_string(), 2)));
    assert_eq!(dump_instruction(&fun, 2), Some(("0002  TRUE".to_string(), 1)));
    assert_eq!(dump_instruction(&fun, 3), Some(("0003  JMP        3 -> 7".to_string(), 3)));
    assert_eq!(dump_instruction(&fun, 6), Some(("0006  RET".to_string(), 1)));
    assert_eq!(dump_instruction(&fun, 7), None);
    assert_eq!(dump(&fun).unwrap().len(), 4);
}

#[test]
fn dump_rejects_truncated_code() {
    let fun = Fun { code: vec![4], arity: 0, captures: vec![], consts: vec![] };
    assert_eq!(dump_instruction(&fun, 0), None);
    assert!(dump(&fun).is_none());
    let bad = Fun { code: vec![0], arity: 0, captures: vec![], consts: vec![] };
    assert_eq!(dump_instruction(&bad, 0), None);
}

#[test]
fn emits_arithmetic() {
    let funs = compile("1 + 2").unwrap();
    assert_eq!(funs[0].code, vec![1, 0, 1, 1, 6, 20]);
    assert_eq!(funs[0].consts, vec![Value::Int(1), Value::Int(2)]);
    assert_eq!(run(funs), Ok(Value::Int(3)));
}

#[test]
fn emits_conditional_with_relative_jumps() {
    let funs = compile("if true then 1 else 2").unwrap();
    assert_eq!(funs[0].code, vec![2, 17, 0, 5, 1, 0, 16, 0, 2, 1, 1, 20]);
    assert_eq!(run(funs), Ok(Value::Int(1)));
    let funs = compile("if 1 < 0 then 1 else 2").unwrap();
    assert_eq!(run(funs), Ok(Value::Int(2)));
}

#[test]
fn runs_let_binding() {
    let funs = compile("let x = 5 in x * 2").unwrap();
    assert_eq!(funs[0].code, vec![1, 0, 4, 0, 1, 1, 8, 20]);
    assert_eq!(run(funs), Ok(Value::Int(10)));
}

#[test]
fn runs_curried_call() {
    let funs = compile("let add a b = a + b in add 2 3").unwrap();
    assert_eq!(funs.len(), 2);
    assert_eq!(funs[0].code, vec![4, 0, 4, 1, 6, 20]);
    assert_eq!(funs[0].arity, 2);
    assert_eq!(run(funs), Ok(Value::Int(5)));
}

#[test]
fn division_by_zero_faults() {
    let funs = compile("1 / 0").unwrap();
    assert_eq!(run(funs), Err(Fault::Arithmetic));
}

#[test]
fn unsupported_forms_are_reported() {
    assert_eq!(compile("1 != 2").unwrap_err(), EmitError::Unsupported);
    assert_eq!(compile("let rec f x = x in f").unwrap_err(), EmitError::Unsupported);
}

#[test]
fn machine_without_frames_faults() {
    let mut vm = VM::new();
    assert_eq!(vm.step(), Err(Fault::NoFrame));
}

#[test]
fn values_unwrap() {
    assert_eq!(Value::Int(4).as_int(), 4);
    assert!(Value::Bool(true).as_bool());
    assert_eq!(Value::Closure(3).as_closure(), 3);
    let mut s = String::new();
    Value::Int(-12).push_to(&mut s);
    Value::Bool(false).push_to(&mut s);
    Value::Closure(0).push_to(&mut s);
    assert_eq!(s, "-12false<fn>");
}

#[test]
fn first_emitter_lists_values_and_never_finishes() {
    let (ast, expr, resolution) = front("1 + 2");
    let types = ast.table(None);
    let mut emitter = Emitter::new(&ast, &resolution, &types);
    assert_eq!(emitter.emit(expr, 0), Err(EmitError::Unsupported));
    assert_eq!(
        emitter.code,
        vec![
            lc::bytecode::Op::ConstInt(1),
            lc::bytecode::Op::ConstInt(2),
            lc::bytecode::Op::Bin(BinOp::AddInt),
            lc::bytecode::Op::Ret
        ]
    );
}

#[test]
fn adding_a_constant_twice_changes_nothing() {
    let mut bb = Builder::new();
    let first = bb.add_const(Value::Int(42));
    let len = bb.len();
    let second = bb.add_const(Value::Int(42));
    assert_eq!(first, second);
    assert_eq!(bb.len(), len);
    let (_, consts) = bb.finish();
    assert_eq!(consts, vec![Value::Int(42)]);
}

#[test]
fn lets_in_both_branches_share_slot_numbering() {
    let funs = compile("if false then let a = 1 in a else let b = 2 in b").unwrap();
    assert_eq!(run(funs), Err(Fault::BadSlot));
    let funs = compile("if true then let a = 1 in a else let b = 2 in b").unwrap();
    assert_eq!(run(funs), Ok(Value::Int(1)));
}

#[test]
fn constants_past_a_byte_are_refused() {
    let fits: Vec<String> = (0..256).map(|i| i.to_string()).collect();
    assert!(compile(&fits.join(" + ")).is_ok());
    let repeated: Vec<String> = (0..300).map(|i| (i % 10).to_string()).collect();
    assert!(compile(&repeated.join(" + ")).is_ok());
    let too_many: Vec<String> = (0..257).map(|i| i.to_string()).collect();
    assert_eq!(compile(&too_many.join(" + ")).unwrap_err(), EmitError::TooManyConstants);
}
