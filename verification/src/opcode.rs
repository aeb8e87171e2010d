use vstd::prelude::*;

verus! {

pub const CONST: u8 = 1;
pub const TRUE: u8 = 2;
pub const FALSE: u8 = 3;

pub const LOAD_LOCAL: u8 = 4;
pub const LOAD_CAPTURE: u8 = 5;

pub const ADD_INT: u8 = 6;
pub const SUB_INT: u8 = 7;
pub const MUL_INT: u8 = 8;
pub const DIV_INT: u8 = 9;

pub const EQ_INT: u8 = 10;
pub const GT_INT: u8 = 11;
pub const GE_INT: u8 = 12;
pub const LT_INT: u8 = 13;
pub const LE_INT: u8 = 14;

pub const EQ_BOOL: u8 = 15;

pub const JMP: u8 = 16;
pub const JMP_FALSE: u8 = 17;

pub const CLOSURE: u8 = 18;
pub const CALL: u8 = 19;
pub const RET: u8 = 20;

/// A byte that names an instruction.
pub open spec fn is_opcode(op: u8) -> bool {
    1 <= op <= 20
}

/// The name of an instruction.
pub open spec fn name_of(op: u8) -> Seq<char> {
    if op == CONST {
        "CONST"@
    } else if op == TRUE {
        "TRUE"@
    } else if op == FALSE {
        "FALSE"@
    } else if op == LOAD_LOCAL {
        "LOAD_LOCAL"@
    } else if op == LOAD_CAPTURE {
        "LOAD_CAPTURE"@
    } else if op == ADD_INT {
        "ADD_INT"@
    } else if op == SUB_INT {
        "SUB_INT"@
    } else if op == MUL_INT {
        "MUL_INT"@
    } else if op == DIV_INT {
        "DIV_INT"@
    } else if op == EQ_INT {
        "EQ_INT"@
    } else if op == GT_INT {
        "GT_INT"@
    } else if op == GE_INT {
        "GE_INT"@
    } else if op == LT_INT {
        "LT_INT"@
    } else if op == LE_INT {
        "LE_INT"@
    } else if op == EQ_BOOL {
        "EQ_BOOL"@
    } else if op == JMP {
        "JMP"@
    } else if op == JMP_FALSE {
        "JMP_FALSE"@
    } else if op == CLOSURE {
        "CLOSURE"@
    } else if op == CALL {
        "CALL"@
    } else {
        "RET"@
    }
}

/// The name of instruction `opcode`.
pub fn as_str(opcode: u8) -> (res: &'static str)
    requires
        is_opcode(opcode),
    ensures
        res@ == name_of(opcode),
{
    match opcode {
        CONST => "CONST",
        TRUE => "TRUE",
        FALSE => "FALSE",
        LOAD_LOCAL => "LOAD_LOCAL",
        LOAD_CAPTURE => "LOAD_CAPTURE",
        ADD_INT => "ADD_INT",
        SUB_INT => "SUB_INT",
        MUL_INT => "MUL_INT",
        DIV_INT => "DIV_INT",
        EQ_INT => "EQ_INT",
        GT_INT => "GT_INT",
        GE_INT => "GE_INT",
        LT_INT => "LT_INT",
        LE_INT => "LE_INT",
        EQ_BOOL => "EQ_BOOL",
        JMP => "JMP",
        JMP_FALSE => "JMP_FALSE",
        CLOSURE => "CLOSURE",
        CALL => "CALL",
        _ => "RET",
    }
}

} // verus!
