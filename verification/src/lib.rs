pub mod arena;
pub mod ast;
pub mod diagnostic;
pub mod interner;
pub mod lexer;
pub mod parser;
pub mod text;
pub mod resolver;
pub mod types;
pub mod solve;
pub mod checker;
pub mod opcode;
pub mod bytecode;
pub mod source;
pub mod ir;
pub mod vm;
