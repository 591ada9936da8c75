use vstd::prelude::*;

pub mod ast;
pub mod codegen;
pub mod compiler;
pub mod lexer;
pub mod parser;
pub mod vm;

verus! {

} // verus!
