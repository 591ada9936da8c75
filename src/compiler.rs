use vstd::prelude::*;

use crate::ast::{Expression, is_arithmetic_operator, same_tree, yield_of};
use crate::lexer::{TokenKind, error_free, tokens_of};
use crate::parser::{Parser, whole};
use crate::vm::bytecode::{Chunk, Opcode};
use crate::vm::{Error, Value, combine, run};

verus! {

/// The expressions the bytecode backend can run: number literals, `-`
/// in prefix position, the four arithmetic operators and grouping.
pub open spec fn supported(e: Expression) -> bool
    decreases e,
{
    match e {
        Expression::Number(_) => true,
        Expression::Grouping(x) => supported(*x),
        Expression::Unary(op, x) => op == TokenKind::Minus && supported(*x),
        Expression::Binary(l, op, r) => is_arithmetic_operator(op) && supported(*l) && supported(
            *r,
        ),
        _ => false,
    }
}

/// The instruction for an arithmetic operator.
pub open spec fn opcode_for(op: TokenKind) -> Opcode {
    if op == TokenKind::Plus {
        Opcode::Add
    } else if op == TokenKind::Minus {
        Opcode::Subtract
    } else if op == TokenKind::Star {
        Opcode::Multiply
    } else {
        Opcode::Divide
    }
}

/// The instructions for an expression, operands before operators.
pub open spec fn code_for(e: Expression) -> Seq<Opcode>
    decreases e,
{
    match e {
        Expression::Number(text) => seq![Opcode::Constant(text)],
        Expression::Grouping(x) => code_for(*x),
        Expression::Unary(_, x) => code_for(*x).push(Opcode::Negate),
        Expression::Binary(l, op, r) => code_for(*l) + code_for(*r) + seq![opcode_for(op)],
        _ => Seq::empty(),
    }
}

/// The value an expression stands for.
pub open spec fn value_of(e: Expression) -> Value
    decreases e,
{
    match e {
        Expression::Number(text) => Value::Number(text),
        Expression::Grouping(x) => value_of(*x),
        Expression::Unary(_, x) => Value::Negate(Box::new(value_of(*x))),
        Expression::Binary(l, op, r) => combine(opcode_for(op), value_of(*l), value_of(*r)),
        _ => arbitrary(),
    }
}

/// Turns the expression of one source text into a chunk.
pub struct Compiler {
    pub parser: Parser,
    pub chunk: Chunk,
}

impl Compiler {
    pub closed spec fn wf(&self) -> bool {
        self.parser.wf()
    }

    pub fn from_source(src: &str) -> (r: Compiler)
        ensures
            r.wf(),
            r.parser.source() == src@,
            r.parser.read() == Seq::<(TokenKind, Seq<char>)>::empty(),
            r.parser.upcoming() == tokens_of(src@),
            r.chunk.code@ == Seq::<Opcode>::empty(),
            r.chunk.constants@ == Seq::<String>::empty(),
    {
        Compiler { parser: Parser::new(src), chunk: Chunk::new() }
    }

    /// Appends the instructions for `e`; fails on what the bytecode backend
    /// cannot run.
    fn emit(chunk: &mut Chunk, e: &Expression) -> (r: Result<(), Error>)
        ensures
            r is Ok <==> supported(*e),
            r is Ok ==> final(chunk).code@ == old(chunk).code@ + code_for(*e),
            r is Err ==> r->Err_0 == Error::CompileError,
        decreases e,
    {
        match e {
            Expression::Number(text) => {
                chunk.write_chunk(Opcode::Constant(text.clone()));
                Ok(())
            },
            Expression::Grouping(x) => Compiler::emit(chunk, x),
            Expression::Unary(op, x) => {
                match op {
                    TokenKind::Minus => {},
                    _ => return Err(Error::CompileError),
                }
                match Compiler::emit(chunk, x) {
                    Ok(()) => {},
                    Err(err) => return Err(err),
                }
                chunk.write_chunk(Opcode::Negate);
                Ok(())
            },
            Expression::Binary(l, op, r) => {
                let instruction = match op {
                    TokenKind::Plus => Opcode::Add,
                    TokenKind::Minus => Opcode::Subtract,
                    TokenKind::Star => Opcode::Multiply,
                    TokenKind::Slash => Opcode::Divide,
                    _ => return Err(Error::CompileError),
                };
                let ghost start = chunk.code@;
                match Compiler::emit(chunk, l) {
                    Ok(()) => {},
                    Err(err) => return Err(err),
                }
                match Compiler::emit(chunk, r) {
                    Ok(()) => {},
                    Err(err) => return Err(err),
                }
                chunk.write_chunk(instruction);
                assert(chunk.code@ =~= start + code_for(*e));
                Ok(())
            },
            _ => Err(Error::CompileError),
        }
    }

    /// Parses the source as one expression and appends its instructions
    /// and a final `Return`. It succeeds exactly when the parse does and the
    /// bytecode backend supports the expression; a malformed expression or a
    /// token the scanner rejects fails it, and on failure the chunk is left
    /// as it was.
    pub fn compile(&mut self) -> (r: Result<(), Error>)
        requires
            old(self).wf(),
        ensures
            final(self).wf(),
            final(self).parser.source() == old(self).parser.source(),
            r is Ok ==> exists|e: Expression|
                whole(e, old(self).parser.upcoming()) && supported(e) && final(self).chunk.code@
                    == old(self).chunk.code@ + code_for(e).push(Opcode::Return),
            r is Ok ==> final(self).chunk.constants@ == old(self).chunk.constants@,
            forall|e: Expression| #[trigger]
                whole(e, old(self).parser.upcoming()) && supported(e) && error_free(
                    old(self).parser.source(),
                    0,
                ) ==> r is Ok,
            !error_free(old(self).parser.source(), 0) ==> r is Err,
            r is Err ==> r->Err_0 == Error::CompileError && final(self).chunk == old(self).chunk,
    {
        let e = match self.parser.parse() {
            Ok(e) => e,
            Err(_) => return Err(Error::CompileError),
        };
        let mut fresh = Chunk::new();
        match Compiler::emit(&mut fresh, &e) {
            Ok(()) => {},
            Err(err) => {
                proof {
                    assert forall|t: Expression| #[trigger]
                        whole(t, old(self).parser.upcoming()) && supported(t) && error_free(
                            old(self).parser.source(),
                            0,
                        ) implies false by {
                        lemma_same_tree_supported(e, t);
                    }
                }
                return Err(err);
            },
        }
        fresh.write_chunk(Opcode::Return);
        let ghost before = self.chunk.code@;
        self.chunk.code.append(&mut fresh.code);
        assert(self.chunk.code@ =~= before + code_for(e).push(Opcode::Return));
        Ok(())
    }
}

/// Compiles the source text, one expression optionally followed by `;`,
/// into a fresh chunk: the instructions of that expression, then `Return`.
/// It succeeds exactly when such a supported expression exists and the
/// source holds no token the scanner rejects.
pub fn compile_to_chunk(src: &str) -> (r: Result<Chunk, Error>)
    ensures
        r is Ok ==> exists|e: Expression|
            whole(e, tokens_of(src@)) && supported(e) && r->Ok_0.code@ == code_for(e).push(
                Opcode::Return,
            ),
        r is Ok ==> r->Ok_0.constants@ == Seq::<String>::empty(),
        forall|e: Expression| #[trigger]
            whole(e, tokens_of(src@)) && supported(e) && error_free(src@, 0) ==> r is Ok,
        !error_free(src@, 0) ==> r is Err,
        r is Err ==> r->Err_0 == Error::CompileError,
{
    let mut compiler = Compiler::from_source(src);
    match compiler.compile() {
        Ok(()) => {
            proof {
                let e = choose|e: Expression|
                    whole(e, tokens_of(src@)) && supported(e) && compiler.chunk.code@
                        == Seq::<Opcode>::empty() + code_for(e).push(Opcode::Return);
                assert(Seq::<Opcode>::empty() + code_for(e).push(Opcode::Return) =~= code_for(
                    e,
                ).push(Opcode::Return));
            }
            Ok(compiler.chunk)
        },
        Err(err) => Err(err),
    }
}

/// Support for the bytecode backend does not depend on how number texts
/// are stored.
pub proof fn lemma_same_tree_supported(a: Expression, b: Expression)
    requires
        same_tree(a, b),
        supported(b),
    ensures
        supported(a),
    decreases a,
{
    match a {
        Expression::Grouping(x) => lemma_same_tree_supported(*x, *b->Grouping_0),
        Expression::Unary(_, x) => lemma_same_tree_supported(*x, *b->Unary_1),
        Expression::Binary(l, _, r) => {
            lemma_same_tree_supported(*l, *b->Binary_0);
            lemma_same_tree_supported(*r, *b->Binary_2);
        },
        _ => {},
    }
}

/// Running the instructions for an expression pushes its value and goes on
/// with what follows.
pub proof fn lemma_code_pushes_value(e: Expression, rest: Seq<Opcode>, stack: Seq<Value>)
    requires
        supported(e),
    ensures
        run(code_for(e) + rest, stack) == run(rest, stack.push(value_of(e))),
    decreases e,
{
    match e {
        Expression::Number(text) => {
            let code = seq![Opcode::Constant(text)] + rest;
            assert(code.drop_first() =~= rest);
        },
        Expression::Grouping(x) => {
            lemma_code_pushes_value(*x, rest, stack);
        },
        Expression::Unary(_, x) => {
            let tail = seq![Opcode::Negate] + rest;
            assert(code_for(e) + rest =~= code_for(*x) + tail);
            lemma_code_pushes_value(*x, tail, stack);
            let pushed = stack.push(value_of(*x));
            assert(pushed.drop_last() =~= stack);
            assert(tail.drop_first() =~= rest);
        },
        Expression::Binary(l, op, r) => {
            let tail = seq![opcode_for(op)] + rest;
            assert(code_for(e) + rest =~= code_for(*l) + (code_for(*r) + tail));
            lemma_code_pushes_value(*l, code_for(*r) + tail, stack);
            lemma_code_pushes_value(*r, tail, stack.push(value_of(*l)));
            let pushed = stack.push(value_of(*l)).push(value_of(*r));
            assert(pushed.subrange(0, pushed.len() - 2) =~= stack);
            assert(tail.drop_first() =~= rest);
        },
        _ => {},
    }
}

/// A chunk compiled from an expression runs to completion and leaves
/// exactly the expression's value on the stack.
pub proof fn lemma_compiled_chunk_evaluates(e: Expression)
    requires
        supported(e),
    ensures
        run(code_for(e).push(Opcode::Return), Seq::empty()) == Some(seq![value_of(e)]),
{
    let ret = seq![Opcode::Return];
    assert(code_for(e).push(Opcode::Return) =~= code_for(e) + ret);
    lemma_code_pushes_value(e, ret, Seq::empty());
    assert(Seq::<Value>::empty().push(value_of(e)) =~= seq![value_of(e)]);
}

} // verus!
