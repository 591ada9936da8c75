use vstd::prelude::*;

pub mod bytecode;

use bytecode::{Chunk, Opcode};

verus! {

/// A value on the operand stack: a number literal, or the arithmetic that
/// combines earlier values. Reading it as a floating-point number is left
/// to the caller.
#[derive(Debug, PartialEq)]
pub enum Value {
    Number(String),
    Negate(Box<Value>),
    Add(Box<Value>, Box<Value>),
    Subtract(Box<Value>, Box<Value>),
    Multiply(Box<Value>, Box<Value>),
    Divide(Box<Value>, Box<Value>),
}

#[derive(Debug, Clone, Copy, PartialEq, Eq, Structural)]
pub enum Error {
    CompileError,
    RuntimeError,
}

pub type InterpreterResult = Result<(), Error>;

/// The stack after one instruction other than `Return`; `None` when the
/// stack holds too few operands.
pub open spec fn step(op: Opcode, stack: Seq<Value>) -> Option<Seq<Value>> {
    match op {
        Opcode::Constant(text) => Some(stack.push(Value::Number(text))),
        Opcode::Negate => if stack.len() >= 1 {
            Some(stack.drop_last().push(Value::Negate(Box::new(stack.last()))))
        } else {
            None
        },
        Opcode::Return => Some(stack),
        _ => if stack.len() >= 2 {
            let a = stack[stack.len() - 2];
            let b = stack.last();
            let rest = stack.subrange(0, stack.len() - 2);
            Some(rest.push(combine(op, a, b)))
        } else {
            None
        },
    }
}

/// The value a binary instruction makes of its left and right operands.
pub open spec fn combine(op: Opcode, a: Value, b: Value) -> Value {
    match op {
        Opcode::Add => Value::Add(Box::new(a), Box::new(b)),
        Opcode::Subtract => Value::Subtract(Box::new(a), Box::new(b)),
        Opcode::Multiply => Value::Multiply(Box::new(a), Box::new(b)),
        _ => Value::Divide(Box::new(a), Box::new(b)),
    }
}

/// Runs `code` from its first instruction on `stack`: the stack at the
/// first `Return`, or `None` when an instruction lacks operands or the code
/// ends without `Return`.
pub open spec fn run(code: Seq<Opcode>, stack: Seq<Value>) -> Option<Seq<Value>>
    decreases code.len(),
{
    if code.len() == 0 {
        None
    } else if code[0] is Return {
        Some(stack)
    } else {
        match step(code[0], stack) {
            Some(next) => run(code.drop_first(), next),
            None => None,
        }
    }
}

/// `end` is the index of the first `Return` at or after `start`: the run
/// stepped through every instruction before it.
pub open spec fn stops_at_first_return(code: Seq<Opcode>, start: int, end: int) -> bool {
    &&& start <= end < code.len()
    &&& code[end] is Return
    &&& forall|k: int| start <= k < end ==> !(#[trigger] code[k] is Return)
}

/// A stack machine that runs one chunk at a time.
#[derive(Debug)]
pub struct VM {
    chunk: Chunk,
    pc: usize,
    stack: Vec<Value>,
}

impl VM {
    /// The chunk last handed to `interpret`.
    pub closed spec fn code(&self) -> Seq<Opcode> {
        self.chunk.code@
    }

    /// The operand stack.
    pub closed spec fn operands(&self) -> Seq<Value> {
        self.stack@
    }

    /// The index of the instruction the run stands at.
    pub closed spec fn counter(&self) -> int {
        self.pc as int
    }

    /// The constant pool of the chunk last handed to `interpret`.
    pub closed spec fn pool(&self) -> Seq<String> {
        self.chunk.constants@
    }

    pub fn new() -> (r: VM)
        ensures
            r.code() == Seq::<Opcode>::empty(),
            r.pool() == Seq::<String>::empty(),
            r.counter() == 0,
            r.operands() == Seq::<Value>::empty(),
    {
        VM { chunk: Chunk::new(), pc: 0, stack: Vec::new() }
    }

    /// The operand stack, bottom first.
    pub fn stack(&self) -> (r: &Vec<Value>)
        ensures
            r@ == self.operands(),
    {
        &self.stack
    }

    fn run(&mut self) -> (r: InterpreterResult)
        requires
            old(self).pc <= old(self).chunk.code@.len(),
        ensures
            final(self).chunk == old(self).chunk,
            ({
                let out = run(old(self).chunk.code@.skip(old(self).pc as int), old(self).stack@);
                &&& r is Ok <==> out is Some
                &&& out is Some ==> final(self).stack@ == out->0
                &&& r is Err ==> r->Err_0 == Error::RuntimeError
            }),
            r is Ok ==> stops_at_first_return(old(self).chunk.code@, old(self).pc as int, final(self).pc as int),
    {
        let ghost out = run(self.chunk.code@.skip(self.pc as int), self.stack@);
        loop
            invariant
                self.chunk == old(self).chunk,
                self.pc <= self.chunk.code@.len(),
                run(self.chunk.code@.skip(self.pc as int), self.stack@) == out,
                out == run(old(self).chunk.code@.skip(old(self).pc as int), old(self).stack@),
                old(self).pc <= self.pc,
                forall|k: int| old(self).pc <= k < self.pc ==> !(#[trigger] self.chunk.code@[k] is Return),
            decreases self.chunk.code@.len() - self.pc,
        {
            if self.pc >= self.chunk.code.len() {
                return Err(Error::RuntimeError);
            }
            let ghost code = self.chunk.code@.skip(self.pc as int);
            assert(code[0] == self.chunk.code@[self.pc as int]);
            assert(code.drop_first() =~= self.chunk.code@.skip(self.pc + 1));
            match &self.chunk.code[self.pc] {
                Opcode::Constant(text) => {
                    self.stack.push(Value::Number(text.clone()));
                },
                Opcode::Return => {
                    return Ok(());
                },
                Opcode::Negate => {
                    match self.stack.pop() {
                        Some(v) => self.stack.push(Value::Negate(Box::new(v))),
                        None => return Err(Error::RuntimeError),
                    }
                },
                op => {
                    if self.stack.len() < 2 {
                        return Err(Error::RuntimeError);
                    }
                    let ghost before = self.stack@;
                    let b = self.stack.pop().unwrap();
                    let a = self.stack.pop().unwrap();
                    let v = match op {
                        Opcode::Add => Value::Add(Box::new(a), Box::new(b)),
                        Opcode::Subtract => Value::Subtract(Box::new(a), Box::new(b)),
                        Opcode::Multiply => Value::Multiply(Box::new(a), Box::new(b)),
                        _ => Value::Divide(Box::new(a), Box::new(b)),
                    };
                    self.stack.push(v);
                    assert(before.subrange(0, before.len() - 2) =~= before.drop_last().drop_last());
                },
            }
            self.pc = self.pc + 1;
        }
    }

    /// Runs `chunk` from its first instruction on an empty stack. `Ok` when
    /// it reaches `Return`, with the operands left on the stack;
    /// `RuntimeError` when it is malformed.
    pub fn interpret(&mut self, chunk: Chunk) -> (r: InterpreterResult)
        ensures
            final(self).code() == chunk.code@,
            ({
                let out = run(chunk.code@, Seq::<Value>::empty());
                &&& r is Ok <==> out is Some
                &&& out is Some ==> final(self).operands() == out->0
                &&& r is Err ==> r->Err_0 == Error::RuntimeError
            }),
            final(self).pool() == chunk.constants@,
            r is Ok ==> stops_at_first_return(chunk.code@, 0, final(self).counter()),
    {
        self.chunk = chunk;
        self.pc = 0;
        self.stack = Vec::new();
        assert(self.chunk.code@.skip(0) =~= self.chunk.code@);
        self.run()
    }
}

} // verus!
