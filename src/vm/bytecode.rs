use vstd::prelude::*;

verus! {

/// One bytecode instruction. A constant carries its number literal inline.
#[derive(Debug, PartialEq)]
pub enum Opcode {
    Constant(String),
    Add,
    Subtract,
    Multiply,
    Divide,
    Negate,
    Return,
}

/// A sequence of bytecode instructions with a constant pool beside it.
#[derive(Debug)]
pub struct Chunk {
    pub code: Vec<Opcode>,
    pub constants: Vec<String>,
}

impl Chunk {
    pub fn new() -> (r: Chunk)
        ensures
            r.code@ == Seq::<Opcode>::empty(),
            r.constants@ == Seq::<String>::empty(),
    {
        Chunk { code: Vec::new(), constants: Vec::new() }
    }

    /// Appends one instruction.
    pub fn write_chunk(&mut self, instruction: Opcode)
        ensures
            final(self).code@ == old(self).code@.push(instruction),
            final(self).constants@ == old(self).constants@,
    {
        self.code.push(instruction)
    }

    /// Appends one constant to the pool.
    pub fn add_constant(&mut self, value: String)
        ensures
            final(self).constants@ == old(self).constants@.push(value),
            final(self).code@ == old(self).code@,
    {
        self.constants.push(value)
    }
}

} // verus!
