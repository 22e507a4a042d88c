use vstd::prelude::*;

verus! {

/// The mathematical model of an instruction: the same tree, with each loop
/// holding its body as a sequence of models.
pub enum Instr {
    Move(int),
    Add(int),
    Output,
    Input,
    Loop(Seq<Instr>),
}

/// One instruction: a move of the cell pointer or a change of the cell by a signed
/// amount, output, input, or a loop that owns its body.
#[derive(Debug, PartialEq)]
pub enum Instruction {
    Move(isize),
    Add(isize),
    Output,
    Input,
    Loop(CodeBlock),
}

/// A sequence of instructions in source order: the top level or one loop body.
#[derive(Debug, PartialEq)]
pub struct CodeBlock {
    instructions: Vec<Instruction>,
}

/// A parsed program: the root block.
#[derive(Debug, PartialEq)]
pub struct Program {
    code: CodeBlock,
}

/// The model of one instruction.
pub closed spec fn instr_model(i: Instruction) -> Instr
    decreases i,
{
    match i {
        Instruction::Move(n) => Instr::Move(n as int),
        Instruction::Add(n) => Instr::Add(n as int),
        Instruction::Output => Instr::Output,
        Instruction::Input => Instr::Input,
        Instruction::Loop(b) => Instr::Loop(seq_model(b.instructions@)),
    }
}

/// The models of a sequence of instructions, in order.
pub closed spec fn seq_model(s: Seq<Instruction>) -> Seq<Instr>
    decreases s,
{
    if s.len() == 0 {
        Seq::empty()
    } else {
        seq_model(s.drop_last()).push(instr_model(s.last()))
    }
}

impl View for Instruction {
    type V = Instr;

    closed spec fn view(&self) -> Instr {
        instr_model(*self)
    }
}

impl View for CodeBlock {
    type V = Seq<Instr>;

    closed spec fn view(&self) -> Seq<Instr> {
        seq_model(self.instructions@)
    }
}

impl View for Program {
    type V = Seq<Instr>;

    /// The instructions of the root block.
    closed spec fn view(&self) -> Seq<Instr> {
        self.code@
    }
}

/// How each instruction's model is made: steps keep their amount, and a loop's
/// model holds the model of its body.
pub proof fn lemma_instruction_view(i: Instruction)
    ensures
        i@ == match i {
            Instruction::Move(n) => Instr::Move(n as int),
            Instruction::Add(n) => Instr::Add(n as int),
            Instruction::Output => Instr::Output,
            Instruction::Input => Instr::Input,
            Instruction::Loop(b) => Instr::Loop(b@),
        },
{
}

impl CodeBlock {
    pub fn new() -> (r: CodeBlock)
        ensures
            r@ == Seq::<Instr>::empty(),
    {
        CodeBlock { instructions: Vec::new() }
    }

    pub fn add_instruction(&mut self, inst: Instruction)
        ensures
            final(self)@ == old(self)@.push(inst@),
    {
        let ghost before = self.instructions@;
        self.instructions.push(inst);
        proof {
            assert(self.instructions@.drop_last() == before);
        }
    }
}

impl Program {
    pub fn new(code: CodeBlock) -> (r: Self)
        ensures
            r@ == code@,
    {
        Self { code }
    }
}

} // verus!
