//! The basic dialect: one instruction for each source character that stands
//! for one, and loops that are matched while the program runs.

use crate::program::Program;
use vstd::prelude::*;

verus! {

/// An instruction of a basic program.
#[derive(Copy, Clone, Eq, PartialEq, Debug)]
pub enum BasicInstruction {
    Increment,
    Decrement,
    MoveLeft,
    MoveRight,
    Input,
    Output,
    LoopEnter,
    LoopExit,
}

impl BasicInstruction {
    /// What the instruction does to the nesting depth.
    pub open spec fn nesting(self) -> int {
        match self {
            BasicInstruction::LoopEnter => 1,
            BasicInstruction::LoopExit => -1,
            _ => 0,
        }
    }
}

/// The shape of a basic stream.
pub open spec fn basic_shape(instructions: Seq<BasicInstruction>) -> Seq<int> {
    Seq::new(instructions.len(), |i: int| instructions[i].nesting())
}

/// The instruction that a source character stands for; `None` for a comment.
pub open spec fn instruction_of(c: char) -> Option<BasicInstruction> {
    if c == '+' {
        Some(BasicInstruction::Increment)
    } else if c == '-' {
        Some(BasicInstruction::Decrement)
    } else if c == '<' {
        Some(BasicInstruction::MoveLeft)
    } else if c == '>' {
        Some(BasicInstruction::MoveRight)
    } else if c == ',' {
        Some(BasicInstruction::Input)
    } else if c == '.' {
        Some(BasicInstruction::Output)
    } else if c == '[' {
        Some(BasicInstruction::LoopEnter)
    } else if c == ']' {
        Some(BasicInstruction::LoopExit)
    } else {
        None
    }
}

/// The instructions of a source text, one for each character that stands for
/// one, in the order of the text.
pub open spec fn parsed(source: Seq<char>) -> Seq<BasicInstruction>
    decreases source.len(),
{
    if source.len() == 0 {
        Seq::empty()
    } else {
        match instruction_of(source.last()) {
            Some(instruction) => parsed(source.drop_last()).push(instruction),
            None => parsed(source.drop_last()),
        }
    }
}

/// A basic program. Its brackets are not checked when it is built: a bracket
/// without a partner is found when, and if, the interpreter has to jump from it.
pub struct BasicProgram {
    instructions: Vec<BasicInstruction>,
}

impl BasicProgram {
    /// Builds the program that `code` stands for. Characters that stand for no
    /// instruction are comments.
    pub fn new(code: &str) -> (program: Self)
        ensures
            program.instructions() == parsed(code@),
    {
        let mut instructions: Vec<BasicInstruction> = Vec::new();
        for c in it: code.chars()
            invariant
                it.seq() == code@,
                instructions@ == parsed(code@.take(it.index() as int)),
        {
            proof {
                assert(code@.take(it.index() + 1).drop_last() =~= code@.take(it.index() as int));
            }
            match Self::create_instruction(c) {
                Some(instruction) => {
                    instructions.push(instruction);
                },
                None => {},
            }
        }
        proof {
            assert(code@.take(code@.len() as int) =~= code@);
        }
        Self { instructions }
    }

    /// The instruction that one source character stands for.
    pub fn create_instruction(c: char) -> (instruction: Option<BasicInstruction>)
        ensures
            instruction == instruction_of(c),
    {
        match c {
            '+' => Some(BasicInstruction::Increment),
            '-' => Some(BasicInstruction::Decrement),
            '<' => Some(BasicInstruction::MoveLeft),
            '>' => Some(BasicInstruction::MoveRight),
            ',' => Some(BasicInstruction::Input),
            '.' => Some(BasicInstruction::Output),
            '[' => Some(BasicInstruction::LoopEnter),
            ']' => Some(BasicInstruction::LoopExit),
            _ => None,
        }
    }
}

impl Program<BasicInstruction> for BasicProgram {
    closed spec fn instructions(&self) -> Seq<BasicInstruction> {
        self.instructions@
    }

    fn get(&self, index: usize) -> (instruction: Option<BasicInstruction>) {
        if index >= self.instructions.len() {
            return None;
        }
        Some(self.instructions[index])
    }

    fn len(&self) -> (length: usize) {
        self.instructions.len()
    }

    fn is_empty(&self) -> (empty: bool) {
        self.instructions.is_empty()
    }
}

} // verus!
