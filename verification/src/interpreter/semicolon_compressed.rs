//! The compressed interpreter: cells of sixteen bits, deltas applied in one
//! go, and loops that jump to the position their bracket carries.

use crate::interpreter::{
    next_char, rest, stored, Fault, InputBuffer, Machine, Outcome, ProgramInterpreter, Tape,
    TapeSize,
};
use crate::program::semicolon_compressed::{
    lemma_targets_are_partners, CompressedInstruction, CompressedProgram,
};
use crate::program::Program;
use vstd::arithmetic::div_mod::{lemma_fundamental_div_mod, lemma_fundamental_div_mod_converse};
use vstd::prelude::*;

verus! {

/// The cell value that stands for `value`: the one number of sixteen bits, in
/// two's complement, that differs from `value` by a multiple of 65536.
pub open spec fn wrapped_cell(value: int) -> i16 {
    let low = value % 0x1_0000;
    if low >= 0x8000 {
        (low - 0x1_0000) as i16
    } else {
        low as i16
    }
}

/// The low eight bits of a cell.
pub open spec fn low_byte(cell: i16) -> u8 {
    ((cell as int) % 0x100) as u8
}

/// The size of a delta, whichever way it points.
pub open spec fn magnitude_of(delta: i32) -> nat {
    if delta < 0 {
        (-delta) as nat
    } else {
        delta as nat
    }
}

/// A value that differs from a cell value by a multiple of 65536 stands for
/// that cell value.
pub proof fn lemma_wrapped_cell(value: int, turns: int, cell: int)
    requires
        value == turns * 0x1_0000 + cell,
        -0x8000 <= cell < 0x8000,
    ensures
        wrapped_cell(value) == cell,
{
    if cell >= 0 {
        lemma_fundamental_div_mod_converse(value, 0x1_0000, turns, cell);
    } else {
        lemma_fundamental_div_mod_converse(value, 0x1_0000, turns - 1, cell + 0x1_0000);
    }
}

/// The size of `delta`.
pub fn magnitude(delta: i32) -> (size: u32)
    ensures
        size == magnitude_of(delta),
{
    if delta >= 0 {
        delta as u32
    } else {
        (-(delta as i64)) as u32
    }
}

/// The tape of the compressed dialect: cells of sixteen bits.
pub struct CompressedMemoryBank {
    memory: Vec<i16>,
    index: usize,
}

impl View for CompressedMemoryBank {
    type V = Tape<i16>;

    closed spec fn view(&self) -> Tape<i16> {
        Tape { cells: self.memory@, head: self.index as int }
    }
}

impl CompressedMemoryBank {
    #[verifier::type_invariant]
    spec fn head_on_tape(&self) -> bool {
        self.index < self.memory@.len()
    }

    /// A tape of `size` cells that all hold 0, the head on the first.
    pub fn new(size: TapeSize) -> (bank: Self)
        ensures
            bank@ == Tape::filled(size.value() as nat, 0i16),
            bank@.well_formed(),
    {
        let size = size.get();
        let bank = Self { memory: vec![0i16; size], index: 0 };
        proof {
            assert(bank.memory@ =~= Seq::new(size as nat, |i: int| 0i16));
        }
        bank
    }

    /// Adds `value` to the cell under the head, wrapping at sixteen bits.
    pub fn change(&mut self, value: i32)
        ensures
            final(self)@ == old(self)@.with_current(
                wrapped_cell(old(self)@.current() + value),
            ),
            final(self)@.well_formed(),
    {
        proof {
            use_type_invariant(&*self);
        }
        let narrowed = #[verifier::truncate]
        (value as i16);
        let cell = self.memory[self.index];
        let sum = cell.wrapping_add(narrowed);
        proof {
            assert(#[verifier::truncate]
            (value as i16) as i32 == ((((value as i64 + 0x8000_8000i64) as u64) % 0x1_0000u64)
                as i32 - 0x8000i32) as i32) by (bit_vector);
            let lifted = value + 0x8000_8000;
            lemma_fundamental_div_mod(lifted, 0x1_0000);
            let turns = lifted / 0x1_0000 - 0x8000;
            assert(value == turns * 0x1_0000 + narrowed);
            if cell + narrowed > i16::MAX {
                lemma_wrapped_cell(cell + value, turns + 1, sum as int);
            } else if cell + narrowed < i16::MIN {
                lemma_wrapped_cell(cell + value, turns - 1, sum as int);
            } else {
                lemma_wrapped_cell(cell + value, turns, sum as int);
            }
        }
        self.memory[self.index] = sum;
    }

    /// Moves the head `value` cells on, or back where `value` is negative,
    /// around the ends of the tape as often as it takes.
    pub fn move_pointer(&mut self, value: i32)
        ensures
            final(self)@ == old(self)@.moved(value as int),
            final(self)@.well_formed(),
    {
        proof {
            use_type_invariant(&*self);
        }
        let size = self.memory.len();
        let steps = magnitude(value) as usize % size;
        proof {
            lemma_fundamental_div_mod(magnitude_of(value) as int, size as int);
        }
        let ghost turns = magnitude_of(value) as int / size as int;
        let ghost before = self.index as int;
        if value < 0 {
            if self.index >= steps {
                self.index = self.index - steps;
                proof {
                    assert(before + value == size * (-turns) + (before - steps)) by (nonlinear_arith)
                        requires
                            -value == size * turns + steps,
                    ;
                    lemma_fundamental_div_mod_converse(
                        before + value,
                        size as int,
                        -turns,
                        before - steps,
                    );
                }
            } else {
                self.index = size - (steps - self.index);
                proof {
                    assert(before + value == (-turns - 1) * size + (size - (steps - before)))
                        by (nonlinear_arith)
                        requires
                            -value == size * turns + steps,
                    ;
                    lemma_fundamental_div_mod_converse(
                        before + value,
                        size as int,
                        -turns - 1,
                        size - (steps - before),
                    );
                }
            }
        } else {
            if steps < size - self.index {
                self.index = self.index + steps;
                proof {
                    assert(before + value == turns * size + (before + steps)) by (nonlinear_arith)
                        requires
                            value == size * turns + steps,
                    ;
                    lemma_fundamental_div_mod_converse(
                        before + value,
                        size as int,
                        turns,
                        before + steps,
                    );
                }
            } else {
                self.index = steps - (size - self.index);
                proof {
                    assert(before + value == (turns + 1) * size + (steps - (size - before)))
                        by (nonlinear_arith)
                        requires
                            value == size * turns + steps,
                    ;
                    lemma_fundamental_div_mod_converse(
                        before + value,
                        size as int,
                        turns + 1,
                        steps - (size - before),
                    );
                }
            }
        }
    }

    /// Stores what reading `value` gives in the cell under the head: the
    /// ordinal of `value`, or 0 where that is 127 or more.
    pub fn input(&mut self, value: char)
        ensures
            final(self)@ == old(self)@.with_current(stored(value) as i16),
            final(self)@.well_formed(),
    {
        proof {
            use_type_invariant(&*self);
        }
        let ordinal = value as u32;
        if ordinal >= 127 {
            self.memory[self.index] = 0;
        } else {
            self.memory[self.index] = ordinal as i16;
        }
    }

    /// The low eight bits of the cell under the head, as the character with
    /// that ordinal.
    pub fn output(&self) -> (c: char)
        ensures
            c == low_byte(self@.current()) as char,
            self@.well_formed(),
    {
        proof {
            use_type_invariant(self);
        }
        let cell = self.memory[self.index];
        let low = #[verifier::truncate]
        (cell as u8);
        proof {
            assert(#[verifier::truncate]
            (cell as u8) == ((cell as i32 + 0x8000i32) as u32 % 256u32) as u8) by (bit_vector);
            lemma_fundamental_div_mod(cell + 0x8000, 0x100);
            lemma_fundamental_div_mod_converse(
                cell as int,
                0x100,
                (cell + 0x8000) / 0x100 - 0x80,
                (cell + 0x8000) % 0x100,
            );
        }
        low as char
    }

    /// The cell at `at`, counted from the first; `None` past the last.
    pub fn cell(&self, at: usize) -> (cell: Option<i16>)
        ensures
            cell == if at < self@.cells.len() {
                Some(self@.cells[at as int])
            } else {
                None
            },
    {
        if at < self.memory.len() {
            Some(self.memory[at])
        } else {
            None
        }
    }

    /// Where the head stands, counted from the first cell.
    pub fn position(&self) -> (head: usize)
        ensures
            head == self@.head,
            self@.well_formed(),
    {
        proof {
            use_type_invariant(self);
        }
        self.index
    }

    /// How many cells the tape has.
    pub fn len(&self) -> (cells: usize)
        ensures
            cells == self@.cells.len(),
            cells > 0,
    {
        proof {
            use_type_invariant(self);
        }
        self.memory.len()
    }

    /// Whether the cell under the head holds 0.
    pub fn is_zero(&self) -> (zero: bool)
        ensures
            zero == (self@.current() == 0),
            self@.well_formed(),
    {
        proof {
            use_type_invariant(self);
        }
        self.memory[self.index] == 0
    }
}

/// What executing the instruction adds to the tally: the size of a delta, and
/// 1 for anything else.
pub open spec fn cost_of(instruction: CompressedInstruction) -> nat {
    match instruction {
        CompressedInstruction::Change(delta) => magnitude_of(delta),
        CompressedInstruction::Move(delta) => magnitude_of(delta),
        _ => 1,
    }
}

/// What executing the instruction takes from the budget: what it adds to the
/// tally, and 1 where that is nothing.
pub open spec fn price_of(instruction: CompressedInstruction) -> nat {
    if cost_of(instruction) == 0 {
        1
    } else {
        cost_of(instruction)
    }
}

/// What one instruction does to the machine, up to the point where the
/// counter moves on: the tape, the input and the output change as the
/// instruction says, and a jump leaves the counter on the position that the
/// bracket carries.
pub open spec fn compressed_effect(
    machine: Machine<i16>,
    instruction: CompressedInstruction,
) -> Machine<i16> {
    match instruction {
        CompressedInstruction::Change(delta) => Machine {
            tape: machine.tape.with_current(wrapped_cell(machine.tape.current() + delta)),
            ..machine
        },
        CompressedInstruction::Move(delta) => Machine {
            tape: machine.tape.moved(delta as int),
            ..machine
        },
        CompressedInstruction::Input => Machine {
            tape: machine.tape.with_current(stored(next_char(machine.input)) as i16),
            input: rest(machine.input),
            ..machine
        },
        CompressedInstruction::Output => Machine {
            output: machine.output.push(low_byte(machine.tape.current()) as char),
            ..machine
        },
        CompressedInstruction::LoopEnter(target) => if machine.tape.current() == 0 {
            Machine { counter: target as int, ..machine }
        } else {
            machine
        },
        CompressedInstruction::LoopExit(target) => if machine.tape.current() != 0 {
            Machine { counter: target as int, ..machine }
        } else {
            machine
        },
    }
}

/// One step of a run: the instruction under the counter takes effect, the
/// counter moves on by one, and the tally grows by the instruction's cost.
pub open spec fn compressed_step(
    program: Seq<CompressedInstruction>,
    machine: Machine<i16>,
) -> Machine<i16> {
    let after = compressed_effect(machine, program[machine.counter]);
    Machine {
        counter: after.counter + 1,
        tally: after.tally + cost_of(program[machine.counter]),
        ..after
    }
}

/// A run on a budget. It ends where the counter leaves the program, without a
/// fault, or where the budget no longer pays for the instruction under the
/// counter.
pub open spec fn compressed_run(
    program: Seq<CompressedInstruction>,
    machine: Machine<i16>,
    budget: nat,
) -> Outcome<i16>
    decreases budget,
{
    if !(0 <= machine.counter < program.len()) {
        Outcome { machine, fault: None }
    } else if budget < price_of(program[machine.counter]) {
        Outcome { machine, fault: Some(Fault::OutOfBudget) }
    } else {
        compressed_run(
            program,
            compressed_step(program, machine),
            (budget - price_of(program[machine.counter])) as nat,
        )
    }
}

/// The compressed interpreter: a tape, and the position in the program.
pub struct CompressedInterpreter {
    memory: CompressedMemoryBank,
    index: usize,
}

impl CompressedInterpreter {
    /// The machine that the interpreter is, with `input` left to read, `output`
    /// written and `tally` instructions executed.
    pub open spec fn machine(&self, input: Seq<char>, output: Seq<char>, tally: nat) -> Machine<
        i16,
    > {
        Machine { tape: self.tape(), counter: self.counter(), input, output, tally }
    }

    /// An interpreter with a tape of `memory_size` cells that all hold 0.
    pub fn new(memory_size: TapeSize) -> (interpreter: Self)
        ensures
            interpreter.tape() == Tape::filled(memory_size.value() as nat, 0i16),
            interpreter.tape().well_formed(),
            interpreter.counter() == 0,
    {
        Self { memory: CompressedMemoryBank::new(memory_size), index: 0 }
    }

    /// The tape, to look at.
    pub fn memory(&self) -> (memory: &CompressedMemoryBank)
        ensures
            memory@ == self.tape(),
    {
        &self.memory
    }

    /// Runs `program` from its first instruction, on the tape as the last run
    /// left it, on a budget counted in primitive operations: each instruction
    /// takes what it adds to the tally, and at least 1. What the run reads it
    /// takes from `input`, what it writes it appends to `output`. Returns the
    /// tally where the run reached the end of the program, and the fault where
    /// the budget ran out first; up to there the run has taken effect.
    #[verifier::loop_isolation(false)]
    pub fn execute_bounded(
        &mut self,
        program: &CompressedProgram,
        input: &str,
        output: &mut Vec<char>,
        budget: usize,
    ) -> (tally: Result<usize, Fault>)
        ensures
            ({
                let start = Machine {
                    tape: old(self).tape(),
                    counter: 0,
                    input: input@,
                    output: old(output)@,
                    tally: 0,
                };
                let end = compressed_run(program.instructions(), start, budget as nat);
                &&& final(self).tape() == end.machine.tape
                &&& final(self).counter() == end.machine.counter
                &&& final(output)@ == end.machine.output
                &&& tally == match end.fault {
                    None => Ok::<usize, Fault>(end.machine.tally as usize),
                    Some(fault) => Err::<usize, Fault>(fault),
                }
                &&& end.machine.tally <= budget
            }),
            final(self).tape().well_formed(),
    {
        proof {
            use_type_invariant(&self.memory);
        }
        self.index = 0;
        let mut instruction_count: usize = 0;
        let mut spent: usize = 0;
        let mut input = InputBuffer::new(input);
        let ghost instructions = program.instructions();
        let ghost start = Machine {
            tape: self.tape(),
            counter: 0,
            input: input@,
            output: output@,
            tally: 0,
        };
        loop
            invariant
                instruction_count <= spent <= budget,
                self.tape().well_formed(),
                compressed_run(instructions, start, budget as nat) == compressed_run(
                    instructions,
                    self.machine(input@, output@, instruction_count as nat),
                    (budget - spent) as nat,
                ),
            decreases budget - spent,
        {
            let ghost now = self.machine(input@, output@, instruction_count as nat);
            match program.get(self.index) {
                None => {
                    return Ok(instruction_count);
                },
                Some(instruction) => {
                    let price = Self::price(&instruction);
                    if price > budget - spent {
                        return Err(Fault::OutOfBudget);
                    }
                    proof {
                        lemma_targets_are_partners(program, self.index as int);
                    }
                    let cost = self.execute_instruction(&instruction, &mut input, output);
                    proof {
                        assert(self.counter() == compressed_effect(
                            Machine { tally: 0, ..now },
                            instruction,
                        ).counter);
                    }
                    self.index = self.index + 1;
                    instruction_count += cost;
                    spent += price;
                    proof {
                        assert(self.machine(input@, output@, instruction_count as nat)
                            == compressed_step(instructions, now));
                    }
                },
            }
        }
    }

    /// What executing `instruction` takes from the budget.
    pub fn price(instruction: &CompressedInstruction) -> (price: usize)
        ensures
            price == price_of(*instruction),
    {
        let cost = match instruction {
            CompressedInstruction::Change(v) => magnitude(*v) as usize,
            CompressedInstruction::Move(v) => magnitude(*v) as usize,
            _ => 1,
        };
        if cost == 0 {
            1
        } else {
            cost
        }
    }

    /// Executes `instruction` against the tape, takes what it reads from
    /// `input` and appends what it writes to `output`. A jump leaves the
    /// interpreter on the position that the bracket carries. Returns what the
    /// instruction adds to the tally.
    pub fn execute_instruction(
        &mut self,
        instruction: &CompressedInstruction,
        input: &mut InputBuffer,
        output: &mut Vec<char>,
    ) -> (cost: usize)
        ensures
            cost == cost_of(*instruction),
            final(self).tape().well_formed(),
            final(self).machine(final(input)@, final(output)@, 0) == compressed_effect(
                old(self).machine(old(input)@, old(output)@, 0),
                *instruction,
            ),
    {
        match instruction {
            CompressedInstruction::Change(v) => {
                self.memory.change(*v);
                magnitude(*v) as usize
            },
            CompressedInstruction::Move(v) => {
                self.memory.move_pointer(*v);
                magnitude(*v) as usize
            },
            CompressedInstruction::Input => {
                let c = input.take();
                self.memory.input(c);
                1
            },
            CompressedInstruction::Output => {
                output.push(self.memory.output());
                1
            },
            CompressedInstruction::LoopEnter(v) => {
                if self.memory.is_zero() {
                    self.index = *v;
                }
                1
            },
            CompressedInstruction::LoopExit(v) => {
                if !self.memory.is_zero() {
                    self.index = *v;
                }
                1
            },
        }
    }
}

impl ProgramInterpreter<CompressedProgram> for CompressedInterpreter {
    type Cell = i16;

    closed spec fn tape(&self) -> Tape<i16> {
        self.memory@
    }

    closed spec fn counter(&self) -> int {
        self.index as int
    }

    open spec fn run(program: &CompressedProgram, start: Machine<i16>, budget: nat) -> Outcome<
        i16,
    > {
        compressed_run(program.instructions(), start, budget)
    }

    fn execute_program(
        &mut self,
        program: &CompressedProgram,
        input: &str,
        output: &mut Vec<char>,
    ) -> (tally: Result<usize, Fault>) {
        self.execute_bounded(program, input, output, usize::MAX)
    }
}

} // verus!
