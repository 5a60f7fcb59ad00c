//! The basic interpreter: cells of eight bits, and loops matched by scanning.

use crate::brackets::{
    depth, is_enter_of, is_exit_of, lemma_enter_unique, lemma_exit_unique, matching_enter,
    matching_exit,
};
use crate::interpreter::{
    next_char, rest, stored, Fault, InputBuffer, Interpreter, Machine, Outcome, Tape, TapeSize,
};
use crate::program::basic::{basic_shape, BasicInstruction};
use crate::program::Program;
use vstd::prelude::*;

verus! {

/// The tape of the basic dialect: cells of eight bits.
pub struct BasicMemoryBank {
    memory: Vec<u8>,
    index: usize,
}

impl View for BasicMemoryBank {
    type V = Tape<u8>;

    closed spec fn view(&self) -> Tape<u8> {
        Tape { cells: self.memory@, head: self.index as int }
    }
}

impl BasicMemoryBank {
    #[verifier::type_invariant]
    spec fn head_on_tape(&self) -> bool {
        self.index < self.memory@.len()
    }

    /// A tape of `size` cells that all hold 0, the head on the first.
    pub fn new(size: TapeSize) -> (bank: Self)
        ensures
            bank@ == Tape::filled(size.value() as nat, 0u8),
            bank@.well_formed(),
    {
        let size = size.get();
        let bank = Self { memory: vec![0u8; size], index: 0 };
        proof {
            assert(bank.memory@ =~= Seq::new(size as nat, |i: int| 0u8));
        }
        bank
    }

    /// Adds 1 to the cell under the head; 255 becomes 0.
    pub fn increment(&mut self)
        ensures
            final(self)@ == old(self)@.with_current(old(self)@.current().wrapping_add(1)),
            final(self)@.well_formed(),
    {
        proof {
            use_type_invariant(&*self);
        }
        let value = self.memory[self.index].wrapping_add(1);
        self.memory[self.index] = value;
    }

    /// Takes 1 from the cell under the head; 0 becomes 255.
    pub fn decrement(&mut self)
        ensures
            final(self)@ == old(self)@.with_current(old(self)@.current().wrapping_sub(1)),
            final(self)@.well_formed(),
    {
        proof {
            use_type_invariant(&*self);
        }
        let value = self.memory[self.index].wrapping_sub(1);
        self.memory[self.index] = value;
    }

    /// Moves the head one cell back; from the first cell to the last.
    pub fn move_left(&mut self)
        ensures
            final(self)@ == old(self)@.moved(-1),
            final(self)@.well_formed(),
    {
        proof {
            use_type_invariant(&*self);
        }
        if self.index == 0 {
            self.index = self.memory.len() - 1;
        } else {
            self.index = self.index - 1;
        }
        proof {
            let size = self.memory@.len() as int;
            let before = old(self).index as int;
            if before == 0 {
                vstd::arithmetic::div_mod::lemma_fundamental_div_mod_converse(
                    before - 1,
                    size,
                    -1,
                    size - 1,
                );
            } else {
                vstd::arithmetic::div_mod::lemma_fundamental_div_mod_converse(
                    before - 1,
                    size,
                    0,
                    before - 1,
                );
            }
        }
    }

    /// Moves the head one cell on; from the last cell to the first.
    pub fn move_right(&mut self)
        ensures
            final(self)@ == old(self)@.moved(1),
            final(self)@.well_formed(),
    {
        proof {
            use_type_invariant(&*self);
        }
        if self.index == self.memory.len() - 1 {
            self.index = 0;
        } else {
            self.index = self.index + 1;
        }
        proof {
            let size = self.memory@.len() as int;
            let before = old(self).index as int;
            if before == size - 1 {
                vstd::arithmetic::div_mod::lemma_fundamental_div_mod_converse(
                    before + 1,
                    size,
                    1,
                    0,
                );
            } else {
                vstd::arithmetic::div_mod::lemma_fundamental_div_mod_converse(
                    before + 1,
                    size,
                    0,
                    before + 1,
                );
            }
        }
    }

    /// Stores what reading `value` gives in the cell under the head: the
    /// ordinal of `value`, or 0 where that is 127 or more.
    pub fn input(&mut self, value: char)
        ensures
            final(self)@ == old(self)@.with_current(stored(value)),
            final(self)@.well_formed(),
    {
        proof {
            use_type_invariant(&*self);
        }
        let ordinal = value as u32;
        if ordinal >= 127 {
            self.memory[self.index] = 0;
        } else {
            self.memory[self.index] = ordinal as u8;
        }
    }

    /// The cell under the head, as the character with that ordinal.
    pub fn output(&self) -> (c: char)
        ensures
            c == self@.current() as char,
            self@.well_formed(),
    {
        proof {
            use_type_invariant(self);
        }
        self.memory[self.index] as char
    }

    /// The cell at `at`, counted from the first; `None` past the last.
    pub fn cell(&self, at: usize) -> (cell: Option<u8>)
        ensures
            cell == if at < self@.cells.len() {
                Some(self@.cells[at as int])
            } else {
                None
            },
    {
        if at < self.memory.len() {
            Some(self.memory[at])
        } else {
            None
        }
    }

    /// Where the head stands, counted from the first cell.
    pub fn position(&self) -> (head: usize)
        ensures
            head == self@.head,
            self@.well_formed(),
    {
        proof {
            use_type_invariant(self);
        }
        self.index
    }

    /// How many cells the tape has.
    pub fn len(&self) -> (cells: usize)
        ensures
            cells == self@.cells.len(),
            cells > 0,
    {
        proof {
            use_type_invariant(self);
        }
        self.memory.len()
    }

    /// Whether the cell under the head holds 0.
    pub fn is_zero(&self) -> (zero: bool)
        ensures
            zero == (self@.current() == 0),
            self@.well_formed(),
    {
        proof {
            use_type_invariant(self);
        }
        self.memory[self.index] == 0
    }
}

/// The tape after `times` increments of the cell under the head.
pub open spec fn incremented(tape: Tape<u8>, times: nat) -> Tape<u8>
    decreases times,
{
    if times == 0 {
        tape
    } else {
        let before = incremented(tape, (times - 1) as nat);
        before.with_current(before.current().wrapping_add(1))
    }
}

/// Increments add up in the cell, modulo 256, and touch nothing else.
pub proof fn lemma_increments_add(tape: Tape<u8>, times: nat)
    requires
        tape.well_formed(),
    ensures
        incremented(tape, times) == tape.with_current(
            ((tape.current() + times) % 256) as u8,
        ),
    decreases times,
{
    if times == 0 {
        assert(tape.with_current(tape.current()) =~= tape);
    } else {
        lemma_increments_add(tape, (times - 1) as nat);
        let before = tape.with_current(((tape.current() + times - 1) % 256) as u8);
        assert(before.with_current(before.current().wrapping_add(1)) =~= tape.with_current(
            ((tape.current() + times) % 256) as u8,
        ));
    }
}

/// A cell wraps around: 256 increments leave the tape as it was.
pub proof fn lemma_increment_cycle(tape: Tape<u8>)
    requires
        tape.well_formed(),
    ensures
        incremented(tape, 256) == tape,
{
    lemma_increments_add(tape, 256);
    assert(tape.with_current(tape.current()) =~= tape);
}

/// What one instruction does to the machine, up to the point where the
/// counter moves on: the tape, the input and the output change as the
/// instruction says, and a jump leaves the counter on the partner of the bracket
/// it started from. `None` where the jump starts from a bracket without a
/// partner.
pub open spec fn basic_effect(
    program: Seq<BasicInstruction>,
    machine: Machine<u8>,
    instruction: BasicInstruction,
) -> Option<Machine<u8>> {
    match instruction {
        BasicInstruction::Increment => Some(
            Machine {
                tape: machine.tape.with_current(machine.tape.current().wrapping_add(1)),
                ..machine
            },
        ),
        BasicInstruction::Decrement => Some(
            Machine {
                tape: machine.tape.with_current(machine.tape.current().wrapping_sub(1)),
                ..machine
            },
        ),
        BasicInstruction::MoveLeft => Some(Machine { tape: machine.tape.moved(-1), ..machine }),
        BasicInstruction::MoveRight => Some(Machine { tape: machine.tape.moved(1), ..machine }),
        BasicInstruction::Input => Some(
            Machine {
                tape: machine.tape.with_current(stored(next_char(machine.input))),
                input: rest(machine.input),
                ..machine
            },
        ),
        BasicInstruction::Output => Some(
            Machine { output: machine.output.push(machine.tape.current() as char), ..machine },
        ),
        BasicInstruction::LoopEnter => if machine.tape.current() == 0 {
            match matching_exit(basic_shape(program), machine.counter) {
                Some(exit) => Some(Machine { counter: exit, ..machine }),
                None => None,
            }
        } else {
            Some(machine)
        },
        BasicInstruction::LoopExit => if machine.tape.current() != 0 {
            match matching_enter(basic_shape(program), machine.counter) {
                Some(enter) => Some(Machine { counter: enter, ..machine }),
                None => None,
            }
        } else {
            Some(machine)
        },
    }
}

/// One step of a run: the instruction under the counter takes effect, the
/// counter moves on by one, and the tally grows by one.
pub open spec fn basic_step(program: Seq<BasicInstruction>, machine: Machine<u8>) -> Option<
    Machine<u8>,
> {
    match basic_effect(program, machine, program[machine.counter]) {
        Some(after) => Some(
            Machine { counter: after.counter + 1, tally: after.tally + 1, ..after },
        ),
        None => None,
    }
}

/// A run of at most `budget` steps. It ends where the counter leaves the
/// program, without a fault; where a jump starts from a bracket without a
/// partner; or where the budget is spent.
pub open spec fn basic_run(
    program: Seq<BasicInstruction>,
    machine: Machine<u8>,
    budget: nat,
) -> Outcome<u8>
    decreases budget,
{
    if !(0 <= machine.counter < program.len()) {
        Outcome { machine, fault: None }
    } else if budget == 0 {
        Outcome { machine, fault: Some(Fault::OutOfBudget) }
    } else {
        match basic_step(program, machine) {
            Some(after) => basic_run(program, after, (budget - 1) as nat),
            None => Outcome {
                machine,
                fault: Some(Fault::Unbalanced { index: machine.counter as usize }),
            },
        }
    }
}

/// The basic interpreter: a tape, and the position in the program.
pub struct BasicInterpreter {
    memory: BasicMemoryBank,
    index: usize,
}

impl BasicInterpreter {
    /// The machine that the interpreter is, with `input` left to read, `output`
    /// written and `tally` instructions executed.
    pub open spec fn machine(&self, input: Seq<char>, output: Seq<char>, tally: nat) -> Machine<
        u8,
    > {
        Machine { tape: self.tape(), counter: self.counter(), input, output, tally }
    }

    /// An interpreter with a tape of `memory_size` cells that all hold 0.
    pub fn new(memory_size: TapeSize) -> (interpreter: Self)
        ensures
            interpreter.tape() == Tape::filled(memory_size.value() as nat, 0u8),
            interpreter.tape().well_formed(),
            interpreter.counter() == 0,
    {
        Self { memory: BasicMemoryBank::new(memory_size), index: 0 }
    }

    /// The tape, to look at.
    pub fn memory(&self) -> (memory: &BasicMemoryBank)
        ensures
            memory@ == self.tape(),
    {
        &self.memory
    }

    /// Runs `program` from its first instruction, on the tape as the last run
    /// left it, for at most `budget` instructions. What the run reads it takes
    /// from `input`, what it writes it appends to `output`. Returns the number
    /// of instructions executed where the run reached the end of the program,
    /// and the fault where it did not; up to there the run has taken effect.
    #[verifier::loop_isolation(false)]
    pub fn execute_bounded<P: Program<BasicInstruction>>(
        &mut self,
        program: &P,
        input: &str,
        output: &mut Vec<char>,
        budget: usize,
    ) -> (tally: Result<usize, Fault>)
        ensures
            ({
                let start = Machine {
                    tape: old(self).tape(),
                    counter: 0,
                    input: input@,
                    output: old(output)@,
                    tally: 0,
                };
                let end = basic_run(program.instructions(), start, budget as nat);
                &&& final(self).tape() == end.machine.tape
                &&& final(self).counter() == end.machine.counter
                &&& final(output)@ == end.machine.output
                &&& tally == match end.fault {
                    None => Ok::<usize, Fault>(end.machine.tally as usize),
                    Some(fault) => Err::<usize, Fault>(fault),
                }
                &&& end.machine.tally <= budget
            }),
            final(self).tape().well_formed(),
    {
        proof {
            use_type_invariant(&self.memory);
        }
        self.index = 0;
        let mut instruction_count: usize = 0;
        let mut input = InputBuffer::new(input);
        let ghost instructions = program.instructions();
        let ghost start = Machine {
            tape: self.tape(),
            counter: 0,
            input: input@,
            output: output@,
            tally: 0,
        };
        loop
            invariant
                instructions == program.instructions(),
                instruction_count <= budget,
                self.tape().well_formed(),
                basic_run(instructions, start, budget as nat) == basic_run(
                    instructions,
                    self.machine(input@, output@, instruction_count as nat),
                    (budget - instruction_count) as nat,
                ),
            decreases budget - instruction_count,
        {
            let ghost now = self.machine(input@, output@, instruction_count as nat);
            match program.get(self.index) {
                None => {
                    return Ok(instruction_count);
                },
                Some(instruction) => {
                    if instruction_count >= budget {
                        return Err(Fault::OutOfBudget);
                    }
                    proof {
                        lemma_effect_keeps_tally(instructions, now, instruction);
                    }
                    match self.execute_instruction(&instruction, program, &mut input, output) {
                        Ok(()) => {
                            proof {
                                let after = basic_effect(instructions, now, instruction)->0;
                                assert(self.counter() == after.counter);
                                lemma_effect_stays_inside(instructions, now, instruction);
                            }
                            self.index = self.index + 1;
                            instruction_count += 1;
                            proof {
                                assert(self.machine(input@, output@, instruction_count as nat)
                                    == basic_step(instructions, now)->0);
                            }
                        },
                        Err(fault) => {
                            return Err(fault);
                        },
                    }
                },
            }
        }
    }

    /// Executes `instruction` against the tape, takes what it reads from
    /// `input` and appends what it writes to `output`. A jump leaves the
    /// interpreter on the partner of the bracket it stands on; where that
    /// bracket has none, the fault is returned and nothing has changed.
    pub fn execute_instruction<P: Program<BasicInstruction>>(
        &mut self,
        instruction: &BasicInstruction,
        program: &P,
        input: &mut InputBuffer,
        output: &mut Vec<char>,
    ) -> (done: Result<(), Fault>)
        ensures
            final(self).tape().well_formed(),
            match basic_effect(
                program.instructions(),
                old(self).machine(old(input)@, old(output)@, 0),
                *instruction,
            ) {
                Some(after) => done is Ok && final(self).machine(final(input)@, final(output)@, 0)
                    == after,
                None => {
                    &&& done == Err::<(), Fault>(
                        Fault::Unbalanced { index: old(self).counter() as usize },
                    )
                    &&& final(self).machine(final(input)@, final(output)@, 0) == old(
                        self,
                    ).machine(old(input)@, old(output)@, 0)
                },
            },
    {
        match instruction {
            BasicInstruction::Increment => {
                self.memory.increment();
                Ok(())
            },
            BasicInstruction::Decrement => {
                self.memory.decrement();
                Ok(())
            },
            BasicInstruction::MoveLeft => {
                self.memory.move_left();
                Ok(())
            },
            BasicInstruction::MoveRight => {
                self.memory.move_right();
                Ok(())
            },
            BasicInstruction::Input => {
                let c = input.take();
                self.memory.input(c);
                Ok(())
            },
            BasicInstruction::Output => {
                output.push(self.memory.output());
                Ok(())
            },
            BasicInstruction::LoopEnter => {
                if self.memory.is_zero() {
                    self.skip_loop(program)
                } else {
                    Ok(())
                }
            },
            BasicInstruction::LoopExit => {
                if !self.memory.is_zero() {
                    self.reverse_loop(program)
                } else {
                    Ok(())
                }
            },
        }
    }

    /// Scans forward from behind the bracket the interpreter stands on, with
    /// one loop open, and stops on the exit that closes it. Where the program
    /// ends first, the fault is returned and the interpreter has not moved.
    #[verifier::loop_isolation(false)]
    pub fn skip_loop<P: Program<BasicInstruction>>(&mut self, program: &P) -> (done: Result<
        (),
        Fault,
    >)
        ensures
            final(self).tape() == old(self).tape(),
            final(self).tape().well_formed(),
            match matching_exit(basic_shape(program.instructions()), old(self).counter()) {
                Some(exit) => done is Ok && final(self).counter() == exit,
                None => {
                    &&& done == Err::<(), Fault>(
                        Fault::Unbalanced { index: old(self).counter() as usize },
                    )
                    &&& final(self).counter() == old(self).counter()
                },
            },
    {
        proof {
            use_type_invariant(&self.memory);
        }
        let ghost shape = basic_shape(program.instructions());
        let length = program.len();
        let starting_index = self.index;
        if starting_index >= length {
            return Err(Fault::Unbalanced { index: starting_index });
        }
        let mut at: usize = starting_index;
        let mut depth_left: usize = 1;
        while depth_left > 0
            invariant
                starting_index <= at < length,
                depth_left == depth(shape, at + 1) - depth(shape, starting_index + 1) + 1,
                depth_left <= at - starting_index + 1,
                depth_left > 0 ==> forall|k: int|
                    starting_index < k <= at + 1 ==> #[trigger] depth(shape, k) >= depth(
                        shape,
                        starting_index + 1,
                    ),
                depth_left == 0 ==> starting_index < at && forall|k: int|
                    starting_index < k <= at ==> #[trigger] depth(shape, k) >= depth(
                        shape,
                        starting_index + 1,
                    ),
            decreases length - at,
        {
            if at + 1 >= length {
                proof {
                    assert forall|j: int| !is_exit_of(shape, starting_index as int, j) by {
                        if is_exit_of(shape, starting_index as int, j) {
                            assert(depth(shape, j + 1) >= depth(shape, starting_index + 1));
                        }
                    }
                }
                return Err(Fault::Unbalanced { index: starting_index });
            }
            at += 1;
            proof {
                assert(depth(shape, at + 1) == depth(shape, at as int) + shape[at as int]);
            }
            match program.get(at) {
                Some(BasicInstruction::LoopEnter) => {
                    depth_left += 1;
                },
                Some(BasicInstruction::LoopExit) => {
                    depth_left -= 1;
                },
                _ => {},
            }
        }
        proof {
            assert(is_exit_of(shape, starting_index as int, at as int));
            lemma_exit_unique(shape, starting_index as int, at as int);
        }
        self.index = at;
        Ok(())
    }

    /// Scans back from before the bracket the interpreter stands on, with one
    /// loop open, and stops on the entry that opened it. Where the program
    /// begins first, the fault is returned and the interpreter has not moved.
    #[verifier::loop_isolation(false)]
    pub fn reverse_loop<P: Program<BasicInstruction>>(&mut self, program: &P) -> (done: Result<
        (),
        Fault,
    >)
        ensures
            final(self).tape() == old(self).tape(),
            final(self).tape().well_formed(),
            match matching_enter(basic_shape(program.instructions()), old(self).counter()) {
                Some(enter) => done is Ok && final(self).counter() == enter,
                None => {
                    &&& done == Err::<(), Fault>(
                        Fault::Unbalanced { index: old(self).counter() as usize },
                    )
                    &&& final(self).counter() == old(self).counter()
                },
            },
    {
        proof {
            use_type_invariant(&self.memory);
        }
        let ghost shape = basic_shape(program.instructions());
        let length = program.len();
        let starting_index = self.index;
        if starting_index >= length {
            return Err(Fault::Unbalanced { index: starting_index });
        }
        let mut at: usize = starting_index;
        let mut depth_left: usize = 1;
        while depth_left > 0
            invariant
                at <= starting_index < length,
                depth_left == depth(shape, at as int) - depth(shape, starting_index as int) + 1,
                depth_left <= starting_index - at + 1,
                depth_left > 0 ==> forall|k: int|
                    at <= k <= starting_index ==> #[trigger] depth(shape, k) >= depth(
                        shape,
                        starting_index as int,
                    ),
                depth_left == 0 ==> at < starting_index && forall|k: int|
                    at < k <= starting_index ==> #[trigger] depth(shape, k) >= depth(
                        shape,
                        starting_index as int,
                    ),
            decreases at,
        {
            if at == 0 {
                proof {
                    assert forall|i: int| !is_enter_of(shape, starting_index as int, i) by {
                        if is_enter_of(shape, starting_index as int, i) {
                            assert(depth(shape, i) >= depth(shape, starting_index as int));
                        }
                    }
                }
                return Err(Fault::Unbalanced { index: starting_index });
            }
            at -= 1;
            proof {
                assert(depth(shape, at + 1) == depth(shape, at as int) + shape[at as int]);
            }
            match program.get(at) {
                Some(BasicInstruction::LoopEnter) => {
                    depth_left -= 1;
                },
                Some(BasicInstruction::LoopExit) => {
                    depth_left += 1;
                },
                _ => {},
            }
        }
        proof {
            assert(is_enter_of(shape, starting_index as int, at as int));
            lemma_enter_unique(shape, starting_index as int, at as int);
        }
        self.index = at;
        Ok(())
    }
}

impl Interpreter<BasicInstruction> for BasicInterpreter {
    type Cell = u8;

    closed spec fn tape(&self) -> Tape<u8> {
        self.memory@
    }

    closed spec fn counter(&self) -> int {
        self.index as int
    }

    open spec fn run(program: Seq<BasicInstruction>, start: Machine<u8>, budget: nat) -> Outcome<
        u8,
    > {
        basic_run(program, start, budget)
    }

    fn execute_program<P: Program<BasicInstruction>>(
        &mut self,
        program: &P,
        input: &str,
        output: &mut Vec<char>,
    ) -> (tally: Result<usize, Fault>) {
        self.execute_bounded(program, input, output, usize::MAX)
    }
}

/// What an instruction does to the machine does not depend on the tally, and
/// leaves the tally as it is.
pub proof fn lemma_effect_keeps_tally(
    program: Seq<BasicInstruction>,
    machine: Machine<u8>,
    instruction: BasicInstruction,
)
    ensures
        match basic_effect(program, Machine { tally: 0, ..machine }, instruction) {
            Some(after) => basic_effect(program, machine, instruction) == Some(
                Machine { tally: machine.tally, ..after },
            ),
            None => basic_effect(program, machine, instruction) is None,
        },
{
}

/// An instruction leaves the counter where it is, or on a bracket of the
/// program.
pub proof fn lemma_effect_stays_inside(
    program: Seq<BasicInstruction>,
    machine: Machine<u8>,
    instruction: BasicInstruction,
)
    requires
        0 <= machine.counter < program.len(),
    ensures
        match basic_effect(program, machine, instruction) {
            Some(after) => 0 <= after.counter < program.len(),
            None => true,
        },
{
    let shape = basic_shape(program);
    match matching_exit(shape, machine.counter) {
        Some(exit) => {
            assert(is_exit_of(shape, machine.counter, exit));
        },
        None => {},
    }
    match matching_enter(shape, machine.counter) {
        Some(enter) => {
            assert(is_enter_of(shape, machine.counter, enter));
        },
        None => {},
    }
}

} // verus!
