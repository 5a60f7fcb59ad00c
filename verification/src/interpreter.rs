//! Running a program: the tape, the machine, and what a run can end in.

use crate::program::Program;
use vstd::arithmetic::div_mod::{
    lemma_add_mod_noop, lemma_add_mod_noop_right, lemma_fundamental_div_mod_converse,
    lemma_mod_bound, lemma_mod_twice, lemma_small_mod,
};
use vstd::prelude::*;

pub mod basic;
pub mod semicolon_compressed;

verus! {

/// The tape as mathematics: its cells, and the position of its head.
#[verifier::ext_equal]
pub struct Tape<C> {
    pub cells: Seq<C>,
    pub head: int,
}

impl<C> Tape<C> {
    /// The tape has a cell, and the head stands on one.
    pub open spec fn well_formed(self) -> bool {
        0 <= self.head < self.cells.len()
    }

    /// A tape of `size` cells that all hold `value`, the head on the first.
    pub open spec fn filled(size: nat, value: C) -> Self {
        Tape { cells: Seq::new(size, |i: int| value), head: 0 }
    }

    /// The cell under the head.
    pub open spec fn current(self) -> C {
        self.cells[self.head]
    }

    /// The tape with `value` in the cell under the head.
    pub open spec fn with_current(self, value: C) -> Self {
        Tape { cells: self.cells.update(self.head, value), head: self.head }
    }

    /// The tape with the head `delta` cells further on, around the ends.
    pub open spec fn moved(self, delta: int) -> Self {
        Tape { cells: self.cells, head: (self.head + delta) % (self.cells.len() as int) }
    }

    /// The tape after `steps` moves of one cell each, all of them forward or
    /// all of them back.
    pub open spec fn walked(self, steps: nat, forward: bool) -> Self
        decreases steps,
    {
        if steps == 0 {
            self
        } else {
            self.walked((steps - 1) as nat, forward).moved(
                if forward {
                    1
                } else {
                    -1
                },
            )
        }
    }
}

/// Two moves in a row are one move by the sum, and a move leaves the head on
/// the tape.
pub proof fn lemma_moves_add<C>(tape: Tape<C>, first: int, second: int)
    requires
        tape.well_formed(),
    ensures
        tape.moved(first).well_formed(),
        tape.moved(first).moved(second) == tape.moved(first + second),
{
    let size = tape.cells.len() as int;
    lemma_mod_bound(tape.head + first, size);
    lemma_add_mod_noop(tape.head + first, second, size);
    lemma_add_mod_noop_right((tape.head + first) % size, second, size);
    lemma_mod_twice(tape.head + first, size);
}

/// Single steps add up: walking is moving by the number of steps.
pub proof fn lemma_walk_is_move<C>(tape: Tape<C>, steps: nat, forward: bool)
    requires
        tape.well_formed(),
    ensures
        tape.walked(steps, forward).well_formed(),
        tape.walked(steps, forward) == tape.moved(
            if forward {
                steps as int
            } else {
                -(steps as int)
            },
        ),
    decreases steps,
{
    let size = tape.cells.len() as int;
    if steps == 0 {
        lemma_small_mod(tape.head as nat, size as nat);
    } else {
        lemma_walk_is_move(tape, (steps - 1) as nat, forward);
        if forward {
            lemma_moves_add(tape, steps - 1, 1);
        } else {
            lemma_moves_add(tape, -(steps - 1), -1);
        }
    }
}

/// The tape is a circle. As many steps as the tape has cells, all in one
/// direction, bring the head back to where it was; one step more leaves it
/// where a single step does, which is where it was on a tape of one cell, and
/// there only.
pub proof fn lemma_walk_around<C>(tape: Tape<C>, forward: bool)
    requires
        tape.well_formed(),
    ensures
        tape.walked(tape.cells.len(), forward) == tape,
        tape.walked(tape.cells.len() + 1, forward) == tape.walked(1, forward),
        tape.walked(tape.cells.len() + 1, forward) == tape <==> tape.cells.len() == 1,
{
    let size = tape.cells.len() as int;
    let turn = if forward {
        size
    } else {
        -size
    };
    let step = if forward {
        1int
    } else {
        -1int
    };
    lemma_walk_is_move(tape, size as nat, forward);
    lemma_walk_is_move(tape, (size + 1) as nat, forward);
    lemma_walk_is_move(tape, 1, forward);
    lemma_fundamental_div_mod_converse(tape.head + turn, size, step, tape.head);
    lemma_moves_add(tape, turn, step);
    assert(tape.moved(turn) == tape);
    assert(tape.moved(turn + step) == tape.moved(step));
    if size == 1 {
        lemma_fundamental_div_mod_converse(tape.head + step, size, step, 0);
    } else if forward {
        if tape.head + 1 < size {
            lemma_fundamental_div_mod_converse(tape.head + 1, size, 0, tape.head + 1);
        } else {
            lemma_fundamental_div_mod_converse(tape.head + 1, size, 1, 0);
        }
    } else {
        if tape.head >= 1 {
            lemma_fundamental_div_mod_converse(tape.head - 1, size, 0, tape.head - 1);
        } else {
            lemma_fundamental_div_mod_converse(tape.head - 1, size, -1, size - 1);
        }
    }
}

/// The cell value that reading `c` stores: its ordinal, or 0 from 127 on.
pub open spec fn stored(c: char) -> u8 {
    if c as u32 >= 127 {
        0
    } else {
        c as u8
    }
}

/// The character that is read next: the first of `input`, or NUL when none
/// is left.
pub open spec fn next_char(input: Seq<char>) -> char {
    if input.len() > 0 {
        input[0]
    } else {
        '\0'
    }
}

/// What is left of `input` when one character was read.
pub open spec fn rest(input: Seq<char>) -> Seq<char> {
    if input.len() > 0 {
        input.drop_first()
    } else {
        input
    }
}

/// A machine in the middle of a run.
#[verifier::ext_equal]
pub struct Machine<C> {
    /// The tape.
    pub tape: Tape<C>,
    /// The position of the instruction that is executed next.
    pub counter: int,
    /// The input that was not read yet.
    pub input: Seq<char>,
    /// The output so far.
    pub output: Seq<char>,
    /// The instructions executed so far, counted in primitive operations.
    pub tally: nat,
}

/// Why a run ended without reaching the end of its program.
#[derive(Copy, Clone, Eq, PartialEq, Debug)]
pub enum Fault {
    /// The run had to jump from the bracket at `index`, which has no partner.
    Unbalanced { index: usize },
    /// What was left of the budget does not pay for the next instruction.
    OutOfBudget,
}

/// How a run ended: the machine as it was left, and the fault, if any.
pub struct Outcome<C> {
    pub machine: Machine<C>,
    pub fault: Option<Fault>,
}

/// The number of cells of a tape: never zero.
#[derive(Copy, Clone, Debug)]
pub struct TapeSize {
    cells: usize,
}

impl TapeSize {
    /// The number of cells.
    pub closed spec fn value(self) -> usize {
        self.cells
    }

    #[verifier::type_invariant]
    spec fn positive(self) -> bool {
        self.cells > 0
    }

    /// The size of `cells` cells, where that is a size: `None` for zero.
    pub fn new(cells: usize) -> (size: Option<Self>)
        ensures
            size is Some <==> cells > 0,
            size is Some ==> size->0.value() == cells,
    {
        if cells == 0 {
            None
        } else {
            Some(TapeSize { cells })
        }
    }

    /// The number of cells.
    pub fn get(self) -> (cells: usize)
        ensures
            cells == self.value(),
            cells > 0,
    {
        proof {
            use_type_invariant(self);
        }
        self.cells
    }
}

/// The input of one run, read front to back.
pub struct InputBuffer {
    chars: Vec<char>,
    next: usize,
}

impl View for InputBuffer {
    type V = Seq<char>;

    /// What was not read yet.
    closed spec fn view(&self) -> Seq<char> {
        if self.next <= self.chars@.len() {
            self.chars@.skip(self.next as int)
        } else {
            Seq::empty()
        }
    }
}

impl InputBuffer {
    /// A buffer that holds the characters of `text`.
    pub fn new(text: &str) -> (buffer: Self)
        ensures
            buffer@ == text@,
    {
        let mut chars: Vec<char> = Vec::new();
        for c in it: text.chars()
            invariant
                it.seq() == text@,
                chars@ == text@.take(it.index() as int),
        {
            chars.push(c);
            proof {
                assert(text@.take(it.index() + 1) =~= text@.take(it.index() as int).push(c));
            }
        }
        proof {
            assert(text@.take(text@.len() as int) =~= text@);
            assert(chars@.skip(0) =~= chars@);
        }
        InputBuffer { chars, next: 0 }
    }

    /// Reads one character: the first that was not read yet, which then counts
    /// as read, or NUL when the buffer is drained.
    pub fn take(&mut self) -> (c: char)
        ensures
            c == next_char(old(self)@),
            final(self)@ == rest(old(self)@),
    {
        if self.next < self.chars.len() {
            let c = self.chars[self.next];
            proof {
                assert(self.chars@.skip(self.next as int).drop_first() =~= self.chars@.skip(
                    self.next + 1,
                ));
            }
            self.next = self.next + 1;
            c
        } else {
            proof {
                assert(self@.len() == 0);
            }
            '\0'
        }
    }
}

/// An interpreter for programs of any type that is a stream of `T`.
pub trait Interpreter<T> {
    /// What a cell of the interpreter's tape holds.
    type Cell;

    /// The tape.
    spec fn tape(&self) -> Tape<Self::Cell>;

    /// The position of the instruction that is executed next.
    spec fn counter(&self) -> int;

    /// How a run of `program` ends that starts from `start` and has `budget`
    /// to spend.
    spec fn run(program: Seq<T>, start: Machine<Self::Cell>, budget: nat) -> Outcome<Self::Cell>;

    /// Runs `program` from its first instruction, on the tape as the last run
    /// left it, with the largest budget there is. What the run reads it takes
    /// from `input`, what it writes it appends to `output`. Returns the tally
    /// where the run reached the end of the program, and the fault where it
    /// did not; up to there the run has taken effect.
    fn execute_program<P: Program<T>>(
        &mut self,
        program: &P,
        input: &str,
        output: &mut Vec<char>,
    ) -> (tally: Result<usize, Fault>)
        ensures
            ({
                let end = Self::run(
                    program.instructions(),
                    Machine {
                        tape: old(self).tape(),
                        counter: 0,
                        input: input@,
                        output: old(output)@,
                        tally: 0,
                    },
                    usize::MAX as nat,
                );
                &&& final(self).tape() == end.machine.tape
                &&& final(self).counter() == end.machine.counter
                &&& final(output)@ == end.machine.output
                &&& tally == match end.fault {
                    None => Ok::<usize, Fault>(end.machine.tally as usize),
                    Some(fault) => Err::<usize, Fault>(fault),
                }
            }),
    ;
}

/// An interpreter for programs of the one type `T`.
pub trait ProgramInterpreter<T> {
    /// What a cell of the interpreter's tape holds.
    type Cell;

    /// The tape.
    spec fn tape(&self) -> Tape<Self::Cell>;

    /// The position of the instruction that is executed next.
    spec fn counter(&self) -> int;

    /// How a run of `program` ends that starts from `start` and has `budget`
    /// to spend.
    spec fn run(program: &T, start: Machine<Self::Cell>, budget: nat) -> Outcome<Self::Cell>;

    /// Runs `program` from its first instruction, on the tape as the last run
    /// left it, with the largest budget there is. What the run reads it takes
    /// from `input`, what it writes it appends to `output`. Returns the tally
    /// where the run reached the end of the program, and the fault where it
    /// did not; up to there the run has taken effect.
    fn execute_program(&mut self, program: &T, input: &str, output: &mut Vec<char>) -> (tally:
        Result<usize, Fault>)
        ensures
            ({
                let end = Self::run(
                    program,
                    Machine {
                        tape: old(self).tape(),
                        counter: 0,
                        input: input@,
                        output: old(output)@,
                        tally: 0,
                    },
                    usize::MAX as nat,
                );
                &&& final(self).tape() == end.machine.tape
                &&& final(self).counter() == end.machine.counter
                &&& final(output)@ == end.machine.output
                &&& tally == match end.fault {
                    None => Ok::<usize, Fault>(end.machine.tally as usize),
                    Some(fault) => Err::<usize, Fault>(fault),
                }
            }),
    ;
}

} // verus!
