//! The two dialects agree on programs without loops.
//!
//! Without a loop nothing ever tests a cell for zero, and the sixteen bits of a
//! compressed cell carry the eight bits of a basic cell in their low half. So
//! both interpreters write the same output, as long as the merge pass kept every
//! delta exact; and they count the same tally if, and only if, no run of the
//! source undoes part of itself.

use crate::brackets::{is_paired, is_unmatched, jump_table};
use crate::interpreter::basic::{basic_effect, basic_run, basic_step};
use crate::interpreter::semicolon_compressed::{
    compressed_effect, compressed_run, compressed_step, cost_of, lemma_wrapped_cell, low_byte,
    price_of, wrapped_cell,
};
use crate::interpreter::{lemma_moves_add, Machine, Outcome, Tape};
use crate::program::basic::{instruction_of, parsed, BasicInstruction};
use crate::program::semicolon_compressed::{
    annotated, compiled, merged, shape_of, tokenized, CompressedInstruction,
    CompressedInstructionStage1,
};
use vstd::arithmetic::div_mod::{
    lemma_add_mod_noop, lemma_fundamental_div_mod, lemma_mod_bound, lemma_mod_multiples_vanish,
    lemma_mod_twice,
};
use vstd::prelude::*;

verus! {

/// No character of the text is a bracket.
pub open spec fn is_loop_free(source: Seq<char>) -> bool {
    forall|i: int| 0 <= i < source.len() ==> source[i] != '[' && source[i] != ']'
}

/// How many tokens, counted back from the end of the stream, the merge pass
/// folds into the last instruction it gives.
pub open spec fn run_length(tokens: Seq<CompressedInstructionStage1>) -> nat
    decreases tokens.len(),
{
    if tokens.len() == 0 {
        0
    } else if tokens.len() >= 2 && tokens[tokens.len() - 2].absorbs(tokens.last()) {
        run_length(tokens.drop_last()) + 1
    } else {
        1
    }
}

/// No run that the merge pass folds has 2^31 tokens or more: the delta it is
/// folded into is the sum of the run, not wrapped.
pub open spec fn is_short(tokens: Seq<CompressedInstructionStage1>) -> bool {
    forall|k: int| 0 <= k <= tokens.len() ==> run_length(#[trigger] tokens.take(k)) < 0x8000_0000
}

/// Every run that the merge pass folds repeats one token: none undoes part of
/// itself.
pub open spec fn is_uniform(tokens: Seq<CompressedInstructionStage1>) -> bool {
    forall|i: int, j: int|
        0 <= i && j == i + 1 && j < tokens.len() && (#[trigger] tokens[i]).absorbs(
            #[trigger] tokens[j],
        ) ==> tokens[i] == tokens[j]
}

/// A basic tape and a compressed tape agree: the head stands on the same cell,
/// and each basic cell holds the low eight bits of the compressed cell.
pub open spec fn tapes_agree(basic: Tape<u8>, compressed: Tape<i16>) -> bool {
    &&& basic.well_formed()
    &&& basic.head == compressed.head
    &&& basic.cells.len() == compressed.cells.len()
    &&& forall|i: int|
        0 <= i < basic.cells.len() ==> #[trigger] basic.cells[i] == low_byte(compressed.cells[i])
}

/// Two machines agree: their tapes do, they have the same input left, and
/// they have written the same output.
pub open spec fn machines_agree(basic: Machine<u8>, compressed: Machine<i16>) -> bool {
    &&& tapes_agree(basic.tape, compressed.tape)
    &&& basic.input == compressed.input
    &&& basic.output == compressed.output
}

/// How often 65536 goes into what separates `value` from the cell value that
/// stands for it.
proof fn turns_of(value: int) -> (turns: int)
    ensures
        value == turns * 0x1_0000 + wrapped_cell(value),
{
    lemma_fundamental_div_mod(value, 0x1_0000);
    lemma_mod_bound(value, 0x1_0000);
    if value % 0x1_0000 >= 0x8000 {
        value / 0x1_0000 + 1
    } else {
        value / 0x1_0000
    }
}

/// Changing a cell twice is changing it once by the sum.
proof fn lemma_changes_add(cell: i16, first: int, second: int)
    ensures
        wrapped_cell(wrapped_cell(cell + first) + second) == wrapped_cell(cell + first + second),
{
    let inner = turns_of(cell + first);
    let outer = turns_of(wrapped_cell(cell + first) + second);
    lemma_wrapped_cell(
        cell + first + second,
        inner + outer,
        wrapped_cell(wrapped_cell(cell + first) + second) as int,
    );
}

/// The low eight bits of a changed cell are the low eight bits of the cell,
/// changed by as much, modulo 256.
proof fn lemma_low_byte_of_change(cell: i16, delta: int)
    ensures
        low_byte(wrapped_cell(cell + delta)) == ((low_byte(cell) + delta) % 256) as u8,
{
    let turns = turns_of(cell + delta);
    let changed = wrapped_cell(cell + delta) as int;
    lemma_mod_bound(cell as int, 256);
    lemma_mod_bound(changed, 256);
    assert(changed % 256 == (cell + delta) % 256) by {
        assert(cell + delta == 256 * (turns * 256) + changed);
        lemma_mod_multiples_vanish(turns * 256, changed, 256);
    }
    assert((cell + delta) % 256 == ((cell as int) % 256 + delta) % 256) by {
        lemma_add_mod_noop(cell as int, delta, 256);
        lemma_add_mod_noop((cell as int) % 256, delta, 256);
        lemma_mod_twice(cell as int, 256);
    }
}

/// The token that the compressed dialect has for a basic instruction.
spec fn twin(instruction: BasicInstruction) -> CompressedInstructionStage1 {
    match instruction {
        BasicInstruction::Increment => CompressedInstructionStage1::Change(1),
        BasicInstruction::Decrement => CompressedInstructionStage1::Change(-1i32),
        BasicInstruction::MoveLeft => CompressedInstructionStage1::Move(-1i32),
        BasicInstruction::MoveRight => CompressedInstructionStage1::Move(1),
        BasicInstruction::Input => CompressedInstructionStage1::Input,
        BasicInstruction::Output => CompressedInstructionStage1::Output,
        BasicInstruction::LoopEnter => CompressedInstructionStage1::LoopEnter,
        BasicInstruction::LoopExit => CompressedInstructionStage1::LoopExit,
    }
}

/// Machines that agree still agree when each has executed its form of one
/// instruction that is no bracket.
proof fn lemma_effects_agree(
    program: Seq<BasicInstruction>,
    basic: Machine<u8>,
    compressed: Machine<i16>,
    instruction: BasicInstruction,
    target: usize,
)
    requires
        machines_agree(basic, compressed),
        instruction.nesting() == 0,
    ensures
        basic_effect(program, basic, instruction) is Some,
        machines_agree(
            basic_effect(program, basic, instruction)->0,
            compressed_effect(compressed, twin(instruction).resolved(target)),
        ),
        basic_effect(program, basic, instruction)->0.counter == basic.counter,
        basic_effect(program, basic, instruction)->0.tally == basic.tally,
        compressed_effect(compressed, twin(instruction).resolved(target)).counter
            == compressed.counter,
        compressed_effect(compressed, twin(instruction).resolved(target)).tally
            == compressed.tally,
{
    let cell = compressed.tape.current();
    assert(basic.tape.current() == low_byte(cell));
    match instruction {
        BasicInstruction::Increment => {
            lemma_low_byte_of_change(cell, 1);
        },
        BasicInstruction::Decrement => {
            lemma_low_byte_of_change(cell, -1);
        },
        BasicInstruction::MoveLeft => {
            lemma_moves_add(basic.tape, -1, 0);
        },
        BasicInstruction::MoveRight => {
            lemma_moves_add(basic.tape, 1, 0);
        },
        _ => {},
    }
}

/// The machine after the first `steps` instructions of a program in which
/// nothing jumps.
spec fn basic_straight(program: Seq<BasicInstruction>, start: Machine<u8>, steps: nat) -> Machine<
    u8,
>
    decreases steps,
{
    if steps == 0 {
        start
    } else {
        basic_step(program, basic_straight(program, start, (steps - 1) as nat))->0
    }
}

/// The machine after the first `steps` instructions of a program in which
/// nothing jumps.
spec fn compressed_straight(
    program: Seq<CompressedInstruction>,
    start: Machine<i16>,
    steps: nat,
) -> Machine<i16>
    decreases steps,
{
    if steps == 0 {
        start
    } else {
        compressed_step(program, compressed_straight(program, start, (steps - 1) as nat))
    }
}

/// Nothing in the program is a bracket.
spec fn no_basic_loops(program: Seq<BasicInstruction>) -> bool {
    forall|i: int| 0 <= i < program.len() ==> (#[trigger] program[i]).nesting() == 0
}

/// Nothing in the program is a bracket.
spec fn no_compressed_loops(program: Seq<CompressedInstruction>) -> bool {
    forall|i: int| 0 <= i < program.len() ==> (#[trigger] program[i]).nesting() == 0
}

/// What the first `steps` instructions take from the budget.
spec fn spent(program: Seq<CompressedInstruction>, steps: nat) -> nat
    decreases steps,
{
    if steps == 0 {
        0
    } else {
        spent(program, (steps - 1) as nat) + price_of(program[steps - 1])
    }
}

/// Without loops, each step moves the counter on by one and the tally too.
proof fn lemma_basic_straight_counts(
    program: Seq<BasicInstruction>,
    start: Machine<u8>,
    steps: nat,
)
    requires
        no_basic_loops(program),
        start.counter == 0,
        steps <= program.len(),
    ensures
        basic_straight(program, start, steps).counter == steps,
        basic_straight(program, start, steps).tally == start.tally + steps,
    decreases steps,
{
    if steps > 0 {
        lemma_basic_straight_counts(program, start, (steps - 1) as nat);
        assert(program[steps - 1].nesting() == 0);
    }
}

/// Without loops, each step moves the counter on by one.
proof fn lemma_compressed_straight_counts(
    program: Seq<CompressedInstruction>,
    start: Machine<i16>,
    steps: nat,
)
    requires
        no_compressed_loops(program),
        start.counter == 0,
        steps <= program.len(),
    ensures
        compressed_straight(program, start, steps).counter == steps,
    decreases steps,
{
    if steps > 0 {
        lemma_compressed_straight_counts(program, start, (steps - 1) as nat);
        assert(program[steps - 1].nesting() == 0);
    }
}

/// Without loops, a run whose budget pays for what is left of the program
/// executes it instruction by instruction, to the end.
proof fn lemma_basic_run_is_straight(
    program: Seq<BasicInstruction>,
    start: Machine<u8>,
    done: nat,
    budget: nat,
)
    requires
        no_basic_loops(program),
        start.counter == 0,
        done <= program.len(),
        budget >= program.len() - done,
    ensures
        basic_run(program, basic_straight(program, start, done), budget) == (Outcome {
            machine: basic_straight(program, start, program.len()),
            fault: None,
        }),
    decreases program.len() - done,
{
    lemma_basic_straight_counts(program, start, done);
    if done < program.len() {
        assert(program[done as int].nesting() == 0);
        lemma_basic_run_is_straight(program, start, done + 1, (budget - 1) as nat);
    }
}

/// The budget is spent step by step.
proof fn lemma_spent_grows(program: Seq<CompressedInstruction>, earlier: nat, later: nat)
    requires
        earlier <= later,
    ensures
        spent(program, earlier) <= spent(program, later),
    decreases later - earlier,
{
    if earlier < later {
        lemma_spent_grows(program, earlier, (later - 1) as nat);
    }
}

/// Without loops, a run whose budget pays for what is left of the program
/// executes it instruction by instruction, to the end.
proof fn lemma_compressed_run_is_straight(
    program: Seq<CompressedInstruction>,
    start: Machine<i16>,
    done: nat,
    budget: nat,
)
    requires
        no_compressed_loops(program),
        start.counter == 0,
        done <= program.len(),
        budget >= spent(program, program.len()) - spent(program, done),
    ensures
        compressed_run(program, compressed_straight(program, start, done), budget) == (Outcome {
            machine: compressed_straight(program, start, program.len()),
            fault: None,
        }),
    decreases program.len() - done,
{
    lemma_compressed_straight_counts(program, start, done);
    if done < program.len() {
        assert(program[done as int].nesting() == 0);
        lemma_spent_grows(program, done + 1, program.len());
        lemma_compressed_run_is_straight(
            program,
            start,
            done + 1,
            (budget - price_of(program[done as int])) as nat,
        );
    }
}

/// What the first `steps` instructions take from the budget depends on
/// those instructions only.
proof fn lemma_spent_is_local(
    first: Seq<CompressedInstruction>,
    second: Seq<CompressedInstruction>,
    steps: nat,
)
    requires
        steps <= first.len(),
        steps <= second.len(),
        forall|i: int| 0 <= i < steps ==> first[i] == second[i],
    ensures
        spent(first, steps) == spent(second, steps),
    decreases steps,
{
    if steps > 0 {
        lemma_spent_is_local(first, second, (steps - 1) as nat);
    }
}

/// What the first `steps` instructions do depends on those instructions only.
proof fn lemma_basic_straight_is_local(
    first: Seq<BasicInstruction>,
    second: Seq<BasicInstruction>,
    start: Machine<u8>,
    steps: nat,
)
    requires
        no_basic_loops(first),
        no_basic_loops(second),
        start.counter == 0,
        steps <= first.len(),
        steps <= second.len(),
        forall|i: int| 0 <= i < steps ==> first[i] == second[i],
    ensures
        basic_straight(first, start, steps) == basic_straight(second, start, steps),
    decreases steps,
{
    if steps > 0 {
        lemma_basic_straight_is_local(first, second, start, (steps - 1) as nat);
        lemma_basic_straight_counts(first, start, (steps - 1) as nat);
        assert(first[steps - 1].nesting() == 0);
        assert(first[steps - 1] == second[steps - 1]);
    }
}

/// What the first `steps` instructions do depends on those instructions only.
proof fn lemma_compressed_straight_is_local(
    first: Seq<CompressedInstruction>,
    second: Seq<CompressedInstruction>,
    start: Machine<i16>,
    steps: nat,
)
    requires
        no_compressed_loops(first),
        no_compressed_loops(second),
        start.counter == 0,
        steps <= first.len(),
        steps <= second.len(),
        forall|i: int| 0 <= i < steps ==> first[i] == second[i],
    ensures
        compressed_straight(first, start, steps) == compressed_straight(second, start, steps),
    decreases steps,
{
    if steps > 0 {
        lemma_compressed_straight_is_local(first, second, start, (steps - 1) as nat);
        lemma_compressed_straight_counts(first, start, (steps - 1) as nat);
        assert(first[steps - 1] == second[steps - 1]);
    }
}

/// Without loops the head stays on the tape, and the tape keeps its size.
proof fn lemma_compressed_straight_keeps_tape(
    program: Seq<CompressedInstruction>,
    start: Machine<i16>,
    steps: nat,
)
    requires
        no_compressed_loops(program),
        start.counter == 0,
        start.tape.well_formed(),
        steps <= program.len(),
    ensures
        compressed_straight(program, start, steps).tape.well_formed(),
        compressed_straight(program, start, steps).tape.cells.len() == start.tape.cells.len(),
    decreases steps,
{
    if steps > 0 {
        lemma_compressed_straight_keeps_tape(program, start, (steps - 1) as nat);
        lemma_compressed_straight_counts(program, start, (steps - 1) as nat);
        let before = compressed_straight(program, start, (steps - 1) as nat);
        assert(program[steps - 1].nesting() == 0);
        match program[steps - 1] {
            CompressedInstruction::Move(delta) => {
                lemma_moves_add(before.tape, delta as int, 0);
            },
            _ => {},
        }
    }
}

/// The tokens of a basic program, one for each instruction.
spec fn twins(program: Seq<BasicInstruction>) -> Seq<CompressedInstructionStage1> {
    Seq::new(program.len(), |i: int| twin(program[i]))
}

/// Both builders read a text alike: each token is the twin of the basic
/// instruction at its position. A text without brackets gives a program
/// without loops.
proof fn lemma_tokens_are_twins(source: Seq<char>)
    ensures
        tokenized(source) == twins(parsed(source)),
        is_loop_free(source) ==> no_basic_loops(parsed(source)),
    decreases source.len(),
{
    if source.len() > 0 {
        lemma_tokens_are_twins(source.drop_last());
        let front = parsed(source.drop_last());
        if is_loop_free(source) {
            assert(source.last() == source[source.len() - 1]);
            assert forall|i: int| 0 <= i < source.drop_last().len() implies source.drop_last()[i]
                != '[' && source.drop_last()[i] != ']' by {
                assert(source.drop_last()[i] == source[i]);
            }
        }
        match instruction_of(source.last()) {
            Some(instruction) => {
                assert(twins(front.push(instruction)) =~= twins(front).push(twin(instruction)));
            },
            None => {},
        }
    } else {
        assert(twins(parsed(source)) =~= Seq::<CompressedInstructionStage1>::empty());
    }
}

/// A stream of short runs is one without its last token too.
proof fn lemma_short_front(tokens: Seq<CompressedInstructionStage1>)
    requires
        is_short(tokens),
        tokens.len() > 0,
    ensures
        is_short(tokens.drop_last()),
        run_length(tokens) < 0x8000_0000,
{
    let front = tokens.drop_last();
    assert forall|k: int| 0 <= k <= front.len() implies run_length(#[trigger] front.take(k))
        < 0x8000_0000 by {
        assert(front.take(k) =~= tokens.take(k));
    }
    assert(tokens.take(tokens.len() as int) =~= tokens);
}

/// A stream of uniform runs is one without its last token too, and its last
/// token repeats the one before if it is folded into the same instruction.
proof fn lemma_uniform_front(tokens: Seq<CompressedInstructionStage1>)
    requires
        tokens.len() > 0,
    ensures
        is_uniform(tokens) <==> is_uniform(tokens.drop_last()) && (tokens.len() >= 2
            && tokens[tokens.len() - 2].absorbs(tokens.last()) ==> tokens[tokens.len() - 2]
            == tokens.last()),
{
    let front = tokens.drop_last();
    if is_uniform(tokens) {
        assert forall|i: int, j: int|
            0 <= i && j == i + 1 && j < front.len() && (#[trigger] front[i]).absorbs(
                #[trigger] front[j],
            ) implies front[i] == front[j] by {
            assert(front[i] == tokens[i]);
            assert(front[j] == tokens[j]);
        }
        if tokens.len() >= 2 {
            assert(tokens[tokens.len() - 2].absorbs(tokens[tokens.len() - 1])
                ==> tokens[tokens.len() - 2] == tokens[tokens.len() - 1]);
        }
    }
    if is_uniform(front) && (tokens.len() >= 2 && tokens[tokens.len() - 2].absorbs(tokens.last())
        ==> tokens[tokens.len() - 2] == tokens.last()) {
        assert forall|i: int, j: int|
            0 <= i && j == i + 1 && j < tokens.len() && (#[trigger] tokens[i]).absorbs(
                #[trigger] tokens[j],
            ) implies tokens[i] == tokens[j] by {
            if j < front.len() {
                assert(front[i] == tokens[i]);
                assert(front[j] == tokens[j]);
            }
        }
    }
}

/// A token that changes the cell or moves the head does so by one; none is a
/// bracket.
spec fn is_unit(token: CompressedInstructionStage1) -> bool {
    match token {
        CompressedInstructionStage1::Change(delta) => delta == 1 || delta == -1,
        CompressedInstructionStage1::Move(delta) => delta == 1 || delta == -1,
        CompressedInstructionStage1::Input => true,
        CompressedInstructionStage1::Output => true,
        _ => false,
    }
}

/// Every token of the stream is a unit.
spec fn all_units(tokens: Seq<CompressedInstructionStage1>) -> bool {
    forall|i: int| 0 <= i < tokens.len() ==> is_unit(#[trigger] tokens[i])
}

/// The delta of a token; 0 where it has none.
spec fn delta_of(token: CompressedInstructionStage1) -> int {
    match token {
        CompressedInstructionStage1::Change(delta) => delta as int,
        CompressedInstructionStage1::Move(delta) => delta as int,
        _ => 0,
    }
}

/// The sum of the deltas of the tokens that the merge pass folds into the
/// last instruction it gives.
spec fn run_sum(tokens: Seq<CompressedInstructionStage1>) -> int
    decreases tokens.len(),
{
    if tokens.len() == 0 {
        0
    } else if tokens.len() >= 2 && tokens[tokens.len() - 2].absorbs(tokens.last()) {
        run_sum(tokens.drop_last()) + delta_of(tokens.last())
    } else {
        delta_of(tokens.last())
    }
}

/// What the merge pass folds a run into: the run's token, with the sum of the
/// run for its delta.
spec fn folded(token: CompressedInstructionStage1, sum: int) -> CompressedInstructionStage1 {
    match token {
        CompressedInstructionStage1::Change(_) => CompressedInstructionStage1::Change(sum as i32),
        CompressedInstructionStage1::Move(_) => CompressedInstructionStage1::Move(sum as i32),
        _ => token,
    }
}

/// What the last instruction of the merged stream adds to the tally: the size
/// of the sum of the last run, or 1 for a token without a delta.
spec fn run_cost(tokens: Seq<CompressedInstructionStage1>) -> nat {
    match tokens.last() {
        CompressedInstructionStage1::Change(_) | CompressedInstructionStage1::Move(_) => {
            if run_sum(tokens) < 0 {
                (-run_sum(tokens)) as nat
            } else {
                run_sum(tokens) as nat
            }
        },
        _ => 1,
    }
}

/// What the merge pass makes of short runs of unit tokens: no more
/// instructions than there were tokens, none of them a bracket, and the last
/// of them the fold of the last run, with a cost of no more than that run's
/// length.
spec fn merged_exactly(tokens: Seq<CompressedInstructionStage1>) -> bool {
    let stream = merged(tokens);
    &&& stream.len() <= tokens.len()
    &&& forall|i: int| 0 <= i < stream.len() ==> (#[trigger] stream[i]).nesting() == 0
    &&& tokens.len() > 0 ==> {
        &&& stream.len() > 0
        &&& 1 <= run_length(tokens) < 0x8000_0000
        &&& -run_length(tokens) <= run_sum(tokens) <= run_length(tokens)
        &&& stream.last() == folded(tokens.last(), run_sum(tokens))
        &&& cost_of(stream.last().resolved(0)) == run_cost(tokens)
        &&& run_cost(tokens) <= run_length(tokens)
    }
}

/// The merge pass folds each short run of unit tokens into its sum.
proof fn lemma_merged_exactly(tokens: Seq<CompressedInstructionStage1>)
    requires
        is_short(tokens),
        all_units(tokens),
    ensures
        merged_exactly(tokens),
    decreases tokens.len(),
{
    if tokens.len() > 0 {
        let front = tokens.drop_last();
        let token = tokens.last();
        lemma_short_front(tokens);
        assert forall|i: int| 0 <= i < front.len() implies is_unit(#[trigger] front[i]) by {
            assert(front[i] == tokens[i]);
        }
        lemma_merged_exactly(front);
        let before = merged(front);
        let stream = merged(tokens);
        assert(is_unit(token));
        if front.len() > 0 {
            assert(front.last() == tokens[tokens.len() - 2]);
        }
        if before.len() > 0 && before.last().absorbs(token) {
            assert(tokens[tokens.len() - 2].absorbs(tokens[tokens.len() - 1]));
            assert(run_length(tokens) == run_length(front) + 1);
            assert(run_sum(tokens) == run_sum(front) + delta_of(token));
            assert(stream.last() == before.last().joined(token));
            assert forall|i: int| 0 <= i < stream.len() implies (#[trigger] stream[i]).nesting()
                == 0 by {
                if i < stream.len() - 1 {
                    assert(stream[i] == before[i]);
                }
            }
        } else {
            assert(run_length(tokens) == 1);
            assert(run_sum(tokens) == delta_of(token));
            assert(stream.last() == token);
            assert forall|i: int| 0 <= i < stream.len() implies (#[trigger] stream[i]).nesting()
                == 0 by {
                if i < stream.len() - 1 {
                    assert(stream[i] == before[i]);
                }
            }
        }
    }
}

/// A uniform run costs its length: its sum is that length, with the sign of
/// its tokens.
proof fn lemma_uniform_run(tokens: Seq<CompressedInstructionStage1>)
    requires
        is_uniform(tokens),
        all_units(tokens),
        tokens.len() > 0,
    ensures
        delta_of(tokens.last()) == 1 ==> run_sum(tokens) == run_length(tokens),
        delta_of(tokens.last()) == -1 ==> run_sum(tokens) == -run_length(tokens),
    decreases tokens.len(),
{
    let front = tokens.drop_last();
    assert(is_unit(tokens.last()));
    if tokens.len() >= 2 && tokens[tokens.len() - 2].absorbs(tokens.last()) {
        lemma_uniform_front(tokens);
        assert forall|i: int| 0 <= i < front.len() implies is_unit(#[trigger] front[i]) by {
            assert(front[i] == tokens[i]);
        }
        assert(front.last() == tokens[tokens.len() - 2]);
        lemma_uniform_run(front);
    }
}

/// The compressed program for the tokens of a basic program.
spec fn compressed_of(program: Seq<BasicInstruction>) -> Seq<CompressedInstruction> {
    let stream = merged(twins(program));
    annotated(stream, jump_table(shape_of(stream)))
}

/// The compressed form of a basic program without loops and with short runs:
/// the merged stream as it stands, without a bracket.
proof fn lemma_compressed_of(program: Seq<BasicInstruction>)
    requires
        no_basic_loops(program),
        is_short(twins(program)),
    ensures
        all_units(twins(program)),
        merged_exactly(twins(program)),
        no_compressed_loops(compressed_of(program)),
        compressed_of(program).len() == merged(twins(program)).len(),
        forall|i: int|
            0 <= i < compressed_of(program).len() ==> #[trigger] compressed_of(program)[i]
                == merged(twins(program))[i].resolved(0),
{
    let tokens = twins(program);
    assert forall|i: int| 0 <= i < tokens.len() implies is_unit(#[trigger] tokens[i]) by {
        assert(program[i].nesting() == 0);
    }
    lemma_merged_exactly(tokens);
    let stream = merged(tokens);
    let finished = compressed_of(program);
    assert forall|i: int| 0 <= i < finished.len() implies #[trigger] finished[i]
        == stream[i].resolved(0) && finished[i].nesting() == 0 by {
        assert(stream[i].nesting() == 0);
    }
}

/// Both machines were executed to the end, and agree. The compressed tally
/// and the budget spent, up to the last instruction, leave room for the last
/// run; the tally leaves no more than that room, and the last instruction
/// costs the length of its run, if and only if all runs are uniform.
spec fn ends_agree(
    program: Seq<BasicInstruction>,
    basic: Machine<u8>,
    compressed: Machine<i16>,
) -> bool {
    let tokens = twins(program);
    let finished = compressed_of(program);
    let after_basic = basic_straight(program, basic, program.len());
    let after_compressed = compressed_straight(finished, compressed, finished.len());
    let before = compressed_straight(finished, compressed, (finished.len() - 1) as nat);
    &&& machines_agree(after_basic, after_compressed)
    &&& program.len() > 0 ==> {
        &&& before.tally + run_length(tokens) <= program.len()
        &&& spent(finished, (finished.len() - 1) as nat) + run_length(tokens) <= program.len()
        &&& (before.tally + run_length(tokens) == program.len() && run_cost(tokens)
            == run_length(tokens)) <==> is_uniform(tokens)
    }
}

/// The front of a program without loops has none.
proof fn lemma_front_has_no_loops(program: Seq<BasicInstruction>)
    requires
        no_basic_loops(program),
        program.len() > 0,
    ensures
        no_basic_loops(program.drop_last()),
        twins(program).drop_last() == twins(program.drop_last()),
        twins(program).last() == twin(program.last()),
        program.last().nesting() == 0,
{
    let front = program.drop_last();
    assert forall|i: int| 0 <= i < front.len() implies (#[trigger] front[i]).nesting() == 0 by {
        assert(front[i] == program[i]);
    }
    assert(twins(program).drop_last() =~= twins(front));
    assert(program.last() == program[program.len() - 1]);
}

/// The step of the induction where the last token starts an instruction of
/// its own.
proof fn lemma_last_stands_alone(
    program: Seq<BasicInstruction>,
    basic: Machine<u8>,
    compressed: Machine<i16>,
)
    requires
        no_basic_loops(program),
        is_short(twins(program)),
        basic.counter == 0,
        compressed.counter == 0,
        compressed.tally == 0,
        program.len() > 0,
        ends_agree(program.drop_last(), basic, compressed),
        !(merged(twins(program.drop_last())).len() > 0 && merged(
            twins(program.drop_last()),
        ).last().absorbs(twin(program.last()))),
    ensures
        ends_agree(program, basic, compressed),
{
    let front = program.drop_last();
    let instruction = program.last();
    let tokens = twins(program);
    let front_tokens = twins(front);
    lemma_front_has_no_loops(program);
    lemma_short_front(tokens);
    lemma_compressed_of(program);
    lemma_compressed_of(front);
    let finished = compressed_of(program);
    let front_finished = compressed_of(front);
    let front_stream = merged(front_tokens);
    assert(merged(tokens) =~= front_stream.push(twin(instruction)));
    let basic_before = basic_straight(front, basic, front.len());
    let compressed_before = compressed_straight(front_finished, compressed, front_finished.len());
    lemma_basic_straight_is_local(program, front, basic, front.len());
    lemma_basic_straight_counts(front, basic, front.len());
    lemma_compressed_straight_counts(front_finished, compressed, front_finished.len());
    assert forall|i: int| 0 <= i < front_finished.len() implies finished[i]
        == front_finished[i] by {
        assert(merged(tokens)[i] == front_stream[i]);
    }
    lemma_compressed_straight_is_local(finished, front_finished, compressed, front_finished.len());
    lemma_spent_is_local(finished, front_finished, front_finished.len());
    assert(basic_straight(program, basic, program.len()) == basic_step(
        program,
        basic_straight(program, basic, front.len()),
    )->0);
    assert(compressed_straight(finished, compressed, finished.len()) == compressed_step(
        finished,
        compressed_straight(finished, compressed, front_finished.len()),
    ));
    assert(program[basic_before.counter] == instruction);
    assert(finished[compressed_before.counter] == twin(instruction).resolved(0));
    lemma_effects_agree(program, basic_before, compressed_before, instruction, 0);
    // the tally and the budget
    lemma_uniform_front(tokens);
    assert(is_unit(tokens.last()));
    assert(run_length(tokens) == 1);
    assert(run_sum(tokens) == delta_of(tokens.last()));
    assert(run_cost(tokens) == 1);
    let before = compressed_straight(finished, compressed, (finished.len() - 1) as nat);
    assert(before == compressed_before);
    if front.len() > 0 {
        assert(front_tokens.last() == tokens[tokens.len() - 2]);
        assert(!tokens[tokens.len() - 2].absorbs(tokens.last()));
        assert(front_finished.last() == front_stream.last().resolved(0));
        let earlier = compressed_straight(
            front_finished,
            compressed,
            (front_finished.len() - 1) as nat,
        );
        lemma_compressed_straight_counts(
            front_finished,
            compressed,
            (front_finished.len() - 1) as nat,
        );
        assert(compressed_before == compressed_step(front_finished, earlier));
        assert(front_finished[earlier.counter] == front_finished.last());
        assert(compressed_before.tally == earlier.tally + run_cost(front_tokens));
        assert(spent(front_finished, front_finished.len()) == spent(
            front_finished,
            (front_finished.len() - 1) as nat,
        ) + price_of(front_finished.last()));
        assert(price_of(front_finished.last()) <= run_length(front_tokens));
    } else {
        assert(front_finished.len() == 0);
        assert(is_uniform(tokens));
    }
}

/// The step of the induction where the last token joins the instruction
/// before it.
proof fn lemma_last_joins(
    program: Seq<BasicInstruction>,
    basic: Machine<u8>,
    compressed: Machine<i16>,
)
    requires
        no_basic_loops(program),
        is_short(twins(program)),
        compressed.tape.well_formed(),
        basic.counter == 0,
        compressed.counter == 0,
        compressed.tally == 0,
        program.len() > 0,
        ends_agree(program.drop_last(), basic, compressed),
        merged(twins(program.drop_last())).len() > 0,
        merged(twins(program.drop_last())).last().absorbs(twin(program.last())),
    ensures
        ends_agree(program, basic, compressed),
{
    let front = program.drop_last();
    let instruction = program.last();
    let token = twin(instruction);
    let tokens = twins(program);
    let front_tokens = twins(front);
    lemma_front_has_no_loops(program);
    lemma_short_front(tokens);
    lemma_compressed_of(program);
    lemma_compressed_of(front);
    let finished = compressed_of(program);
    let front_finished = compressed_of(front);
    let front_stream = merged(front_tokens);
    let stream = merged(tokens);
    let kept = (front_stream.len() - 1) as nat;
    let sum = run_sum(front_tokens);
    assert(front.len() > 0);
    assert(front_tokens.last() == tokens[tokens.len() - 2]);
    assert(tokens[tokens.len() - 2].absorbs(tokens[tokens.len() - 1]));
    assert(is_unit(token));
    assert(is_unit(front_tokens.last()));
    assert(run_length(tokens) == run_length(front_tokens) + 1);
    assert(run_sum(tokens) == sum + delta_of(token));
    assert(stream =~= front_stream.drop_last().push(front_stream.last().joined(token)));
    let basic_before = basic_straight(front, basic, front.len());
    let compressed_before = compressed_straight(front_finished, compressed, front_finished.len());
    lemma_basic_straight_is_local(program, front, basic, front.len());
    lemma_basic_straight_counts(front, basic, front.len());
    assert(basic_straight(program, basic, program.len()) == basic_step(
        program,
        basic_straight(program, basic, front.len()),
    )->0);
    assert(program[basic_before.counter] == instruction);
    assert forall|i: int| 0 <= i < kept implies finished[i] == front_finished[i] by {
        assert(stream[i] == front_stream[i]);
    }
    lemma_compressed_straight_is_local(finished, front_finished, compressed, kept);
    lemma_spent_is_local(finished, front_finished, kept);
    let shared = compressed_straight(front_finished, compressed, kept);
    lemma_compressed_straight_counts(front_finished, compressed, kept);
    lemma_compressed_straight_keeps_tape(front_finished, compressed, kept);
    assert(compressed_before == compressed_step(front_finished, shared));
    let compressed_after = compressed_step(finished, shared);
    assert(compressed_straight(finished, compressed, finished.len()) == compressed_after);
    assert(front_finished[shared.counter] == folded(front_tokens.last(), sum).resolved(0));
    assert(finished[shared.counter] == folded(token, sum + delta_of(token)).resolved(0));
    lemma_effects_agree(program, basic_before, compressed_before, instruction, 0);
    let stepped = compressed_effect(compressed_before, token.resolved(0));
    match token {
        CompressedInstructionStage1::Change(delta) => {
            lemma_changes_add(shared.tape.current(), sum, delta as int);
            assert(compressed_after.tape =~= stepped.tape);
        },
        CompressedInstructionStage1::Move(delta) => {
            lemma_moves_add(shared.tape, sum, delta as int);
            assert(compressed_after.tape =~= stepped.tape);
        },
        _ => {},
    }
    // the tally and the budget
    lemma_uniform_front(tokens);
    if is_uniform(tokens) {
        lemma_uniform_run(tokens);
    }
    if is_uniform(front_tokens) {
        lemma_uniform_run(front_tokens);
    }
}

/// Executed from machines that agree, a basic program without loops and with
/// short runs and its compressed form leave machines that agree.
proof fn lemma_straight_runs_agree(
    program: Seq<BasicInstruction>,
    basic: Machine<u8>,
    compressed: Machine<i16>,
)
    requires
        no_basic_loops(program),
        is_short(twins(program)),
        machines_agree(basic, compressed),
        compressed.tape.well_formed(),
        basic.counter == 0,
        compressed.counter == 0,
        compressed.tally == 0,
    ensures
        ends_agree(program, basic, compressed),
    decreases program.len(),
{
    if program.len() == 0 {
        assert(merged(twins(program)).len() == 0);
    } else {
        let front = program.drop_last();
        lemma_front_has_no_loops(program);
        lemma_short_front(twins(program));
        lemma_straight_runs_agree(front, basic, compressed);
        let front_stream = merged(twins(front));
        if front_stream.len() > 0 && front_stream.last().absorbs(twin(program.last())) {
            lemma_last_joins(program, basic, compressed);
        } else {
            lemma_last_stands_alone(program, basic, compressed);
        }
    }
}

/// Without loops the two dialects agree. Take a text without brackets in
/// which no run of cell changes, and no run of head moves, is 2^31 characters
/// long. Run its basic program and its compressed program from tapes that
/// agree, on the same input, each on a budget of no less than the number of
/// instructions in the text. Then both runs reach the end, both have written
/// the same output and read the same input, and the tapes agree again. The
/// basic tally is the number of instructions in the text. The compressed tally
/// is never more, and it is the same if, and only if, every run repeats one
/// character.
pub proof fn lemma_runs_agree_without_loops(
    source: Seq<char>,
    basic_tape: Tape<u8>,
    compressed_tape: Tape<i16>,
    input: Seq<char>,
    output: Seq<char>,
    budget: nat,
)
    requires
        is_loop_free(source),
        is_short(tokenized(source)),
        tapes_agree(basic_tape, compressed_tape),
        budget >= parsed(source).len(),
    ensures
        is_paired(shape_of(merged(tokenized(source)))),
        ({
            let basic = basic_run(
                parsed(source),
                Machine { tape: basic_tape, counter: 0, input, output, tally: 0 },
                budget,
            );
            let compressed = compressed_run(
                compiled(source),
                Machine { tape: compressed_tape, counter: 0, input, output, tally: 0 },
                budget,
            );
            &&& basic.fault is None
            &&& compressed.fault is None
            &&& basic.machine.output == compressed.machine.output
            &&& basic.machine.input == compressed.machine.input
            &&& tapes_agree(basic.machine.tape, compressed.machine.tape)
            &&& basic.machine.tally == parsed(source).len()
            &&& compressed.machine.tally <= basic.machine.tally
            &&& compressed.machine.tally == basic.machine.tally <==> is_uniform(
                tokenized(source),
            )
        }),
{
    let program = parsed(source);
    let basic = Machine { tape: basic_tape, counter: 0, input, output, tally: 0 };
    let compressed = Machine { tape: compressed_tape, counter: 0, input, output, tally: 0 };
    lemma_tokens_are_twins(source);
    lemma_compressed_of(program);
    lemma_straight_runs_agree(program, basic, compressed);
    let tokens = twins(program);
    let finished = compressed_of(program);
    assert(finished == compiled(source));
    lemma_basic_straight_counts(program, basic, program.len());
    lemma_basic_run_is_straight(program, basic, 0, budget);
    if program.len() > 0 {
        let before = compressed_straight(finished, compressed, (finished.len() - 1) as nat);
        lemma_compressed_straight_counts(finished, compressed, (finished.len() - 1) as nat);
        assert(finished.last() == merged(tokens).last().resolved(0));
        assert(finished[before.counter] == finished.last());
        assert(compressed_straight(finished, compressed, finished.len()) == compressed_step(
            finished,
            before,
        ));
        assert(spent(finished, finished.len()) == spent(finished, (finished.len() - 1) as nat)
            + price_of(finished.last()));
    } else {
        assert(finished.len() == 0);
    }
    lemma_compressed_run_is_straight(finished, compressed, 0, budget);
    let shape = shape_of(merged(tokenized(source)));
    assert forall|i: int| !is_unmatched(shape, i) by {
        if 0 <= i < shape.len() {
            assert(merged(tokenized(source))[i].nesting() == 0);
        }
    }
}

/// Without loops the two dialects agree on fresh tapes of one size. For a
/// text without brackets in which every run of cell changes, and every run of
/// head moves, repeats one character fewer than 2^31 times, and for tapes of
/// `size` cells that all hold 0: on the same input, and on budgets of no less
/// than the number of instructions in the text, both runs reach the end, with
/// the same output and the same tally.
pub proof fn lemma_dialects_agree_without_loops(
    source: Seq<char>,
    size: nat,
    input: Seq<char>,
    output: Seq<char>,
    budget: nat,
)
    requires
        size > 0,
        is_loop_free(source),
        is_short(tokenized(source)),
        is_uniform(tokenized(source)),
        budget >= parsed(source).len(),
    ensures
        ({
            let basic = basic_run(
                parsed(source),
                Machine { tape: Tape::filled(size, 0u8), counter: 0, input, output, tally: 0 },
                budget,
            );
            let compressed = compressed_run(
                compiled(source),
                Machine { tape: Tape::filled(size, 0i16), counter: 0, input, output, tally: 0 },
                budget,
            );
            &&& basic.fault is None
            &&& compressed.fault is None
            &&& basic.machine.output == compressed.machine.output
            &&& basic.machine.tally == compressed.machine.tally
        }),
{
    lemma_runs_agree_without_loops(
        source,
        Tape::filled(size, 0u8),
        Tape::filled(size, 0i16),
        input,
        output,
        budget,
    );
}

} // verus!
