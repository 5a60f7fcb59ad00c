//! A worked program: four times four, by a loop.
//!
//! The text `++++[>++++<-]>.` counts the first cell down from 4 and adds 4 to
//! the second cell each time, then writes the second cell. What both dialects
//! make of it, and what both interpreters do with it, is followed here step by
//! step, for every size of tape that has the two cells and for every input.

use crate::brackets::{
    depth, is_balanced, is_enter_of, is_exit_of, lemma_enter_unique, lemma_exit_unique,
    matching_enter, matching_exit,
};
use crate::interpreter::basic::{basic_run, basic_step};
use crate::interpreter::semicolon_compressed::{compressed_run, compressed_step, price_of};
use crate::interpreter::{Machine, Outcome, Tape};
use crate::program::basic::{basic_shape, instruction_of, parsed, BasicInstruction};
use crate::program::semicolon_compressed::{
    compiled, merged, shape_of, token_of, tokenized, CompressedInstruction,
    CompressedInstructionStage1,
};
use vstd::arithmetic::div_mod::lemma_small_mod;
use vstd::prelude::*;

verus! {

/// The text of the program.
pub open spec fn four_by_four() -> Seq<char> {
    "++++[>++++<-]>."@
}

/// The basic program that the text stands for.
pub open spec fn four_by_four_basic() -> Seq<BasicInstruction> {
    seq![
        BasicInstruction::Increment,
        BasicInstruction::Increment,
        BasicInstruction::Increment,
        BasicInstruction::Increment,
        BasicInstruction::LoopEnter,
        BasicInstruction::MoveRight,
        BasicInstruction::Increment,
        BasicInstruction::Increment,
        BasicInstruction::Increment,
        BasicInstruction::Increment,
        BasicInstruction::MoveLeft,
        BasicInstruction::Decrement,
        BasicInstruction::LoopExit,
        BasicInstruction::MoveRight,
        BasicInstruction::Output,
    ]
}

/// Reading one more character adds its instruction, if it has one.
proof fn lemma_parsed_push(source: Seq<char>, c: char)
    ensures
        parsed(source.push(c)) == match instruction_of(c) {
            Some(instruction) => parsed(source).push(instruction),
            None => parsed(source),
        },
{
    assert(source.push(c).drop_last() =~= source);
}

proof fn lemma_four_by_four_parsed()
    ensures
        parsed(four_by_four()) == four_by_four_basic(),
{
    reveal_strlit("++++[>++++<-]>.");
    let text = four_by_four();
    let t0 = Seq::<char>::empty();
    let t1 = t0.push('+');
    let t2 = t1.push('+');
    let t3 = t2.push('+');
    let t4 = t3.push('+');
    let t5 = t4.push('[');
    let t6 = t5.push('>');
    let t7 = t6.push('+');
    let t8 = t7.push('+');
    let t9 = t8.push('+');
    let t10 = t9.push('+');
    let t11 = t10.push('<');
    let t12 = t11.push('-');
    let t13 = t12.push(']');
    let t14 = t13.push('>');
    let t15 = t14.push('.');
    assert(text =~= t15);
    lemma_parsed_push(t0, '+');
    lemma_parsed_push(t1, '+');
    lemma_parsed_push(t2, '+');
    lemma_parsed_push(t3, '+');
    lemma_parsed_push(t4, '[');
    lemma_parsed_push(t5, '>');
    lemma_parsed_push(t6, '+');
    lemma_parsed_push(t7, '+');
    lemma_parsed_push(t8, '+');
    lemma_parsed_push(t9, '+');
    lemma_parsed_push(t10, '<');
    lemma_parsed_push(t11, '-');
    lemma_parsed_push(t12, ']');
    lemma_parsed_push(t13, '>');
    lemma_parsed_push(t14, '.');
    assert(parsed(t0) =~= Seq::<BasicInstruction>::empty());
    assert(parsed(t15) =~= four_by_four_basic());
}

/// The one loop of the basic program runs from 4 to 12.
proof fn lemma_four_by_four_basic_loop()
    ensures
        matching_exit(basic_shape(four_by_four_basic()), 4) == Some(12int),
        matching_enter(basic_shape(four_by_four_basic()), 12) == Some(4int),
{
    let shape = basic_shape(four_by_four_basic());
    assert(shape.len() == 15);
    assert(depth(shape, 0) == 0);
    assert(depth(shape, 1) == 0);
    assert(depth(shape, 2) == 0);
    assert(depth(shape, 3) == 0);
    assert(depth(shape, 4) == 0);
    assert(depth(shape, 5) == 1);
    assert(depth(shape, 6) == 1);
    assert(depth(shape, 7) == 1);
    assert(depth(shape, 8) == 1);
    assert(depth(shape, 9) == 1);
    assert(depth(shape, 10) == 1);
    assert(depth(shape, 11) == 1);
    assert(depth(shape, 12) == 1);
    assert(depth(shape, 13) == 0);
    assert(is_exit_of(shape, 4, 12));
    assert(is_enter_of(shape, 12, 4));
    lemma_exit_unique(shape, 4, 12);
    lemma_enter_unique(shape, 12, 4);
}

/// A basic machine in the middle of the program: `first` and `second` in the
/// first two cells of a tape that is blank beyond them.
pub open spec fn basic_snapshot(
    size: nat,
    first: u8,
    second: u8,
    head: int,
    counter: int,
    input: Seq<char>,
    output: Seq<char>,
    tally: nat,
) -> Machine<u8> {
    Machine {
        tape: Tape {
            cells: Seq::new(size, |i: int| 0u8).update(0, first).update(1, second),
            head,
        },
        counter,
        input,
        output,
        tally,
    }
}

/// A run goes on from the machine that its first step leaves.
proof fn lemma_basic_run_steps(
    program: Seq<BasicInstruction>,
    machine: Machine<u8>,
    after: Machine<u8>,
    budget: nat,
)
    requires
        0 <= machine.counter < program.len(),
        budget > 0,
        basic_step(program, machine) == Some(after),
    ensures
        basic_run(program, machine, budget) == basic_run(program, after, (budget - 1) as nat),
{
}

/// One turn of the loop: the first cell loses 1, the second gains 4, and the
/// run stands behind the loop when the first cell has reached 0, and at the
/// start of its body when not.
proof fn lemma_four_by_four_basic_turn(
    size: nat,
    first: u8,
    second: u8,
    input: Seq<char>,
    output: Seq<char>,
    tally: nat,
    budget: nat,
)
    requires
        size >= 2,
        first >= 1,
        second <= 251,
        budget >= 8,
    ensures
        basic_run(
            four_by_four_basic(),
            basic_snapshot(size, first, second, 0, 5, input, output, tally),
            budget,
        ) == basic_run(
            four_by_four_basic(),
            basic_snapshot(
                size,
                (first - 1) as u8,
                (second + 4) as u8,
                0,
                if first == 1 {
                    13
                } else {
                    5
                },
                input,
                output,
                tally + 8,
            ),
            (budget - 8) as nat,
        ),
{
    let program = four_by_four_basic();
    lemma_four_by_four_basic_loop();
    lemma_small_mod(1, size);
    lemma_small_mod(0, size);
    let s0 = basic_snapshot(size, first, second, 0, 5, input, output, tally);
    let s1 = basic_snapshot(size, first, second, 1, 6, input, output, tally + 1);
    let s2 = basic_snapshot(size, first, (second + 1) as u8, 1, 7, input, output, tally + 2);
    let s3 = basic_snapshot(size, first, (second + 2) as u8, 1, 8, input, output, tally + 3);
    let s4 = basic_snapshot(size, first, (second + 3) as u8, 1, 9, input, output, tally + 4);
    let s5 = basic_snapshot(size, first, (second + 4) as u8, 1, 10, input, output, tally + 5);
    let s6 = basic_snapshot(size, first, (second + 4) as u8, 0, 11, input, output, tally + 6);
    let s7 = basic_snapshot(
        size,
        (first - 1) as u8,
        (second + 4) as u8,
        0,
        12,
        input,
        output,
        tally + 7,
    );
    let s8 = basic_snapshot(
        size,
        (first - 1) as u8,
        (second + 4) as u8,
        0,
        if first == 1 {
            13
        } else {
            5
        },
        input,
        output,
        tally + 8,
    );
    assert(basic_step(program, s0)->0 =~= s1);
    lemma_basic_run_steps(program, s0, s1, budget);
    assert(basic_step(program, s1)->0 =~= s2);
    lemma_basic_run_steps(program, s1, s2, (budget - 1) as nat);
    assert(basic_step(program, s2)->0 =~= s3);
    lemma_basic_run_steps(program, s2, s3, (budget - 2) as nat);
    assert(basic_step(program, s3)->0 =~= s4);
    lemma_basic_run_steps(program, s3, s4, (budget - 3) as nat);
    assert(basic_step(program, s4)->0 =~= s5);
    lemma_basic_run_steps(program, s4, s5, (budget - 4) as nat);
    assert(basic_step(program, s5)->0 =~= s6);
    lemma_basic_run_steps(program, s5, s6, (budget - 5) as nat);
    assert(basic_step(program, s6)->0 =~= s7);
    lemma_basic_run_steps(program, s6, s7, (budget - 6) as nat);
    assert(basic_step(program, s7)->0 =~= s8);
    lemma_basic_run_steps(program, s7, s8, (budget - 7) as nat);
}

/// Four times four is sixteen, in the basic dialect. On a fresh tape of two
/// cells or more, whatever the input, a run of the program on a budget of 39
/// or more reaches the end after 39 instructions. It leaves 16 in the second
/// cell, with the head on it, and has written the character with that ordinal.
pub proof fn lemma_four_by_four_basic_run(
    size: nat,
    input: Seq<char>,
    output: Seq<char>,
    budget: nat,
)
    requires
        size >= 2,
        budget >= 39,
    ensures
        basic_run(
            parsed(four_by_four()),
            Machine { tape: Tape::filled(size, 0u8), counter: 0, input, output, tally: 0 },
            budget,
        ) == (Outcome {
            machine: basic_snapshot(size, 0, 16, 1, 15, input, output.push('\u{10}'), 39),
            fault: None,
        }),
        basic_snapshot(size, 0, 16, 1, 15, input, output.push('\u{10}'), 39).tape.current() == 16,
{
    let program = four_by_four_basic();
    lemma_four_by_four_parsed();
    lemma_four_by_four_basic_loop();
    lemma_small_mod(1, size);
    lemma_small_mod(0, size);
    let start = Machine { tape: Tape::filled(size, 0u8), counter: 0, input, output, tally: 0 };
    let s0 = basic_snapshot(size, 0, 0, 0, 0, input, output, 0);
    let s1 = basic_snapshot(size, 1, 0, 0, 1, input, output, 1);
    let s2 = basic_snapshot(size, 2, 0, 0, 2, input, output, 2);
    let s3 = basic_snapshot(size, 3, 0, 0, 3, input, output, 3);
    let s4 = basic_snapshot(size, 4, 0, 0, 4, input, output, 4);
    let s5 = basic_snapshot(size, 4, 0, 0, 5, input, output, 5);
    let s37 = basic_snapshot(size, 0, 16, 0, 13, input, output, 37);
    let s38 = basic_snapshot(size, 0, 16, 1, 14, input, output, 38);
    let s39 = basic_snapshot(size, 0, 16, 1, 15, input, output.push('\u{10}'), 39);
    assert(start =~= s0);
    assert(basic_step(program, s0)->0 =~= s1);
    lemma_basic_run_steps(program, s0, s1, budget);
    assert(basic_step(program, s1)->0 =~= s2);
    lemma_basic_run_steps(program, s1, s2, (budget - 1) as nat);
    assert(basic_step(program, s2)->0 =~= s3);
    lemma_basic_run_steps(program, s2, s3, (budget - 2) as nat);
    assert(basic_step(program, s3)->0 =~= s4);
    lemma_basic_run_steps(program, s3, s4, (budget - 3) as nat);
    assert(basic_step(program, s4)->0 =~= s5);
    lemma_basic_run_steps(program, s4, s5, (budget - 4) as nat);
    lemma_four_by_four_basic_turn(size, 4, 0, input, output, 5, (budget - 5) as nat);
    lemma_four_by_four_basic_turn(size, 3, 4, input, output, 13, (budget - 13) as nat);
    lemma_four_by_four_basic_turn(size, 2, 8, input, output, 21, (budget - 21) as nat);
    lemma_four_by_four_basic_turn(size, 1, 12, input, output, 29, (budget - 29) as nat);
    assert(basic_step(program, s37)->0 =~= s38);
    lemma_basic_run_steps(program, s37, s38, (budget - 37) as nat);
    assert(16u8 as char == '\u{10}');
    assert(basic_step(program, s38)->0 =~= s39);
    lemma_basic_run_steps(program, s38, s39, (budget - 38) as nat);
}

/// The compressed program that the text stands for.
pub open spec fn four_by_four_compressed() -> Seq<CompressedInstruction> {
    seq![
        CompressedInstruction::Change(4),
        CompressedInstruction::LoopEnter(6),
        CompressedInstruction::Move(1),
        CompressedInstruction::Change(4),
        CompressedInstruction::Move(-1i32),
        CompressedInstruction::Change(-1i32),
        CompressedInstruction::LoopExit(1),
        CompressedInstruction::Move(1),
        CompressedInstruction::Output,
    ]
}

/// Reading one more character adds its token, if it has one, and the merge
/// pass folds that token into the last instruction or lets it stand.
proof fn lemma_merged_push(source: Seq<char>, c: char)
    ensures
        merged(tokenized(source.push(c))) == match token_of(c) {
            Some(token) => {
                let before = merged(tokenized(source));
                if before.len() > 0 && before.last().absorbs(token) {
                    before.drop_last().push(before.last().joined(token))
                } else {
                    before.push(token)
                }
            },
            None => merged(tokenized(source)),
        },
{
    assert(source.push(c).drop_last() =~= source);
    match token_of(c) {
        Some(token) => {
            assert(tokenized(source).push(token).drop_last() =~= tokenized(source));
        },
        None => {},
    }
}

/// The merged stream of the text.
proof fn lemma_four_by_four_merged()
    ensures
        merged(tokenized(four_by_four())) == seq![
            CompressedInstructionStage1::Change(4),
            CompressedInstructionStage1::LoopEnter,
            CompressedInstructionStage1::Move(1),
            CompressedInstructionStage1::Change(4),
            CompressedInstructionStage1::Move(-1i32),
            CompressedInstructionStage1::Change(-1i32),
            CompressedInstructionStage1::LoopExit,
            CompressedInstructionStage1::Move(1),
            CompressedInstructionStage1::Output,
        ],
{
    reveal_strlit("++++[>++++<-]>.");
    let text = four_by_four();
    let t0 = Seq::<char>::empty();
    let t1 = t0.push('+');
    let t2 = t1.push('+');
    let t3 = t2.push('+');
    let t4 = t3.push('+');
    let t5 = t4.push('[');
    let t6 = t5.push('>');
    let t7 = t6.push('+');
    let t8 = t7.push('+');
    let t9 = t8.push('+');
    let t10 = t9.push('+');
    let t11 = t10.push('<');
    let t12 = t11.push('-');
    let t13 = t12.push(']');
    let t14 = t13.push('>');
    let t15 = t14.push('.');
    assert(text =~= t15);
    assert(merged(tokenized(t0)) =~= Seq::<CompressedInstructionStage1>::empty());
    lemma_merged_push(t0, '+');
    assert(merged(tokenized(t1)) =~= seq![CompressedInstructionStage1::Change(1)]);
    lemma_merged_push(t1, '+');
    assert(merged(tokenized(t2)) =~= seq![CompressedInstructionStage1::Change(2)]);
    lemma_merged_push(t2, '+');
    assert(merged(tokenized(t3)) =~= seq![CompressedInstructionStage1::Change(3)]);
    lemma_merged_push(t3, '+');
    let m4 = seq![CompressedInstructionStage1::Change(4)];
    assert(merged(tokenized(t4)) =~= m4);
    lemma_merged_push(t4, '[');
    let m5 = m4.push(CompressedInstructionStage1::LoopEnter);
    assert(merged(tokenized(t5)) =~= m5);
    lemma_merged_push(t5, '>');
    let m6 = m5.push(CompressedInstructionStage1::Move(1));
    assert(merged(tokenized(t6)) =~= m6);
    lemma_merged_push(t6, '+');
    assert(merged(tokenized(t7)) =~= m6.push(CompressedInstructionStage1::Change(1)));
    lemma_merged_push(t7, '+');
    assert(merged(tokenized(t8)) =~= m6.push(CompressedInstructionStage1::Change(2)));
    lemma_merged_push(t8, '+');
    assert(merged(tokenized(t9)) =~= m6.push(CompressedInstructionStage1::Change(3)));
    lemma_merged_push(t9, '+');
    let m10 = m6.push(CompressedInstructionStage1::Change(4));
    assert(merged(tokenized(t10)) =~= m10);
    lemma_merged_push(t10, '<');
    let m11 = m10.push(CompressedInstructionStage1::Move(-1i32));
    assert(merged(tokenized(t11)) =~= m11);
    lemma_merged_push(t11, '-');
    let m12 = m11.push(CompressedInstructionStage1::Change(-1i32));
    assert(merged(tokenized(t12)) =~= m12);
    lemma_merged_push(t12, ']');
    let m13 = m12.push(CompressedInstructionStage1::LoopExit);
    assert(merged(tokenized(t13)) =~= m13);
    lemma_merged_push(t13, '>');
    let m14 = m13.push(CompressedInstructionStage1::Move(1));
    assert(merged(tokenized(t14)) =~= m14);
    lemma_merged_push(t14, '.');
    let m15 = m14.push(CompressedInstructionStage1::Output);
    assert(merged(tokenized(t15)) =~= m15);
}

/// The compressed program of the text, with its loop resolved.
proof fn lemma_four_by_four_compiled()
    ensures
        compiled(four_by_four()) == four_by_four_compressed(),
{
    lemma_four_by_four_merged();
    let stream = merged(tokenized(four_by_four()));
    let shape = shape_of(stream);
    assert(shape.len() == 9);
    assert(depth(shape, 0) == 0);
    assert(depth(shape, 1) == 0);
    assert(depth(shape, 2) == 1);
    assert(depth(shape, 3) == 1);
    assert(depth(shape, 4) == 1);
    assert(depth(shape, 5) == 1);
    assert(depth(shape, 6) == 1);
    assert(depth(shape, 7) == 0);
    assert(is_exit_of(shape, 1, 6));
    assert(is_enter_of(shape, 6, 1));
    lemma_exit_unique(shape, 1, 6);
    lemma_enter_unique(shape, 6, 1);
    assert(compiled(four_by_four()) =~= four_by_four_compressed());
}

/// The builder accepts the text: its one loop is closed.
pub proof fn lemma_four_by_four_is_built()
    ensures
        is_balanced(
            shape_of(merged(tokenized(four_by_four()))),
            0,
            merged(tokenized(four_by_four())).len() as int,
        ),
{
    lemma_four_by_four_merged();
    let shape = shape_of(merged(tokenized(four_by_four())));
    assert(shape.len() == 9);
    assert(depth(shape, 0) == 0);
    assert(depth(shape, 1) == 0);
    assert(depth(shape, 2) == 1);
    assert(depth(shape, 3) == 1);
    assert(depth(shape, 4) == 1);
    assert(depth(shape, 5) == 1);
    assert(depth(shape, 6) == 1);
    assert(depth(shape, 7) == 0);
    assert(depth(shape, 8) == 0);
    assert(depth(shape, 9) == 0);
}

/// A compressed machine in the middle of the program: `first` and `second` in
/// the first two cells of a tape that is blank beyond them.
pub open spec fn compressed_snapshot(
    size: nat,
    first: i16,
    second: i16,
    head: int,
    counter: int,
    input: Seq<char>,
    output: Seq<char>,
    tally: nat,
) -> Machine<i16> {
    Machine {
        tape: Tape {
            cells: Seq::new(size, |i: int| 0i16).update(0, first).update(1, second),
            head,
        },
        counter,
        input,
        output,
        tally,
    }
}

/// A run goes on from the machine that its first step leaves, on what is left
/// of the budget.
proof fn lemma_compressed_run_steps(
    program: Seq<CompressedInstruction>,
    machine: Machine<i16>,
    after: Machine<i16>,
    budget: nat,
    price: nat,
)
    requires
        0 <= machine.counter < program.len(),
        price == price_of(program[machine.counter]),
        budget >= price,
        compressed_step(program, machine) == after,
    ensures
        compressed_run(program, machine, budget) == compressed_run(
            program,
            after,
            (budget - price) as nat,
        ),
{
}

/// One turn of the loop: the first cell loses 1, the second gains 4, and the
/// run stands behind the loop when the first cell has reached 0, and at the
/// start of its body when not.
proof fn lemma_four_by_four_compressed_turn(
    size: nat,
    first: i16,
    second: i16,
    input: Seq<char>,
    output: Seq<char>,
    tally: nat,
    budget: nat,
)
    requires
        size >= 2,
        1 <= first <= 4,
        0 <= second <= 12,
        budget >= 8,
    ensures
        compressed_run(
            four_by_four_compressed(),
            compressed_snapshot(size, first, second, 0, 2, input, output, tally),
            budget,
        ) == compressed_run(
            four_by_four_compressed(),
            compressed_snapshot(
                size,
                (first - 1) as i16,
                (second + 4) as i16,
                0,
                if first == 1 {
                    7
                } else {
                    2
                },
                input,
                output,
                tally + 8,
            ),
            (budget - 8) as nat,
        ),
{
    let program = four_by_four_compressed();
    lemma_small_mod(1, size);
    lemma_small_mod(0, size);
    let s0 = compressed_snapshot(size, first, second, 0, 2, input, output, tally);
    let s1 = compressed_snapshot(size, first, second, 1, 3, input, output, tally + 1);
    let s2 = compressed_snapshot(size, first, (second + 4) as i16, 1, 4, input, output, tally + 5);
    let s3 = compressed_snapshot(size, first, (second + 4) as i16, 0, 5, input, output, tally + 6);
    let s4 = compressed_snapshot(
        size,
        (first - 1) as i16,
        (second + 4) as i16,
        0,
        6,
        input,
        output,
        tally + 7,
    );
    let s5 = compressed_snapshot(
        size,
        (first - 1) as i16,
        (second + 4) as i16,
        0,
        if first == 1 {
            7
        } else {
            2
        },
        input,
        output,
        tally + 8,
    );
    assert(compressed_step(program, s0) =~= s1);
    lemma_compressed_run_steps(program, s0, s1, budget, 1);
    assert(compressed_step(program, s1) =~= s2);
    lemma_compressed_run_steps(program, s1, s2, (budget - 1) as nat, 4);
    assert(compressed_step(program, s2) =~= s3);
    lemma_compressed_run_steps(program, s2, s3, (budget - 5) as nat, 1);
    assert(compressed_step(program, s3) =~= s4);
    lemma_compressed_run_steps(program, s3, s4, (budget - 6) as nat, 1);
    assert(compressed_step(program, s4) =~= s5);
    lemma_compressed_run_steps(program, s4, s5, (budget - 7) as nat, 1);
}

/// Four times four is sixteen, in the compressed dialect. On a fresh tape of
/// two cells or more, whatever the input, a run of the program on a budget of
/// 39 or more reaches the end with a tally of 39. It leaves 16 in the second
/// cell, with the head on it, and has written the character with that ordinal.
pub proof fn lemma_four_by_four_compressed_run(
    size: nat,
    input: Seq<char>,
    output: Seq<char>,
    budget: nat,
)
    requires
        size >= 2,
        budget >= 39,
    ensures
        compressed_run(
            compiled(four_by_four()),
            Machine { tape: Tape::filled(size, 0i16), counter: 0, input, output, tally: 0 },
            budget,
        ) == (Outcome {
            machine: compressed_snapshot(size, 0, 16, 1, 9, input, output.push('\u{10}'), 39),
            fault: None,
        }),
        compressed_snapshot(size, 0, 16, 1, 9, input, output.push('\u{10}'), 39).tape.current()
            == 16,
{
    let program = four_by_four_compressed();
    lemma_four_by_four_compiled();
    lemma_small_mod(1, size);
    lemma_small_mod(0, size);
    let start = Machine { tape: Tape::filled(size, 0i16), counter: 0, input, output, tally: 0 };
    let s0 = compressed_snapshot(size, 0, 0, 0, 0, input, output, 0);
    let s1 = compressed_snapshot(size, 4, 0, 0, 1, input, output, 4);
    let s2 = compressed_snapshot(size, 4, 0, 0, 2, input, output, 5);
    let s6 = compressed_snapshot(size, 0, 16, 0, 7, input, output, 37);
    let s7 = compressed_snapshot(size, 0, 16, 1, 8, input, output, 38);
    let s8 = compressed_snapshot(size, 0, 16, 1, 9, input, output.push('\u{10}'), 39);
    assert(start =~= s0);
    assert(compressed_step(program, s0) =~= s1);
    lemma_compressed_run_steps(program, s0, s1, budget, 4);
    assert(compressed_step(program, s1) =~= s2);
    lemma_compressed_run_steps(program, s1, s2, (budget - 4) as nat, 1);
    lemma_four_by_four_compressed_turn(size, 4, 0, input, output, 5, (budget - 5) as nat);
    lemma_four_by_four_compressed_turn(size, 3, 4, input, output, 13, (budget - 13) as nat);
    lemma_four_by_four_compressed_turn(size, 2, 8, input, output, 21, (budget - 21) as nat);
    lemma_four_by_four_compressed_turn(size, 1, 12, input, output, 29, (budget - 29) as nat);
    assert(compressed_step(program, s6) =~= s7);
    lemma_compressed_run_steps(program, s6, s7, (budget - 37) as nat, 1);
    assert(16u8 as char == '\u{10}');
    assert(compressed_step(program, s7) =~= s8);
    lemma_compressed_run_steps(program, s7, s8, (budget - 38) as nat, 1);
}

/// Both dialects run the program alike: on fresh tapes of one size, of two
/// cells or more, and on budgets that suffice, both runs end without a fault,
/// with the same output and the same tally.
pub proof fn lemma_four_by_four_agrees(
    size: nat,
    input: Seq<char>,
    output: Seq<char>,
    budget: nat,
)
    requires
        size >= 2,
        budget >= 39,
    ensures
        ({
            let basic = basic_run(
                parsed(four_by_four()),
                Machine { tape: Tape::filled(size, 0u8), counter: 0, input, output, tally: 0 },
                budget,
            );
            let compressed = compressed_run(
                compiled(four_by_four()),
                Machine { tape: Tape::filled(size, 0i16), counter: 0, input, output, tally: 0 },
                budget,
            );
            &&& basic.fault is None
            &&& compressed.fault is None
            &&& basic.machine.output == output.push('\u{10}')
            &&& compressed.machine.output == basic.machine.output
            &&& compressed.machine.tally == basic.machine.tally
            &&& basic.machine.tape.cells[1] == 16
            &&& compressed.machine.tape.cells[1] == 16
        }),
{
    lemma_four_by_four_basic_run(size, input, output, budget);
    lemma_four_by_four_compressed_run(size, input, output, budget);
}

} // verus!
