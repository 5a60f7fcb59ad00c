use tape_machine::interpreter::basic::BasicInterpreter;
use tape_machine::interpreter::semicolon_compressed::CompressedInterpreter;
use tape_machine::interpreter::{Fault, InputBuffer, Interpreter, ProgramInterpreter, TapeSize};
use tape_machine::program::basic::{BasicInstruction, BasicProgram};
use tape_machine::program::semicolon_compressed::{CompressedInstruction, CompressedProgram};

fn size(cells: usize) -> TapeSize {
    TapeSize::new(cells).unwrap()
}

fn run_basic(code: &str, cells: usize, input: &str) -> (Result<usize, Fault>, String) {
    let mut interpreter = BasicInterpreter::new(size(cells));
    let mut output = Vec::new();
    let tally = interpreter.execute_program(&BasicProgram::new(code), input, &mut output);
    (tally, output.into_iter().collect())
}

fn run_compressed(code: &str, cells: usize, input: &str) -> (Result<usize, Fault>, String) {
    let mut interpreter = CompressedInterpreter::new(size(cells));
    let mut output = Vec::new();
    let program = CompressedProgram::new(code).unwrap();
    let tally = interpreter.execute_program(&program, input, &mut output);
    (tally, output.into_iter().collect())
}

const HELLO: &str = "++++++++[>++++[>++>+++>+++>+<<<<-]>+>+>->>+[<]<-]>>.>---.+++++++..+++.>>.<-.<.+++.------.--------.>>+.>++.";

#[test]
fn empty_program_runs_to_nothing() {
    assert_eq!(run_basic("", 1, "abc"), (Ok(0), String::new()));
    assert_eq!(run_compressed("", 1, "abc"), (Ok(0), String::new()));
}

#[test]
fn hello_world_basic() {
    let (tally, output) = run_basic(HELLO, 30000, "");
    assert_eq!(output, "Hello World!\n");
    assert_eq!(tally, Ok(906));
}

#[test]
fn hello_world_compressed() {
    let (tally, output) = run_compressed(HELLO, 30000, "");
    assert_eq!(output, "Hello World!\n");
    assert!(tally.is_ok());
}

#[test]
fn echo_until_the_input_ends() {
    assert_eq!(run_basic(",[.,]", 1, "Hello, World").1, "Hello, World");
    assert_eq!(run_compressed(",[.,]", 1, "Hello, World").1, "Hello, World");
    assert_eq!(run_basic(",[.,]", 1, "Hello, World").0, Ok(2 + 12 * 3));
    assert_eq!(run_compressed(",[.,]", 1, "Hello, World").0, Ok(2 + 12 * 3));
}

#[test]
fn drained_input_reads_as_zero() {
    assert_eq!(run_basic("+,.", 1, ""), (Ok(3), "\0".to_string()));
    assert_eq!(run_compressed("+,.", 1, ""), (Ok(3), "\0".to_string()));
    assert_eq!(run_basic(",.,.,.", 1, "ab"), (Ok(6), "ab\0".to_string()));
    assert_eq!(run_compressed(",.,.,.", 1, "ab"), (Ok(6), "ab\0".to_string()));
}

#[test]
fn wide_input_reads_as_zero() {
    assert_eq!(run_basic(",.,.", 1, "éa"), (Ok(4), "\0a".to_string()));
    assert_eq!(run_compressed(",.,.", 1, "\u{141}a"), (Ok(4), "\0a".to_string()));
}

#[test]
fn dialects_agree_on_programs_without_loops() {
    for code in ["", "+", "+++.>++.<.", ",+.>,-.<<.", "---.>>>>+++.<<<<<.", "+>+>+>+>+.,.,.", "<<<+.>.>.>."] {
        for cells in [1usize, 2, 3, 7] {
            for input in ["", "q", "xyz"] {
                let basic = run_basic(code, cells, input);
                let compressed = run_compressed(code, cells, input);
                assert_eq!(basic.1, compressed.1);
                assert_eq!(basic.0, compressed.0);
                let instructions = code.chars().filter(|c| "+-<>,.".contains(*c)).count();
                assert_eq!(basic.0, Ok(instructions));
            }
        }
    }
}

#[test]
fn a_run_that_undoes_itself_counts_less_when_compressed() {
    assert_eq!(run_basic("+-.", 1, ""), (Ok(3), "\0".to_string()));
    assert_eq!(run_compressed("+-.", 1, ""), (Ok(1), "\0".to_string()));
    assert_eq!(run_basic("++-><<.", 2, "").0, Ok(7));
    assert_eq!(run_compressed("++-><<.", 2, "").0, Ok(1 + 1 + 1));
}

#[test]
fn compressed_tally_counts_deltas() {
    assert_eq!(run_compressed("+++++>>>---", 4, "").0, Ok(11));
    assert_eq!(run_compressed("+++[-]", 1, "").0, Ok(3 + 3 * 2 + 1));
    assert_eq!(run_basic("+++[-]", 1, "").0, Ok(3 + 1 + 3 * 2));
}

#[test]
fn loops_are_skipped_on_zero() {
    assert_eq!(run_basic("[.+]>[[.]].", 2, ""), (Ok(4), "\0".to_string()));
    assert_eq!(run_compressed("[.+]>[[.]].", 2, ""), (Ok(4), "\0".to_string()));
}

#[test]
fn nested_loops_multiply() {
    let code = "++[>+++[>++++<-]<-]>>.";
    let (tally, output) = run_basic(code, 3, "");
    assert_eq!(output, "\u{18}");
    assert_eq!(tally, Ok(70));
    assert_eq!(run_compressed(code, 3, "").1, "\u{18}");
}

#[test]
fn cells_of_sixteen_bits_loop_longer() {
    // 256 increments bring a cell of eight bits back to zero, not one of sixteen
    let code = "+[+]";
    assert_eq!(run_basic(code, 1, "").0, Ok(1 + 1 + 255 * 2));
    assert_eq!(run_compressed(code, 1, "").0, Ok(1 + 1 + 65535 * 2));
}

#[test]
fn basic_run_faults_on_a_lone_entry_when_it_must_jump() {
    assert_eq!(run_basic("[", 1, "").0, Err(Fault::Unbalanced { index: 0 }));
    assert_eq!(run_basic("+.>[+", 2, ""), (Err(Fault::Unbalanced { index: 3 }), "\u{1}".to_string()));
}

#[test]
fn basic_run_passes_a_lone_entry_when_the_cell_is_not_zero() {
    assert_eq!(run_basic("+[.", 1, ""), (Ok(3), "\u{1}".to_string()));
}

#[test]
fn basic_run_faults_on_a_lone_exit_when_it_must_jump() {
    assert_eq!(run_basic("+]", 1, "").0, Err(Fault::Unbalanced { index: 1 }));
    assert_eq!(run_basic("+.[-]+]", 1, "").0, Err(Fault::Unbalanced { index: 6 }));
}

#[test]
fn basic_run_passes_a_lone_exit_when_the_cell_is_zero() {
    assert_eq!(run_basic("]+.", 1, ""), (Ok(3), "\u{1}".to_string()));
}

#[test]
fn basic_run_may_jump_back_to_the_first_instruction() {
    let mut interpreter = BasicInterpreter::new(size(1));
    let mut output = Vec::new();
    assert_eq!(interpreter.execute_program(&BasicProgram::new("++"), "", &mut output), Ok(2));
    assert_eq!(interpreter.memory().cell(0), Some(2));
    // the tape is kept from run to run, so this loop is entered at once
    let program = BasicProgram::new("[-.]");
    assert_eq!(interpreter.execute_program(&program, "", &mut output), Ok(1 + 2 * 3));
    assert_eq!(output, vec!['\u{1}', '\0']);
    assert_eq!(interpreter.memory().cell(0), Some(0));
}

#[test]
fn compressed_run_keeps_the_tape_from_run_to_run() {
    let mut interpreter = CompressedInterpreter::new(size(2));
    let mut output = vec!['>'];
    let first = CompressedProgram::new(">+++").unwrap();
    assert_eq!(interpreter.execute_program(&first, "", &mut output), Ok(4));
    let second = CompressedProgram::new("[-.]").unwrap();
    assert_eq!(interpreter.execute_program(&second, "", &mut output), Ok(1 + 3 * 3));
    assert_eq!(output, vec!['>', '\u{2}', '\u{1}', '\0']);
    assert_eq!(interpreter.memory().position(), 1);
    assert_eq!(interpreter.memory().cell(1), Some(0));
}

#[test]
fn basic_run_stops_when_the_budget_is_spent() {
    let program = BasicProgram::new("+[]");
    let mut interpreter = BasicInterpreter::new(size(1));
    let mut output = Vec::new();
    assert_eq!(
        interpreter.execute_bounded(&program, "", &mut output, 1000),
        Err(Fault::OutOfBudget)
    );
    assert_eq!(interpreter.memory().cell(0), Some(1));
}

#[test]
fn basic_budget_counts_instructions() {
    let program = BasicProgram::new("+.+.+.");
    for budget in 0..6 {
        let mut interpreter = BasicInterpreter::new(size(1));
        let mut output = Vec::new();
        assert_eq!(
            interpreter.execute_bounded(&program, "", &mut output, budget),
            Err(Fault::OutOfBudget)
        );
        assert_eq!(output.len(), budget / 2);
        assert_eq!(interpreter.memory().cell(0), Some(((budget + 1) / 2) as u8));
    }
    let mut interpreter = BasicInterpreter::new(size(1));
    let mut output = Vec::new();
    assert_eq!(interpreter.execute_bounded(&program, "", &mut output, 6), Ok(6));
    assert_eq!(output, vec!['\u{1}', '\u{2}', '\u{3}']);
}

#[test]
fn compressed_run_stops_when_the_budget_is_spent() {
    let program = CompressedProgram::new("+[]").unwrap();
    let mut interpreter = CompressedInterpreter::new(size(1));
    let mut output = Vec::new();
    assert_eq!(
        interpreter.execute_bounded(&program, "", &mut output, 1000),
        Err(Fault::OutOfBudget)
    );
    assert_eq!(interpreter.memory().cell(0), Some(1));
}

#[test]
fn compressed_budget_pays_for_whole_deltas() {
    let program = CompressedProgram::new("+++++.").unwrap();
    for budget in 0..5 {
        let mut interpreter = CompressedInterpreter::new(size(1));
        let mut output = Vec::new();
        assert_eq!(
            interpreter.execute_bounded(&program, "", &mut output, budget),
            Err(Fault::OutOfBudget)
        );
        assert_eq!(interpreter.memory().cell(0), Some(0));
    }
    let mut interpreter = CompressedInterpreter::new(size(1));
    let mut output = Vec::new();
    assert_eq!(
        interpreter.execute_bounded(&program, "", &mut output, 5),
        Err(Fault::OutOfBudget)
    );
    assert_eq!(interpreter.memory().cell(0), Some(5));
    assert!(output.is_empty());
    assert_eq!(interpreter.execute_bounded(&program, "", &mut output, 6), Ok(6));
    assert_eq!(output, vec!['\u{a}']);
}

#[test]
fn compressed_budget_pays_one_for_a_delta_of_zero() {
    // the loop body is a change by zero: it adds nothing to the tally but costs 1
    let program = CompressedProgram::new("+[+-]").unwrap();
    let mut interpreter = CompressedInterpreter::new(size(1));
    let mut output = Vec::new();
    assert_eq!(
        interpreter.execute_bounded(&program, "", &mut output, 500),
        Err(Fault::OutOfBudget)
    );
    let halting = CompressedProgram::new("+-.").unwrap();
    assert_eq!(interpreter.execute_bounded(&halting, "", &mut output, 1), Err(Fault::OutOfBudget));
    assert_eq!(interpreter.execute_bounded(&halting, "", &mut output, 2), Ok(1));
}

#[test]
fn price_is_the_cost_or_one() {
    assert_eq!(CompressedInterpreter::price(&CompressedInstruction::Change(0)), 1);
    assert_eq!(CompressedInterpreter::price(&CompressedInstruction::Change(1)), 1);
    assert_eq!(CompressedInterpreter::price(&CompressedInstruction::Change(-9)), 9);
    assert_eq!(CompressedInterpreter::price(&CompressedInstruction::Move(0)), 1);
    assert_eq!(CompressedInterpreter::price(&CompressedInstruction::Move(12)), 12);
    assert_eq!(CompressedInterpreter::price(&CompressedInstruction::Input), 1);
    assert_eq!(CompressedInterpreter::price(&CompressedInstruction::Output), 1);
    assert_eq!(CompressedInterpreter::price(&CompressedInstruction::LoopEnter(7)), 1);
    assert_eq!(CompressedInterpreter::price(&CompressedInstruction::LoopExit(0)), 1);
}

#[test]
fn basic_instruction_by_instruction() {
    let program = BasicProgram::new("");
    let mut interpreter = BasicInterpreter::new(size(2));
    let mut input = InputBuffer::new("Z");
    let mut output = Vec::new();
    let steps = [
        BasicInstruction::Increment,
        BasicInstruction::Output,
        BasicInstruction::MoveLeft,
        BasicInstruction::Input,
        BasicInstruction::Output,
        BasicInstruction::Decrement,
        BasicInstruction::MoveRight,
        BasicInstruction::Output,
    ];
    for instruction in steps.iter() {
        assert_eq!(
            interpreter.execute_instruction(instruction, &program, &mut input, &mut output),
            Ok(())
        );
    }
    assert_eq!(output, vec!['\u{1}', 'Z', '\u{1}']);
    assert_eq!(interpreter.memory().cell(0), Some(1));
    assert_eq!(interpreter.memory().cell(1), Some(89));
    assert_eq!(interpreter.memory().position(), 0);
}

#[test]
fn basic_jump_instructions_need_a_partner() {
    let program = BasicProgram::new("");
    let mut interpreter = BasicInterpreter::new(size(1));
    let mut input = InputBuffer::new("");
    let mut output = Vec::new();
    assert_eq!(
        interpreter.execute_instruction(
            &BasicInstruction::LoopEnter,
            &program,
            &mut input,
            &mut output
        ),
        Err(Fault::Unbalanced { index: 0 })
    );
    assert_eq!(
        interpreter.execute_instruction(
            &BasicInstruction::LoopExit,
            &program,
            &mut input,
            &mut output
        ),
        Ok(())
    );
}

#[test]
fn skip_loop_lands_on_the_exit() {
    let program = BasicProgram::new("[+[-]>]+");
    let mut interpreter = BasicInterpreter::new(size(1));
    assert_eq!(interpreter.skip_loop(&program), Ok(()));
    let mut output = Vec::new();
    let mut input = InputBuffer::new("");
    // standing on the exit at 6, with a zero cell, the exit lets the run pass
    assert_eq!(
        interpreter.execute_instruction(
            &BasicInstruction::LoopExit,
            &program,
            &mut input,
            &mut output
        ),
        Ok(())
    );
    // scanning back from 6 finds the entry at 0, scanning forward again the exit
    assert_eq!(interpreter.reverse_loop(&program), Ok(()));
    assert_eq!(interpreter.reverse_loop(&program), Err(Fault::Unbalanced { index: 0 }));
    assert_eq!(interpreter.skip_loop(&program), Ok(()));
    assert_eq!(interpreter.skip_loop(&program), Err(Fault::Unbalanced { index: 6 }));
}

#[test]
fn compressed_instruction_by_instruction() {
    let mut interpreter = CompressedInterpreter::new(size(3));
    let mut input = InputBuffer::new("k");
    let mut output = Vec::new();
    let steps = [
        (CompressedInstruction::Change(300), 300),
        (CompressedInstruction::Output, 1),
        (CompressedInstruction::Move(-4), 4),
        (CompressedInstruction::Input, 1),
        (CompressedInstruction::Output, 1),
        (CompressedInstruction::Change(0), 0),
        (CompressedInstruction::Move(0), 0),
        (CompressedInstruction::LoopEnter(1), 1),
        (CompressedInstruction::LoopExit(1), 1),
    ];
    for (instruction, cost) in steps.iter() {
        assert_eq!(interpreter.execute_instruction(instruction, &mut input, &mut output), *cost);
    }
    assert_eq!(output, vec![',', 'k']);
    assert_eq!(interpreter.memory().cell(0), Some(300));
    assert_eq!(interpreter.memory().cell(2), Some(107));
    assert_eq!(interpreter.memory().position(), 2);
}

#[test]
fn output_is_appended() {
    let mut output = vec!['a', 'b'];
    let mut interpreter = BasicInterpreter::new(size(1));
    assert_eq!(interpreter.execute_program(&BasicProgram::new(",."), "c", &mut output), Ok(2));
    assert_eq!(output, vec!['a', 'b', 'c']);
    let mut interpreter = CompressedInterpreter::new(size(1));
    let program = CompressedProgram::new(",.").unwrap();
    assert_eq!(interpreter.execute_program(&program, "d", &mut output), Ok(2));
    assert_eq!(output, vec!['a', 'b', 'c', 'd']);
}

#[test]
fn one_program_serves_many_interpreters() {
    let program = CompressedProgram::new(",+.").unwrap();
    for (input, expected) in [("a", 'b'), ("y", 'z'), ("", '\u{1}')] {
        let mut interpreter = CompressedInterpreter::new(size(1));
        let mut output = Vec::new();
        assert_eq!(interpreter.execute_program(&program, input, &mut output), Ok(3));
        assert_eq!(output, vec![expected]);
    }
}
