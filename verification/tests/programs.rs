use std::collections::HashMap;
use tape_machine::program::basic::{BasicInstruction, BasicProgram};
use tape_machine::program::semicolon_compressed::{
    CompressedInstruction, CompressedInstructionStage1, CompressedProgram,
};
use tape_machine::program::{Program, Unbalanced};

fn basic_stream(program: &BasicProgram) -> Vec<BasicInstruction> {
    let mut stream = Vec::new();
    let mut index = 0;
    while let Some(instruction) = program.get(index) {
        stream.push(instruction);
        index += 1;
    }
    stream
}

fn compressed_stream(program: &CompressedProgram) -> Vec<CompressedInstruction> {
    let mut stream = Vec::new();
    let mut index = 0;
    while let Some(instruction) = program.get(index) {
        stream.push(instruction);
        index += 1;
    }
    stream
}

fn tokens(code: &str) -> Vec<CompressedInstructionStage1> {
    code.chars().filter_map(CompressedProgram::first_pass).collect()
}

#[test]
fn basic_builder_maps_each_symbol() {
    let program = BasicProgram::new("+-<>,.[]");
    assert_eq!(
        basic_stream(&program),
        vec![
            BasicInstruction::Increment,
            BasicInstruction::Decrement,
            BasicInstruction::MoveLeft,
            BasicInstruction::MoveRight,
            BasicInstruction::Input,
            BasicInstruction::Output,
            BasicInstruction::LoopEnter,
            BasicInstruction::LoopExit,
        ]
    );
    assert_eq!(program.len(), 8);
    assert!(!program.is_empty());
}

#[test]
fn basic_builder_drops_comments() {
    let program = BasicProgram::new("a + b\n- c é [x] ");
    assert_eq!(
        basic_stream(&program),
        vec![
            BasicInstruction::Increment,
            BasicInstruction::Decrement,
            BasicInstruction::LoopEnter,
            BasicInstruction::LoopExit,
        ]
    );
}

#[test]
fn basic_builder_accepts_unbalanced_text() {
    let program = BasicProgram::new("]][");
    assert_eq!(program.len(), 3);
    assert_eq!(program.get(0), Some(BasicInstruction::LoopExit));
    assert_eq!(program.get(2), Some(BasicInstruction::LoopEnter));
    assert_eq!(program.get(3), None);
}

#[test]
fn empty_text_gives_empty_programs() {
    let basic = BasicProgram::new("");
    assert!(basic.is_empty());
    assert_eq!(basic.len(), 0);
    assert_eq!(basic.get(0), None);
    let compressed = CompressedProgram::new("only a comment").unwrap();
    assert!(compressed.is_empty());
    assert_eq!(compressed.len(), 0);
    assert_eq!(compressed.get(0), None);
}

#[test]
fn create_instruction_knows_eight_symbols() {
    assert_eq!(BasicProgram::create_instruction('+'), Some(BasicInstruction::Increment));
    assert_eq!(BasicProgram::create_instruction('-'), Some(BasicInstruction::Decrement));
    assert_eq!(BasicProgram::create_instruction('<'), Some(BasicInstruction::MoveLeft));
    assert_eq!(BasicProgram::create_instruction('>'), Some(BasicInstruction::MoveRight));
    assert_eq!(BasicProgram::create_instruction(','), Some(BasicInstruction::Input));
    assert_eq!(BasicProgram::create_instruction('.'), Some(BasicInstruction::Output));
    assert_eq!(BasicProgram::create_instruction('['), Some(BasicInstruction::LoopEnter));
    assert_eq!(BasicProgram::create_instruction(']'), Some(BasicInstruction::LoopExit));
    assert_eq!(BasicProgram::create_instruction(';'), None);
    assert_eq!(BasicProgram::create_instruction(' '), None);
}

#[test]
fn first_pass_gives_unit_deltas() {
    assert_eq!(CompressedProgram::first_pass('+'), Some(CompressedInstructionStage1::Change(1)));
    assert_eq!(CompressedProgram::first_pass('-'), Some(CompressedInstructionStage1::Change(-1)));
    assert_eq!(CompressedProgram::first_pass('<'), Some(CompressedInstructionStage1::Move(-1)));
    assert_eq!(CompressedProgram::first_pass('>'), Some(CompressedInstructionStage1::Move(1)));
    assert_eq!(CompressedProgram::first_pass(','), Some(CompressedInstructionStage1::Input));
    assert_eq!(CompressedProgram::first_pass('.'), Some(CompressedInstructionStage1::Output));
    assert_eq!(CompressedProgram::first_pass('['), Some(CompressedInstructionStage1::LoopEnter));
    assert_eq!(CompressedProgram::first_pass(']'), Some(CompressedInstructionStage1::LoopExit));
    assert_eq!(CompressedProgram::first_pass('x'), None);
}

#[test]
fn second_pass_folds_runs() {
    assert_eq!(
        CompressedProgram::second_pass(tokens("+++>>-<<<..,,")),
        vec![
            CompressedInstructionStage1::Change(3),
            CompressedInstructionStage1::Move(2),
            CompressedInstructionStage1::Change(-1),
            CompressedInstructionStage1::Move(-3),
            CompressedInstructionStage1::Output,
            CompressedInstructionStage1::Output,
            CompressedInstructionStage1::Input,
            CompressedInstructionStage1::Input,
        ]
    );
}

#[test]
fn second_pass_sums_mixed_signs() {
    assert_eq!(
        CompressedProgram::second_pass(tokens("++-")),
        vec![CompressedInstructionStage1::Change(1)]
    );
    assert_eq!(
        CompressedProgram::second_pass(tokens("><")),
        vec![CompressedInstructionStage1::Move(0)]
    );
}

#[test]
fn second_pass_keeps_a_change_before_an_input() {
    assert_eq!(
        CompressedProgram::second_pass(tokens("++,")),
        vec![CompressedInstructionStage1::Change(2), CompressedInstructionStage1::Input]
    );
}

#[test]
fn second_pass_leaves_brackets_apart() {
    assert_eq!(
        CompressedProgram::second_pass(tokens("[[]]")),
        vec![
            CompressedInstructionStage1::LoopEnter,
            CompressedInstructionStage1::LoopEnter,
            CompressedInstructionStage1::LoopExit,
            CompressedInstructionStage1::LoopExit,
        ]
    );
}

#[test]
fn second_pass_of_nothing_is_nothing() {
    assert_eq!(CompressedProgram::second_pass(Vec::new()), Vec::new());
}

#[test]
fn second_pass_wraps_deltas() {
    let stream = vec![
        CompressedInstructionStage1::Change(i32::MAX),
        CompressedInstructionStage1::Change(1),
        CompressedInstructionStage1::Move(i32::MIN),
        CompressedInstructionStage1::Move(-1),
    ];
    assert_eq!(
        CompressedProgram::second_pass(stream),
        vec![
            CompressedInstructionStage1::Change(i32::MIN),
            CompressedInstructionStage1::Move(i32::MAX),
        ]
    );
}

#[test]
fn merging_twice_changes_nothing() {
    for code in ["", "+", "++--<<>>,,..", "+[->++<]>.", "+>+>+<<-[-]"] {
        let once = CompressedProgram::second_pass(tokens(code));
        let twice = CompressedProgram::second_pass(once.clone());
        assert_eq!(once, twice);
        for pair in once.windows(2) {
            let both_change = matches!(pair[0], CompressedInstructionStage1::Change(_))
                && matches!(pair[1], CompressedInstructionStage1::Change(_));
            let both_move = matches!(pair[0], CompressedInstructionStage1::Move(_))
                && matches!(pair[1], CompressedInstructionStage1::Move(_));
            assert!(!both_change && !both_move);
        }
    }
}

#[test]
fn matching_scans_find_partners() {
    let stream = CompressedProgram::second_pass(tokens("[+[-]>[.]]"));
    // [ +1 [ -1 ] >1 [ . ] ]
    assert_eq!(stream.len(), 10);
    assert_eq!(CompressedProgram::find_matching_exit(&stream, 0), Some(9));
    assert_eq!(CompressedProgram::find_matching_exit(&stream, 2), Some(4));
    assert_eq!(CompressedProgram::find_matching_exit(&stream, 6), Some(8));
    assert_eq!(CompressedProgram::find_matching_enter(&stream, 9), Some(0));
    assert_eq!(CompressedProgram::find_matching_enter(&stream, 4), Some(2));
    assert_eq!(CompressedProgram::find_matching_enter(&stream, 8), Some(6));
}

#[test]
fn matching_scans_run_off_the_ends() {
    let stream = CompressedProgram::second_pass(tokens("][[]"));
    assert_eq!(CompressedProgram::find_matching_enter(&stream, 0), None);
    assert_eq!(CompressedProgram::find_matching_exit(&stream, 1), None);
    assert_eq!(CompressedProgram::find_matching_exit(&stream, 2), Some(3));
    assert_eq!(CompressedProgram::find_matching_exit(&stream, 3), None);
    assert_eq!(CompressedProgram::find_matching_exit(&stream, 4), None);
    assert_eq!(CompressedProgram::find_matching_enter(&stream, 4), None);
    assert_eq!(CompressedProgram::find_matching_exit(&[], 0), None);
    assert_eq!(CompressedProgram::find_matching_enter(&[], 0), None);
}

#[test]
fn calculate_jumps_pairs_brackets() {
    let stream = CompressedProgram::second_pass(tokens("+[>[-]<-]"));
    // +1 [ >1 [ -1 ] <1 -1 ]
    let jumps = CompressedProgram::calculate_jumps(&stream).unwrap();
    let mut expected = HashMap::new();
    expected.insert(1, 8);
    expected.insert(8, 1);
    expected.insert(3, 5);
    expected.insert(5, 3);
    assert_eq!(jumps, expected);
}

#[test]
fn calculate_jumps_reports_the_first_lone_bracket() {
    let open = CompressedProgram::second_pass(tokens("+[-]["));
    assert_eq!(CompressedProgram::calculate_jumps(&open), Err(Unbalanced { index: 4 }));
    let close = CompressedProgram::second_pass(tokens("[]]+["));
    assert_eq!(CompressedProgram::calculate_jumps(&close), Err(Unbalanced { index: 2 }));
    let crossed = CompressedProgram::second_pass(tokens("]["));
    assert_eq!(CompressedProgram::calculate_jumps(&crossed), Err(Unbalanced { index: 0 }));
}

#[test]
fn third_pass_writes_targets_into_brackets() {
    let stream = CompressedProgram::second_pass(tokens(",[.-]"));
    let jumps = CompressedProgram::calculate_jumps(&stream).unwrap();
    assert_eq!(
        CompressedProgram::third_pass(stream, &jumps),
        vec![
            CompressedInstruction::Input,
            CompressedInstruction::LoopEnter(4),
            CompressedInstruction::Output,
            CompressedInstruction::Change(-1),
            CompressedInstruction::LoopExit(1),
        ]
    );
}

#[test]
fn compressed_builder_resolves_nested_loops() {
    let program = CompressedProgram::new("++ [ > +++ [ - ] < - ] .").unwrap();
    assert_eq!(
        compressed_stream(&program),
        vec![
            CompressedInstruction::Change(2),
            CompressedInstruction::LoopEnter(9),
            CompressedInstruction::Move(1),
            CompressedInstruction::Change(3),
            CompressedInstruction::LoopEnter(6),
            CompressedInstruction::Change(-1),
            CompressedInstruction::LoopExit(4),
            CompressedInstruction::Move(-1),
            CompressedInstruction::Change(-1),
            CompressedInstruction::LoopExit(1),
            CompressedInstruction::Output,
        ]
    );
    assert_eq!(program.len(), 11);
    assert!(!program.is_empty());
    assert_eq!(program.get(11), None);
}

#[test]
fn jump_table_is_symmetric() {
    let program = CompressedProgram::new("+[>[-]<-]>[[.]+[,]]").unwrap();
    let mut entries = 0;
    for index in 0..program.len() {
        match program.get(index) {
            Some(CompressedInstruction::LoopEnter(target)) => {
                entries += 1;
                assert!(index < target);
                assert_eq!(program.get(target), Some(CompressedInstruction::LoopExit(index)));
                assert_eq!(program.get_jump_location(index), Some(target));
                assert_eq!(program.get_jump_location(target), Some(index));
                let mut depth = 0i64;
                for between in index + 1..target {
                    match program.get(between) {
                        Some(CompressedInstruction::LoopEnter(_)) => depth += 1,
                        Some(CompressedInstruction::LoopExit(_)) => depth -= 1,
                        _ => {}
                    }
                    assert!(depth >= 0);
                }
                assert_eq!(depth, 0);
            }
            Some(CompressedInstruction::LoopExit(_)) => {}
            _ => assert_eq!(program.get_jump_location(index), None),
        }
    }
    assert_eq!(entries, 5);
}

#[test]
fn jump_location_outside_the_program_is_none() {
    let program = CompressedProgram::new("[-]").unwrap();
    assert_eq!(program.get_jump_location(0), Some(2));
    assert_eq!(program.get_jump_location(1), None);
    assert_eq!(program.get_jump_location(2), Some(0));
    assert_eq!(program.get_jump_location(3), None);
    assert_eq!(program.get_jump_location(usize::MAX), None);
}

#[test]
fn compressed_builder_rejects_unbalanced_text() {
    assert_eq!(CompressedProgram::new("[").err(), Some(Unbalanced { index: 0 }));
    assert_eq!(CompressedProgram::new("]").err(), Some(Unbalanced { index: 0 }));
    assert_eq!(CompressedProgram::new("+++]").err(), Some(Unbalanced { index: 1 }));
    assert_eq!(CompressedProgram::new("[[-]").err(), Some(Unbalanced { index: 0 }));
    assert_eq!(CompressedProgram::new("[-]]").err(), Some(Unbalanced { index: 3 }));
    assert_eq!(CompressedProgram::new("+[-]>>[").err(), Some(Unbalanced { index: 5 }));
    assert!(CompressedProgram::new("[[][]]").is_ok());
}
