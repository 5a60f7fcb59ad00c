use tape_machine::interpreter::basic::BasicInterpreter;
use tape_machine::interpreter::semicolon_compressed::CompressedInterpreter;
use tape_machine::interpreter::{Fault, Interpreter, ProgramInterpreter, TapeSize};
use tape_machine::program::basic::BasicProgram;
use tape_machine::program::semicolon_compressed::CompressedProgram;
use tape_machine::program::Unbalanced;

fn size(cells: usize) -> TapeSize {
    TapeSize::new(cells).unwrap()
}

#[test]
fn echo_two_characters_basic() {
    let program = BasicProgram::new(",.,.");
    let mut interpreter = BasicInterpreter::new(size(1));
    let mut output = Vec::new();
    let tally = interpreter.execute_program(&program, "AB", &mut output);
    assert_eq!(tally, Ok(4));
    assert_eq!(output, vec!['A', 'B']);
}

#[test]
fn echo_two_characters_compressed() {
    let program = CompressedProgram::new(",.,.").unwrap();
    let mut interpreter = CompressedInterpreter::new(size(1));
    let mut output = Vec::new();
    let tally = interpreter.execute_program(&program, "AB", &mut output);
    assert_eq!(tally, Ok(4));
    assert_eq!(output, vec!['A', 'B']);
}

#[test]
fn multiplication_loop_agrees() {
    let source = "++++[>++++<-]>.";
    for cells in [2usize, 3, 30000] {
        for input in ["", "xyz"] {
            let mut basic_output = Vec::new();
            let mut basic = BasicInterpreter::new(size(cells));
            let basic_tally =
                basic.execute_program(&BasicProgram::new(source), input, &mut basic_output);
            assert!(basic_tally.is_ok());
            assert_eq!(basic_output, vec!['\u{10}']);
            assert_eq!(basic.memory().cell(1), Some(16));

            let mut compressed_output = Vec::new();
            let mut compressed = CompressedInterpreter::new(size(cells));
            let program = CompressedProgram::new(source).unwrap();
            let compressed_tally =
                compressed.execute_program(&program, input, &mut compressed_output);
            assert!(compressed_tally.is_ok());
            assert_eq!(compressed_output, basic_output);
            assert_eq!(compressed.memory().cell(1), Some(16));
        }
    }
}

#[test]
fn lone_bracket_is_rejected_by_the_builder() {
    assert_eq!(CompressedProgram::new("[").err(), Some(Unbalanced { index: 0 }));
}

#[test]
fn lone_bracket_faults_the_basic_run() {
    let program = BasicProgram::new("[");
    let mut interpreter = BasicInterpreter::new(size(1));
    let mut output = Vec::new();
    assert_eq!(
        interpreter.execute_program(&program, "", &mut output),
        Err(Fault::Unbalanced { index: 0 })
    );
}
