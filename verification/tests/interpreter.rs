use brainfuck::error::RuntimeError;
use brainfuck::interpreter::execute;
use brainfuck::preprocessor::{lex, parse, Instruction};

/// Runs `source` against a fresh zeroed tape and returns what the program
/// left behind: the tape, the pointer, and the emitted bytes.
fn run_source(
    source: &str,
    memory: usize,
    input: &[u8],
    steps: u64,
) -> (Vec<u8>, usize, Vec<u8>, Result<u64, RuntimeError>) {
    let tokens = lex(source).expect("source should lex");
    let instructions = parse(tokens).expect("source should parse");
    let mut tape = vec![0u8; memory];
    let mut pointer: usize = 0;
    let input = input.to_vec();
    let mut in_pos: usize = 0;
    let mut output: Vec<u8> = Vec::new();
    let result = execute(
        &instructions,
        &mut tape,
        &mut pointer,
        &input,
        &mut in_pos,
        &mut output,
        steps,
    );
    (tape, pointer, output, result)
}

#[test]
fn move_right_wraps_from_last_cell_to_first() {
    let instructions = vec![Instruction::MoveRight(1)];
    let mut tape = vec![0u8; 5];
    let mut pointer: usize = 4;
    let input: Vec<u8> = Vec::new();
    let mut in_pos: usize = 0;
    let mut output: Vec<u8> = Vec::new();
    let result = execute(&instructions, &mut tape, &mut pointer, &input, &mut in_pos, &mut output, 10);
    assert!(result.is_ok());
    assert_eq!(pointer, 0);
}

#[test]
fn move_left_wraps_from_first_cell_to_last() {
    let instructions = vec![Instruction::MoveLeft(1)];
    let mut tape = vec![0u8; 5];
    let mut pointer: usize = 0;
    let input: Vec<u8> = Vec::new();
    let mut in_pos: usize = 0;
    let mut output: Vec<u8> = Vec::new();
    let result = execute(&instructions, &mut tape, &mut pointer, &input, &mut in_pos, &mut output, 10);
    assert!(result.is_ok());
    assert_eq!(pointer, 4);
}

#[test]
fn move_right_seven_on_length_five_equals_move_right_two() {
    for start in 0..5usize {
        let mut tape = vec![0u8; 5];
        let mut pointer = start;
        let input: Vec<u8> = Vec::new();
        let mut in_pos: usize = 0;
        let mut output: Vec<u8> = Vec::new();
        execute(
            &vec![Instruction::MoveRight(7)],
            &mut tape,
            &mut pointer,
            &input,
            &mut in_pos,
            &mut output,
            10,
        )
        .unwrap();
        let seven = pointer;

        let mut tape = vec![0u8; 5];
        let mut pointer = start;
        let mut in_pos: usize = 0;
        let mut output: Vec<u8> = Vec::new();
        execute(
            &vec![Instruction::MoveRight(2)],
            &mut tape,
            &mut pointer,
            &input,
            &mut in_pos,
            &mut output,
            10,
        )
        .unwrap();
        assert_eq!(seven, pointer);
    }
    let (_, pointer, _, _) = run_source(">>>>>>>", 5, &[], 100);
    assert_eq!(pointer, 2);
}

#[test]
fn increment_wraps_cell_from_max_to_zero() {
    let instructions = vec![Instruction::Increment(1)];
    let mut tape = vec![255u8];
    let mut pointer: usize = 0;
    let input: Vec<u8> = Vec::new();
    let mut in_pos: usize = 0;
    let mut output: Vec<u8> = Vec::new();
    execute(&instructions, &mut tape, &mut pointer, &input, &mut in_pos, &mut output, 10).unwrap();
    assert_eq!(tape[0], 0);
}

#[test]
fn decrement_wraps_cell_from_zero_to_max() {
    let instructions = vec![Instruction::Decrement(1)];
    let mut tape = vec![0u8];
    let mut pointer: usize = 0;
    let input: Vec<u8> = Vec::new();
    let mut in_pos: usize = 0;
    let mut output: Vec<u8> = Vec::new();
    execute(&instructions, &mut tape, &mut pointer, &input, &mut in_pos, &mut output, 10).unwrap();
    assert_eq!(tape[0], 255);
}

#[test]
fn add_two_cells_idiom_sums_into_cell_zero_and_writes_it() {
    let (tape, pointer, output, result) = run_source("++>+[-<+>]<.", 2, &[], 1000);
    assert!(result.is_ok());
    assert_eq!(pointer, 0);
    assert_eq!(tape[0], 3);
    assert_eq!(tape[1], 0);
    assert_eq!(output, vec![3u8]);
}

#[test]
fn write_with_count_emits_that_many_copies() {
    let (_, _, output, result) = run_source("++...", 1, &[], 100);
    assert!(result.is_ok());
    assert_eq!(output, vec![2u8, 2, 2]);
}

#[test]
fn read_stores_one_input_byte_per_read() {
    let (tape, _, _, result) = run_source(",>,", 2, &[7, 9], 100);
    assert!(result.is_ok());
    assert_eq!(tape, vec![7u8, 9]);
}

#[test]
fn read_past_the_end_of_input_fails() {
    let (_, _, _, result) = run_source(",,", 1, &[7], 100);
    assert_eq!(result, Err(RuntimeError::InputExhausted));
}

#[test]
fn a_program_that_never_halts_runs_out_of_steps() {
    let (_, _, _, result) = run_source("+[]", 1, &[], 10_000);
    assert_eq!(result, Err(RuntimeError::OutOfSteps));
}

#[test]
fn loop_skipped_when_cell_is_zero() {
    let (tape, _, _, result) = run_source("[+++]", 1, &[], 100);
    assert!(result.is_ok());
    assert_eq!(tape[0], 0);
}

#[test]
fn completing_returns_the_unused_step_budget() {
    let (_, _, _, result) = run_source("+", 1, &[], 5);
    assert_eq!(result, Ok(4));
}

#[test]
fn clear_loop_zeroes_the_cell() {
    let (tape, _, _, result) = run_source("+++++[-]", 1, &[], 1000);
    assert!(result.is_ok());
    assert_eq!(tape[0], 0);
}
