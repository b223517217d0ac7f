use brainfuck::error::LoopError;
use brainfuck::preprocessor::{
    count_repeated, end_loop_index, lex, parse, Instruction, SourceLocation, Token,
};
use brainfuck::error::SyntaxError;

fn tokens_of(source: &str) -> Vec<Token> {
    lex(source).unwrap()
}

#[test]
fn run_of_increments_collapses_to_one_counted_instruction() {
    let instructions = parse(tokens_of("+++")).unwrap();
    assert_eq!(instructions.len(), 1);
    assert!(matches!(instructions[0], Instruction::Increment(3)));
}

#[test]
fn consecutive_reads_are_never_collapsed() {
    let instructions = parse(tokens_of(",,")).unwrap();
    assert_eq!(instructions.len(), 2);
    assert!(matches!(instructions[0], Instruction::Read));
    assert!(matches!(instructions[1], Instruction::Read));
}

#[test]
fn each_command_kind_parses_with_its_run_length() {
    let instructions = parse(tokens_of(">>><<+--..")).unwrap();
    assert_eq!(instructions.len(), 5);
    assert!(matches!(instructions[0], Instruction::MoveRight(3)));
    assert!(matches!(instructions[1], Instruction::MoveLeft(2)));
    assert!(matches!(instructions[2], Instruction::Increment(1)));
    assert!(matches!(instructions[3], Instruction::Decrement(2)));
    assert!(matches!(instructions[4], Instruction::Write(2)));
}

#[test]
fn loops_nest_and_own_their_bodies() {
    let instructions = parse(tokens_of("+[->[+]<]")).unwrap();
    assert_eq!(instructions.len(), 2);
    assert!(matches!(instructions[0], Instruction::Increment(1)));
    match &instructions[1] {
        Instruction::Loop(body) => {
            assert_eq!(body.len(), 4);
            assert!(matches!(body[0], Instruction::Decrement(1)));
            assert!(matches!(body[1], Instruction::MoveRight(1)));
            match &body[2] {
                Instruction::Loop(inner) => {
                    assert_eq!(inner.len(), 1);
                    assert!(matches!(inner[0], Instruction::Increment(1)));
                },
                other => panic!("expected a nested loop, got {:?}", other),
            }
            assert!(matches!(body[3], Instruction::MoveLeft(1)));
        },
        other => panic!("expected a loop, got {:?}", other),
    }
}

#[test]
fn empty_token_sequence_parses_to_no_instructions() {
    let instructions = parse(Vec::new()).unwrap();
    assert_eq!(instructions.len(), 0);
}

#[test]
fn direct_loop_end_token_fails_with_missing_start() {
    let tokens = vec![Token::LoopEnd(SourceLocation { line: 4, column: 7 })];
    let error = parse(tokens).unwrap_err();
    assert_eq!(
        error,
        SyntaxError { line: 4, column: 7, error: LoopError::MissingStart }
    );
}

#[test]
fn unmatched_loop_start_token_fails_with_missing_end() {
    let tokens = vec![
        Token::LoopStart(SourceLocation { line: 2, column: 5 }),
        Token::Increment(SourceLocation { line: 2, column: 6 }),
    ];
    let error = parse(tokens).unwrap_err();
    assert_eq!(
        error,
        SyntaxError { line: 2, column: 5, error: LoopError::MissingEnd }
    );
}

#[test]
fn balanced_source_parses_with_at_most_one_instruction_per_character() {
    let source = "+>[-]<";
    let tokens = tokens_of(source);
    let instructions = parse(tokens).unwrap();
    assert!(instructions.len() <= source.len());
    assert_eq!(instructions.len(), 4);
}

#[test]
fn count_repeated_measures_the_leading_run() {
    let tokens = tokens_of("+++->");
    assert_eq!(count_repeated(&tokens), 3);
    let tokens = tokens_of(">");
    assert_eq!(count_repeated(&tokens), 1);
}

#[test]
fn end_loop_index_finds_the_matching_end() {
    let tokens = tokens_of("[+[-]]+");
    assert_eq!(end_loop_index(&tokens, 0), Ok(5));
    assert_eq!(end_loop_index(&tokens, 2), Ok(4));
}

#[test]
fn end_loop_index_reports_a_missing_end() {
    let tokens = vec![
        Token::LoopStart(SourceLocation { line: 1, column: 1 }),
        Token::LoopStart(SourceLocation { line: 1, column: 2 }),
        Token::Increment(SourceLocation { line: 1, column: 3 }),
        Token::LoopEnd(SourceLocation { line: 1, column: 4 }),
    ];
    assert_eq!(end_loop_index(&tokens, 0), Err(LoopError::MissingEnd));
    assert_eq!(end_loop_index(&tokens, 1), Ok(3));
}
