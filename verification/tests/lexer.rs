use brainfuck::error::LoopError;
use brainfuck::preprocessor::{lex, SourceLocation, Token};

fn loc(t: &Token) -> SourceLocation {
    match t {
        Token::MoveRight(l) => *l,
        Token::MoveLeft(l) => *l,
        Token::Increment(l) => *l,
        Token::Decrement(l) => *l,
        Token::Write(l) => *l,
        Token::Read(l) => *l,
        Token::LoopStart(l) => *l,
        Token::LoopEnd(l) => *l,
    }
}

#[test]
fn lexes_all_eight_commands_in_order() {
    let tokens = lex("><+-.,[]").unwrap();
    assert_eq!(tokens.len(), 8);
    assert!(matches!(tokens[0], Token::MoveRight(_)));
    assert!(matches!(tokens[1], Token::MoveLeft(_)));
    assert!(matches!(tokens[2], Token::Increment(_)));
    assert!(matches!(tokens[3], Token::Decrement(_)));
    assert!(matches!(tokens[4], Token::Write(_)));
    assert!(matches!(tokens[5], Token::Read(_)));
    assert!(matches!(tokens[6], Token::LoopStart(_)));
    assert!(matches!(tokens[7], Token::LoopEnd(_)));
}

#[test]
fn skips_comment_characters() {
    let tokens = lex("a + b (comment) .").unwrap();
    assert_eq!(tokens.len(), 2);
    assert!(matches!(tokens[0], Token::Increment(_)));
    assert!(matches!(tokens[1], Token::Write(_)));
}

#[test]
fn empty_source_lexes_to_no_tokens() {
    let tokens = lex("").unwrap();
    assert_eq!(tokens.len(), 0);
}

#[test]
fn stray_loop_end_reports_missing_start_at_line_one_column_one() {
    let errors = lex("]").unwrap_err();
    assert_eq!(errors.len(), 1);
    assert_eq!(errors[0].line, 1);
    assert_eq!(errors[0].column, 1);
    assert_eq!(errors[0].error, LoopError::MissingStart);
}

#[test]
fn lone_loop_start_reports_missing_end_at_line_one_column_one() {
    let errors = lex("[").unwrap_err();
    assert_eq!(errors.len(), 1);
    assert_eq!(errors[0].line, 1);
    assert_eq!(errors[0].column, 1);
    assert_eq!(errors[0].error, LoopError::MissingEnd);
}

#[test]
fn one_unclosed_outer_loop_reports_exactly_one_missing_end() {
    let errors = lex("[[]").unwrap_err();
    assert_eq!(errors.len(), 1);
    assert_eq!(errors[0].error, LoopError::MissingEnd);
    assert_eq!(errors[0].line, 1);
    assert_eq!(errors[0].column, 1);
}

#[test]
fn stray_end_then_unclosed_start_reports_both_in_order() {
    let errors = lex("]+[").unwrap_err();
    assert_eq!(errors.len(), 2);
    assert_eq!(errors[0].error, LoopError::MissingStart);
    assert_eq!(errors[0].column, 1);
    assert_eq!(errors[1].error, LoopError::MissingEnd);
    assert_eq!(errors[1].column, 3);
}

#[test]
fn every_scanned_character_advances_the_column() {
    let errors = lex("]]").unwrap_err();
    assert_eq!(errors.len(), 2);
    assert_eq!(errors[0].error, LoopError::MissingStart);
    assert_eq!(errors[0].column, 1);
    assert_eq!(errors[1].error, LoopError::MissingStart);
    assert_eq!(errors[1].column, 2);
}

#[test]
fn lexing_twice_yields_identical_token_sequences() {
    let source = "+>[-.,]< comment \n +";
    let first = lex(source).unwrap();
    let second = lex(source).unwrap();
    assert_eq!(first, second);
}

#[test]
fn character_after_newline_is_at_column_one_of_next_line() {
    let tokens = lex("++\n+").unwrap();
    assert_eq!(tokens.len(), 3);
    let l = loc(&tokens[2]);
    assert_eq!(l.line, 2);
    assert_eq!(l.column, 1);
}

#[test]
fn columns_count_from_one_per_line() {
    let tokens = lex(".\n..").unwrap();
    assert_eq!(tokens.len(), 3);
    assert_eq!(loc(&tokens[0]), SourceLocation { line: 1, column: 1 });
    assert_eq!(loc(&tokens[1]), SourceLocation { line: 2, column: 1 });
    assert_eq!(loc(&tokens[2]), SourceLocation { line: 2, column: 2 });
}

#[test]
fn error_location_tracks_lines_and_columns() {
    let errors = lex("+-\n.,]").unwrap_err();
    assert_eq!(errors.len(), 1);
    assert_eq!(errors[0].line, 2);
    assert_eq!(errors[0].column, 3);
    assert_eq!(errors[0].error, LoopError::MissingStart);
}
