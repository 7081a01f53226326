//! Tests for the parser.

use bf_interp::ast::Instruction::{
    Dec, Inc, Input, LoopEntry, LoopExit, MoveLeft, MoveRight, Output,
};
use bf_interp::ast::{Program, SyntaxError};
use bf_interp::parser::parse;

#[test]
fn skip_white_space() {
    assert_eq!(
        Ok(Program { instructions: vec![Input, Output] }),
        parse("    ,    .    ".to_string())
    );
}

#[test]
fn parse_input_output() {
    assert_eq!(Ok(Program { instructions: vec![Output, Input] }), parse(".,".to_string()));
}

#[test]
fn parse_inc_dec() {
    assert_eq!(Ok(Program { instructions: vec![Inc(1u8), Dec(1u8)] }), parse("+-".to_string()));
}

#[test]
fn parse_moves() {
    assert_eq!(
        Ok(Program { instructions: vec![MoveRight(1usize), MoveLeft(1usize)] }),
        parse("><".to_string())
    );
}

#[test]
fn parse_loop() {
    assert_eq!(
        Ok(Program { instructions: vec![LoopEntry(1usize), LoopExit(0usize)] }),
        parse("[]".to_string())
    );
}

#[test]
fn parse_program_with_all_instructions() {
    assert_eq!(
        Ok(Program {
            instructions: vec![
                Input,             // 0
                Inc(1u8),          // 1
                MoveRight(1usize), // 2
                Inc(1u8),          // 3
                LoopEntry(6usize), // 4
                Dec(1u8),          // 5
                LoopExit(4usize),  // 6
                MoveLeft(1usize),  // 7
                Output,            // 8
            ],
        }),
        parse(",+>+[-]<.".to_string())
    );
}

#[test]
#[should_panic]
fn parse_unbalanced_move_left() {
    let _ = parse("[".to_string()).unwrap();
}

#[test]
#[should_panic]
fn parse_unbalanced_move_right() {
    let _ = parse("]".to_string()).unwrap();
}

#[test]
fn unclosed_entry_is_named() {
    assert_eq!(Err(SyntaxError::UnbalancedOpener(0)), parse("[".to_string()));
}

#[test]
fn stray_exit_is_named() {
    assert_eq!(Err(SyntaxError::UnbalancedCloser(0)), parse("]".to_string()));
}

#[test]
fn error_index_counts_instructions_not_characters() {
    assert_eq!(Err(SyntaxError::UnbalancedCloser(3)), parse(" + x[y] ] ".to_string()));
    assert_eq!(Err(SyntaxError::UnbalancedCloser(2)), parse("[]][".to_string()));
}

#[test]
fn oldest_unclosed_entry_is_reported() {
    assert_eq!(Err(SyntaxError::UnbalancedOpener(1)), parse("+[[-][".to_string()));
    assert_eq!(Err(SyntaxError::UnbalancedOpener(0)), parse("[[]".to_string()));
    assert_eq!(Err(SyntaxError::UnbalancedOpener(2)), parse("[][[]".to_string()));
}

#[test]
fn empty_and_symbol_free_text() {
    assert_eq!(Ok(Program { instructions: vec![] }), parse(String::new()));
    assert_eq!(Ok(Program { instructions: vec![] }), parse("hello world\n".to_string()));
}

#[test]
fn other_characters_take_no_index() {
    assert_eq!(
        Ok(Program { instructions: vec![Inc(1), LoopEntry(3), Dec(1), LoopExit(1), Output] }),
        parse("a+b\u{e9}[c-\n]\t.".to_string())
    );
}

#[test]
fn nested_loops_are_resolved() {
    assert_eq!(
        Ok(Program {
            instructions: vec![
                LoopEntry(7),
                LoopEntry(3),
                Inc(1),
                LoopExit(1),
                LoopEntry(6),
                Dec(1),
                LoopExit(4),
                LoopExit(0),
            ],
        }),
        parse("[[+][-]]".to_string())
    );
}

#[test]
fn one_instruction_for_each_symbol() {
    let text = "++ > [ - < ] comment . , .";
    let program = parse(text.to_string()).unwrap();
    let kept: Vec<char> = text.chars().filter(|c| "><+-.,[]".contains(*c)).collect();
    assert_eq!(kept.len(), program.instructions.len());
    assert_eq!(10, program.instructions.len());
}
