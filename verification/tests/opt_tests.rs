//! Tests for the optimizer.

use bf_interp::ast::Instruction::{
    Dec, Inc, Input, LoopEntry, LoopExit, MoveLeft, MoveRight, Output,
};
use bf_interp::ast::{Program, SyntaxError};
use bf_interp::opt::optimize;
use bf_interp::parser::parse;

#[test]
fn opt_tests_merge_inc() {
    assert_eq!(
        Ok(Program { instructions: vec![Inc(12)] }),
        optimize(&Program { instructions: vec![Inc(3), Inc(4), Inc(5)] })
    );
}

#[test]
fn opt_tests_merge_inc_segment() {
    assert_eq!(
        Ok(Program { instructions: vec![Inc(2), Output, Inc(3)] }),
        optimize(&Program { instructions: vec![Inc(1), Inc(1), Output, Inc(2), Inc(1)] })
    );
}

#[test]
fn opt_tests_merge_dec() {
    assert_eq!(
        Ok(Program { instructions: vec![Dec(12)] }),
        optimize(&Program { instructions: vec![Dec(3), Dec(4), Dec(5)] })
    );
}

#[test]
fn opt_tests_merge_dec_segment() {
    assert_eq!(
        Ok(Program { instructions: vec![Dec(2), Output, Dec(3)] }),
        optimize(&Program { instructions: vec![Dec(1), Dec(1), Output, Dec(2), Dec(1)] })
    );
}

#[test]
fn opt_tests_merge_move_left() {
    assert_eq!(
        Ok(Program { instructions: vec![MoveLeft(12)] }),
        optimize(&Program { instructions: vec![MoveLeft(3), MoveLeft(4), MoveLeft(5)] })
    );
}

#[test]
fn opt_tests_merge_move_left_segment() {
    assert_eq!(
        Ok(Program { instructions: vec![MoveLeft(2), Output, MoveLeft(3)] }),
        optimize(&Program {
            instructions: vec![MoveLeft(1), MoveLeft(1), Output, MoveLeft(2), MoveLeft(1)],
        })
    );
}

#[test]
fn opt_tests_merge_move_right() {
    assert_eq!(
        Ok(Program { instructions: vec![MoveRight(12)] }),
        optimize(&Program { instructions: vec![MoveRight(3), MoveRight(4), MoveRight(5)] })
    );
}

#[test]
fn opt_tests_merge_move_right_segment() {
    assert_eq!(
        Ok(Program { instructions: vec![MoveRight(2), Output, MoveRight(3)] }),
        optimize(&Program {
            instructions: vec![MoveRight(1), MoveRight(1), Output, MoveRight(2), MoveRight(1)],
        })
    );
}

#[test]
fn opt_tests_keep_loop() {
    assert_eq!(
        Ok(Program { instructions: vec![Inc(9), LoopEntry(3), Dec(3), LoopExit(1)] }),
        optimize(&Program {
            instructions: vec![
                Inc(4),
                Inc(5),
                LoopEntry(6),
                Dec(1),
                Dec(1),
                Dec(1),
                LoopExit(2),
            ],
        })
    )
}

#[test]
fn opt_test_merge_inc() {
    assert_eq!(
        Ok(Program { instructions: vec![Inc(12)] }),
        optimize(&Program { instructions: vec![Inc(3), Inc(4), Inc(5)] })
    );
}

#[test]
fn opt_test_merge_inc_segment() {
    assert_eq!(
        Ok(Program { instructions: vec![Inc(2), Output, Inc(3)] }),
        optimize(&Program { instructions: vec![Inc(1), Inc(1), Output, Inc(2), Inc(1)] })
    );
}

#[test]
fn opt_test_merge_dec() {
    assert_eq!(
        Ok(Program { instructions: vec![Dec(12)] }),
        optimize(&Program { instructions: vec![Dec(3), Dec(4), Dec(5)] })
    );
}

#[test]
fn opt_test_merge_dec_segment() {
    assert_eq!(
        Ok(Program { instructions: vec![Dec(2), Output, Dec(3)] }),
        optimize(&Program { instructions: vec![Dec(1), Dec(1), Output, Dec(2), Dec(1)] })
    );
}

#[test]
fn opt_test_merge_move_left() {
    assert_eq!(
        Ok(Program { instructions: vec![MoveLeft(12)] }),
        optimize(&Program { instructions: vec![MoveLeft(3), MoveLeft(4), MoveLeft(5)] })
    );
}

#[test]
fn opt_test_merge_move_left_segment() {
    assert_eq!(
        Ok(Program { instructions: vec![MoveLeft(2), Output, MoveLeft(3)] }),
        optimize(&Program {
            instructions: vec![MoveLeft(1), MoveLeft(1), Output, MoveLeft(2), MoveLeft(1)],
        })
    );
}

#[test]
fn opt_test_merge_move_right() {
    assert_eq!(
        Ok(Program { instructions: vec![MoveRight(12)] }),
        optimize(&Program { instructions: vec![MoveRight(3), MoveRight(4), MoveRight(5)] })
    );
}

#[test]
fn opt_test_merge_move_right_segment() {
    assert_eq!(
        Ok(Program { instructions: vec![MoveRight(2), Output, MoveRight(3)] }),
        optimize(&Program {
            instructions: vec![MoveRight(1), MoveRight(1), Output, MoveRight(2), MoveRight(1)],
        })
    );
}

#[test]
fn opt_test_keep_loop() {
    assert_eq!(
        Ok(Program { instructions: vec![Inc(9), LoopEntry(3), Dec(3), LoopExit(1)] }),
        optimize(&Program {
            instructions: vec![
                Inc(4),
                Inc(5),
                LoopEntry(6),
                Dec(1),
                Dec(1),
                Dec(1),
                LoopExit(2),
            ],
        })
    )
}

#[test]
fn cell_values_wrap_when_fused() {
    assert_eq!(
        Ok(Program { instructions: vec![Inc(4)] }),
        optimize(&Program { instructions: vec![Inc(250), Inc(10)] })
    );
    assert_eq!(
        Ok(Program { instructions: vec![Dec(0)] }),
        optimize(&Program { instructions: vec![Dec(255), Dec(1)] })
    );
}

#[test]
fn different_kinds_do_not_fuse() {
    let mixed = vec![Inc(1), Dec(1), MoveLeft(1), MoveRight(1), Input, Input, Output, Output];
    assert_eq!(
        Ok(Program { instructions: mixed.clone() }),
        optimize(&Program { instructions: mixed })
    );
}

#[test]
fn loop_instructions_break_a_run() {
    assert_eq!(
        Ok(Program {
            instructions: vec![Inc(2), LoopEntry(2), LoopExit(1), Inc(2), LoopEntry(5), LoopExit(4)],
        }),
        optimize(&Program {
            instructions: vec![
                Inc(1),
                Inc(1),
                LoopEntry(3),
                LoopExit(2),
                Inc(1),
                Inc(1),
                LoopEntry(7),
                LoopExit(6),
            ],
        })
    );
}

#[test]
fn optimizing_twice_changes_nothing_more() {
    let parsed = parse("++>>[-<<+++[->+<]>>]..,,<<<--".to_string()).unwrap();
    let once = optimize(&parsed).unwrap();
    let twice = optimize(&once).unwrap();
    assert_eq!(once, twice);
    assert_eq!(
        Program {
            instructions: vec![
                Inc(2),
                MoveRight(2),
                LoopEntry(13),
                Dec(1),
                MoveLeft(2),
                Inc(3),
                LoopEntry(11),
                Dec(1),
                MoveRight(1),
                Inc(1),
                MoveLeft(1),
                LoopExit(6),
                MoveRight(2),
                LoopExit(2),
                Output,
                Output,
                Input,
                Input,
                MoveLeft(3),
                Dec(2),
            ],
        },
        once
    );
}

#[test]
fn unbalanced_input_is_refused() {
    assert_eq!(
        Err(SyntaxError::UnbalancedCloser(1)),
        optimize(&Program { instructions: vec![Inc(1), Inc(1), LoopExit(0)] })
    );
    assert_eq!(
        Err(SyntaxError::UnbalancedOpener(1)),
        optimize(&Program {
            instructions: vec![Inc(1), Inc(1), LoopEntry(9), LoopEntry(5), Dec(1), LoopExit(3)],
        })
    );
}

#[test]
fn source_program_is_left_untouched() {
    let source = Program { instructions: vec![Inc(1), Inc(1), LoopEntry(3), LoopExit(2)] };
    let result = optimize(&source).unwrap();
    assert_eq!(Program { instructions: vec![Inc(2), LoopEntry(2), LoopExit(1)] }, result);
    assert_eq!(Program { instructions: vec![Inc(1), Inc(1), LoopEntry(3), LoopExit(2)] }, source);
}
