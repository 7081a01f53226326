//! Tests for the interpreter.

use bf_interp::ast::Instruction::{
    Dec, Inc, Input, LoopEntry, LoopExit, MoveLeft, MoveRight, Output,
};
use bf_interp::ast::{Instruction, Program};
use bf_interp::interp::{interp, Machine, Outcome, RuntimeError, Status, TAPE_LEN};
use bf_interp::opt::optimize;
use bf_interp::parser::parse;

const STEPS: u64 = 1_000_000;

fn execute_and_check(program: &[Instruction], input: &str, exp_output: &[u8]) {
    let p = Program { instructions: program.to_vec() };
    let outcome = interp(&p, input.as_bytes(), STEPS);
    assert_eq!(Status::Halted, outcome.status);
    assert_eq!(exp_output, outcome.output.as_slice());
}

#[test]
fn output_zero() {
    execute_and_check(&[Output], "", &[0]);
}

#[test]
fn inc_by_one() {
    execute_and_check(&[Inc(1), Output], "", &[1]);
}

#[test]
fn inc_by_two() {
    execute_and_check(&[Inc(2), Output], "", &[2]);
}

#[test]
fn inc_by_one_and_by_one() {
    execute_and_check(&[Inc(1), Inc(1), Output], "", &[2]);
}

#[test]
fn inc_wrapping() {
    execute_and_check(&[Inc(255), Inc(1), Output], "", &[0]);
}

#[test]
fn dec_by_one() {
    execute_and_check(&[Inc(2), Dec(1), Output], "", &[1]);
}

#[test]
fn dec_by_two() {
    execute_and_check(&[Inc(2), Dec(2), Output], "", &[0]);
}

#[test]
fn dec_by_one_and_by_one() {
    execute_and_check(&[Inc(3), Dec(1), Dec(1), Output], "", &[1]);
}

#[test]
fn dec_wrapping() {
    execute_and_check(&[Dec(1), Inc(2), Output], "", &[1]);
}

#[test]
fn move_right() {
    execute_and_check(&[Inc(2), MoveRight(1), Inc(1), Output], "", &[1]);
}

#[test]
fn move_left() {
    execute_and_check(
        &[Inc(2), MoveRight(1), Inc(1), Output, MoveLeft(1), Output],
        "",
        &[1, 2],
    );
}

#[test]
fn move_right_2() {
    execute_and_check(
        &[Inc(3), MoveRight(1), MoveRight(1), Inc(1), Output, MoveLeft(1), Output, MoveLeft(1)],
        "",
        &[1, 0],
    );
}

#[test]
fn move_right_2_at_once() {
    execute_and_check(
        &[Inc(3), MoveRight(2), Inc(1), Output, MoveLeft(1), Output, MoveLeft(1)],
        "",
        &[1, 0],
    );
}

#[test]
fn move_left_2() {
    execute_and_check(
        &[Inc(2), MoveRight(2), Inc(1), Output, MoveLeft(1), MoveLeft(1), Output],
        "",
        &[1, 2],
    );
}

#[test]
fn move_left_2_at_once() {
    execute_and_check(
        &[Inc(2), MoveRight(2), Inc(1), Output, MoveLeft(1), MoveLeft(1), Output],
        "",
        &[1, 2],
    );
}

#[test]
fn input() {
    execute_and_check(&[Input, Output, Input, Output], "a1", &[b'a', b'1']);
}

#[test]
fn skip_loop() {
    execute_and_check(
        &[MoveRight(1), Inc(1), MoveLeft(1), LoopEntry(5), Inc(1), LoopExit(3), Output],
        "",
        &[0],
    );
}

#[test]
fn loop_set_zero() {
    execute_and_check(&[Inc(100), LoopEntry(3), Dec(1), LoopExit(1), Output], "", &[0]);
}

#[test]
fn loop_move_value() {
    execute_and_check(
        &[
            Inc(100),
            LoopEntry(6),
            Dec(1),
            MoveRight(3),
            Inc(1),
            MoveLeft(3),
            LoopExit(1),
            Output,
            MoveRight(3),
            Output,
        ],
        "",
        &[0, 100],
    );
}

#[test]
fn loop_find_zero_left() {
    execute_and_check(
        &[
            MoveRight(1),
            Inc(1),
            MoveRight(1),
            Inc(1),
            MoveRight(1),
            Inc(1),
            LoopEntry(8),
            MoveLeft(1),
            LoopExit(6),
            Output,
        ],
        "",
        &[0],
    );
}

#[test]
fn loop_find_zero_right() {
    execute_and_check(
        &[
            MoveRight(1),
            Inc(1),
            MoveRight(1),
            Inc(1),
            MoveRight(1),
            Inc(1),
            LoopEntry(8),
            MoveLeft(1),
            LoopExit(6),
            Output,
            Inc(9),
            Output,
            LoopEntry(14),
            MoveRight(1),
            LoopExit(12),
            Output,
        ],
        "",
        &[0, 9, 0],
    );
}

fn run(program: Vec<Instruction>, input: &[u8], limit: u64) -> Outcome {
    interp(&Program { instructions: program }, input, limit)
}

#[test]
fn empty_program_halts_at_once() {
    assert_eq!(Outcome { output: vec![], status: Status::Halted }, run(vec![], b"", 0));
    assert_eq!(Outcome { output: vec![], status: Status::Halted }, run(vec![], b"abc", 10));
}

#[test]
fn moving_left_of_the_tape_fails() {
    assert_eq!(
        Outcome { output: vec![0], status: Status::Failed(RuntimeError::BoundsViolation) },
        run(vec![Output, MoveLeft(1), Output], b"", STEPS)
    );
    assert_eq!(
        Outcome { output: vec![], status: Status::Failed(RuntimeError::BoundsViolation) },
        run(vec![MoveRight(3), MoveLeft(4)], b"", STEPS)
    );
}

#[test]
fn moving_right_of_the_tape_fails() {
    assert_eq!(
        Outcome { output: vec![], status: Status::Failed(RuntimeError::BoundsViolation) },
        run(vec![MoveRight(TAPE_LEN)], b"", STEPS)
    );
    assert_eq!(
        Outcome { output: vec![], status: Status::Failed(RuntimeError::BoundsViolation) },
        run(vec![MoveRight(TAPE_LEN - 1), MoveRight(1)], b"", STEPS)
    );
    assert_eq!(
        Outcome { output: vec![], status: Status::Failed(RuntimeError::BoundsViolation) },
        run(vec![MoveRight(1), MoveRight(usize::MAX)], b"", STEPS)
    );
}

#[test]
fn last_cell_of_the_tape_is_usable() {
    assert_eq!(
        Outcome { output: vec![7], status: Status::Halted },
        run(vec![MoveRight(TAPE_LEN - 1), Inc(7), Output, MoveLeft(TAPE_LEN - 1)], b"", STEPS)
    );
}

#[test]
fn input_at_end_of_stream_fails() {
    assert_eq!(
        Outcome { output: vec![b'x'], status: Status::Failed(RuntimeError::StreamError) },
        run(vec![Input, Output, Input, Output], b"x", STEPS)
    );
    assert_eq!(
        Outcome { output: vec![], status: Status::Failed(RuntimeError::StreamError) },
        run(vec![Input], b"", STEPS)
    );
}

#[test]
fn step_limit_cuts_a_run_short() {
    let forever = vec![Inc(1), LoopEntry(3), Output, LoopExit(1)];
    assert_eq!(
        Outcome { output: vec![1, 1], status: Status::Running },
        run(forever.clone(), b"", 6)
    );
    assert_eq!(Outcome { output: vec![], status: Status::Running }, run(forever, b"", 0));
    assert_eq!(
        Outcome { output: vec![], status: Status::Running },
        run(vec![Inc(1), Output], b"", 1)
    );
    assert_eq!(
        Outcome { output: vec![1], status: Status::Halted },
        run(vec![Inc(1), Output], b"", 2)
    );
}

#[test]
fn machine_steps_one_instruction_at_a_time() {
    let program = Program { instructions: vec![Input, Inc(2), Output, LoopEntry(5), Dec(1), LoopExit(3)] };
    let mut machine = Machine::new();
    assert!(!machine.halted(&program));
    assert!(machine.wants_input(&program));
    assert_eq!(Ok(None), machine.step(&program, Some(1)));
    assert!(!machine.wants_input(&program));
    assert_eq!(Ok(None), machine.step(&program, None));
    assert_eq!(Ok(Some(3)), machine.step(&program, None));
    let mut steps = 0;
    while !machine.halted(&program) {
        assert_eq!(Ok(None), machine.step(&program, None));
        steps += 1;
    }
    assert_eq!(1 + 3 * 2, steps);
    assert_eq!(Ok(None), machine.step(&program, Some(9)));
    assert!(machine.halted(&program));
}

#[test]
fn machine_keeps_its_state_on_failure() {
    let program = Program { instructions: vec![Inc(5), MoveLeft(1), Output] };
    let mut machine = Machine::new();
    assert_eq!(Ok(None), machine.step(&program, None));
    assert_eq!(Err(RuntimeError::BoundsViolation), machine.step(&program, None));
    assert_eq!(Err(RuntimeError::BoundsViolation), machine.step(&program, None));
    assert!(!machine.halted(&program));
}

#[test]
fn optimized_program_writes_the_same() {
    let text = "++++++++[>++++[>++>+++>+++>+<<<<-]>+>+>->>+[<]<-]>>.>---.+++++++..+++.>>.<-.<.+++.------.--------.>>+.>++.";
    let parsed = parse(text.to_string()).unwrap();
    let fused = optimize(&parsed).unwrap();
    assert!(fused.instructions.len() < parsed.instructions.len());
    let plain = interp(&parsed, b"", STEPS);
    let fast = interp(&fused, b"", STEPS);
    assert_eq!(Status::Halted, plain.status);
    assert_eq!(b"Hello World!\n".to_vec(), plain.output);
    assert_eq!(plain, fast);
}

#[test]
fn optimized_program_fails_the_same() {
    let parsed = parse("+.>><<<<.".to_string()).unwrap();
    let fused = optimize(&parsed).unwrap();
    let plain = interp(&parsed, b"", STEPS);
    let fast = interp(&fused, b"", STEPS);
    assert_eq!(Outcome { output: vec![1], status: Status::Failed(RuntimeError::BoundsViolation) }, plain);
    assert_eq!(plain, fast);
}

#[test]
fn echo_until_zero_byte() {
    let parsed = parse(",[.,]".to_string()).unwrap();
    assert_eq!(
        Outcome { output: b"hi".to_vec(), status: Status::Halted },
        interp(&parsed, b"hi\0rest", STEPS)
    );
}

#[test]
fn program_without_output_writes_nothing_either_way() {
    let parsed = parse("+++[->++<<]>>>[-]".to_string()).unwrap();
    let fused = optimize(&parsed).unwrap();
    let plain = interp(&parsed, b"unread", STEPS);
    let fast = interp(&fused, b"unread", STEPS);
    assert_eq!(
        Outcome { output: vec![], status: Status::Failed(RuntimeError::BoundsViolation) },
        plain
    );
    assert_eq!(plain, fast);
    for limit in 0..12 {
        assert_eq!(Vec::<u8>::new(), interp(&parsed, b"", limit).output);
        assert_eq!(Vec::<u8>::new(), interp(&fused, b"", limit).output);
    }
}

#[test]
fn optimized_program_stops_within_the_same_limit() {
    let parsed = parse("++++[->++<]>.".to_string()).unwrap();
    let fused = optimize(&parsed).unwrap();
    let mut limit = 0;
    while interp(&parsed, b"", limit).status == Status::Running {
        limit += 1;
    }
    assert_eq!(Outcome { output: vec![8], status: Status::Halted }, interp(&parsed, b"", limit));
    assert_eq!(Outcome { output: vec![8], status: Status::Halted }, interp(&fused, b"", limit));
    assert_eq!(4 + 1 + 4 * 6 + 2, limit);
}
