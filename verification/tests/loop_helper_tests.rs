//! Tests for the loop helper.

use bf_interp::ast::Instruction::{Inc, LoopEntry, LoopExit, Output};
use bf_interp::ast::{Instruction, SyntaxError, UNRESOLVED};
use bf_interp::loop_helper::LoopHelper;

#[test]
fn entry_is_a_placeholder() {
    let mut helper = LoopHelper::new();
    assert_eq!(LoopEntry(usize::MAX), helper.loop_entry(0));
    assert_eq!(LoopEntry(UNRESOLVED), helper.loop_entry(7));
}

#[test]
fn exit_gets_the_index_of_its_entry() {
    let mut helper = LoopHelper::new();
    helper.loop_entry(3);
    helper.loop_entry(5);
    assert_eq!(Ok(LoopExit(5)), helper.loop_exit(8));
    assert_eq!(Ok(LoopExit(3)), helper.loop_exit(9));
}

#[test]
fn exit_without_entry_is_refused() {
    let mut helper = LoopHelper::new();
    assert_eq!(Err(SyntaxError::UnbalancedCloser(4)), helper.loop_exit(4));
    helper.loop_entry(5);
    assert_eq!(Ok(LoopExit(5)), helper.loop_exit(6));
    assert_eq!(Err(SyntaxError::UnbalancedCloser(7)), helper.loop_exit(7));
}

#[test]
fn refused_exit_changes_nothing() {
    let mut helper = LoopHelper::new();
    let mut instructions: Vec<Instruction> = vec![];
    instructions.push(helper.loop_entry(0));
    instructions.push(helper.loop_exit(1).unwrap());
    assert_eq!(Err(SyntaxError::UnbalancedCloser(2)), helper.loop_exit(2));
    assert_eq!(Ok(()), helper.relocate(&mut instructions));
    assert_eq!(vec![LoopEntry(1), LoopExit(0)], instructions);
}

#[test]
fn relocate_patches_every_entry() {
    let mut helper = LoopHelper::new();
    let mut instructions: Vec<Instruction> = vec![];
    instructions.push(Inc(1));
    instructions.push(helper.loop_entry(1));
    instructions.push(helper.loop_entry(2));
    instructions.push(Output);
    instructions.push(helper.loop_exit(4).unwrap());
    instructions.push(helper.loop_entry(5));
    instructions.push(helper.loop_exit(6).unwrap());
    instructions.push(helper.loop_exit(7).unwrap());
    assert_eq!(Ok(()), helper.relocate(&mut instructions));
    assert_eq!(
        vec![
            Inc(1),
            LoopEntry(7),
            LoopEntry(4),
            Output,
            LoopExit(2),
            LoopEntry(6),
            LoopExit(5),
            LoopExit(1),
        ],
        instructions
    );
}

#[test]
fn relocate_names_the_oldest_open_entry() {
    let mut helper = LoopHelper::new();
    let mut instructions: Vec<Instruction> = vec![];
    instructions.push(helper.loop_entry(0));
    instructions.push(helper.loop_entry(1));
    instructions.push(helper.loop_exit(2).unwrap());
    instructions.push(helper.loop_entry(3));
    let before = instructions.clone();
    assert_eq!(Err(SyntaxError::UnbalancedOpener(0)), helper.relocate(&mut instructions));
    assert_eq!(before, instructions);
}

#[test]
fn relocate_without_loops_changes_nothing() {
    let helper = LoopHelper::new();
    let mut instructions = vec![Inc(1), Output];
    assert_eq!(Ok(()), helper.relocate(&mut instructions));
    assert_eq!(vec![Inc(1), Output], instructions);
}
