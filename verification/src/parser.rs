//! The parser: from text to a program with resolved loops.

use vstd::prelude::*;
use crate::ast::{Instruction, Program, SyntaxError, UNRESOLVED};
use crate::loop_helper::{
    LoopHelper, lemma_resolving_done, lemma_resolving_entry, lemma_resolving_exit,
    lemma_resolving_plain, lemma_resolving_start, lemma_resolving_stray, lemma_resolving_unclosed,
    patched, resolving,
};
use crate::nesting::{
    balanced, lemma_resolved_carries, lemma_stray_carries, lemma_unbalanced,
    lemma_unclosed_carries, lemma_well_formed_runnable, oldest_unclosed, resolved, runnable,
    same_shape, stray_exit,
};
use crate::opt::{fits, lemma_unit_moves_fit};

verus! {

/// The eight characters that stand for an instruction.
pub open spec fn is_symbol(c: char) -> bool {
    c == '>' || c == '<' || c == '+' || c == '-' || c == '.' || c == ',' || c == '[' || c == ']'
}

/// The characters of `text` that stand for an instruction, in their order.
pub open spec fn symbols(text: Seq<char>) -> Seq<char> {
    text.filter(|c: char| is_symbol(c))
}

/// The instruction that a symbol stands for, a loop instruction without its
/// target.
pub open spec fn instruction_of(c: char) -> Instruction {
    if c == '<' {
        Instruction::MoveLeft(1)
    } else if c == '>' {
        Instruction::MoveRight(1)
    } else if c == '+' {
        Instruction::Inc(1)
    } else if c == '-' {
        Instruction::Dec(1)
    } else if c == '.' {
        Instruction::Output
    } else if c == ',' {
        Instruction::Input
    } else if c == '[' {
        Instruction::LoopEntry(UNRESOLVED)
    } else {
        Instruction::LoopExit(UNRESOLVED)
    }
}

/// The instructions that the symbols of `text` stand for, one for each
/// symbol, with the loops unresolved.
pub open spec fn skeleton(text: Seq<char>) -> Seq<Instruction> {
    symbols(text).map_values(|c: char| instruction_of(c))
}

/// One more character adds its instruction to the skeleton if it is a
/// symbol, and nothing if it is not.
pub proof fn lemma_skeleton_step(text: Seq<char>, m: int)
    requires
        0 <= m < text.len(),
    ensures
        skeleton(text.take(m + 1)) == if is_symbol(text[m]) {
            skeleton(text.take(m)).push(instruction_of(text[m]))
        } else {
            skeleton(text.take(m))
        },
{
    reveal(Seq::filter);
    assert(text.take(m + 1).drop_last() =~= text.take(m));
    let pred = |c: char| is_symbol(c);
    if is_symbol(text[m]) {
        assert(symbols(text.take(m + 1)) == symbols(text.take(m)).push(text[m]));
        assert(skeleton(text.take(m + 1)) =~= skeleton(text.take(m)).push(
            instruction_of(text[m]),
        ));
    } else {
        assert(symbols(text.take(m + 1)) == symbols(text.take(m)));
    }
}

/// The skeleton of a prefix is a prefix of the skeleton.
pub proof fn lemma_skeleton_prefix(text: Seq<char>, m: int)
    requires
        0 <= m <= text.len(),
    ensures
        skeleton(text.take(m)).len() <= skeleton(text).len(),
        forall|i: int|
            0 <= i < skeleton(text.take(m)).len() ==> #[trigger] skeleton(text.take(m))[i]
                == skeleton(text)[i],
    decreases text.len() - m,
{
    if m == text.len() {
        assert(text.take(m) =~= text);
    } else {
        lemma_skeleton_step(text, m);
        lemma_skeleton_prefix(text, m + 1);
        assert forall|i: int| 0 <= i < skeleton(text.take(m)).len() implies #[trigger] skeleton(
            text.take(m),
        )[i] == skeleton(text)[i] by {
            assert(skeleton(text.take(m))[i] == skeleton(text.take(m + 1))[i]);
        }
    }
}

/// The instruction that `c` stands for, if `c` is a symbol and stands for
/// no loop instruction.
fn plain_instruction(c: char) -> (r: Option<Instruction>)
    ensures
        r == if is_symbol(c) && c != '[' && c != ']' {
            Some(instruction_of(c))
        } else {
            None
        },
{
    match c {
        '<' => Some(Instruction::MoveLeft(1)),
        '>' => Some(Instruction::MoveRight(1)),
        '+' => Some(Instruction::Inc(1)),
        '-' => Some(Instruction::Dec(1)),
        '.' => Some(Instruction::Output),
        ',' => Some(Instruction::Input),
        _ => None,
    }
}

/// Parses `text`. Every character but the eight symbols is skipped; each
/// symbol becomes one instruction, in the order of the text, and the loop
/// instructions get their targets.
///
/// Fails on a `]` that closes no loop, with the index of its instruction,
/// and on a text that leaves a loop open, with the index of the oldest
/// unclosed `[`. Indices count instructions, not characters.
pub fn parse(text: String) -> (r: Result<Program, SyntaxError>)
    ensures
        r is Ok <==> balanced(skeleton(text@)),
        match r {
            Ok(program) => {
                &&& program@.len() == symbols(text@).len()
                &&& forall|i: int|
                    0 <= i < program@.len() ==> (#[trigger] program@[i]).same_shape(
                        instruction_of(symbols(text@)[i]),
                    )
                &&& program.well_formed()
                &&& resolved(skeleton(text@), program@)
                &&& runnable(program@)
                &&& fits(program@)
            },
            Err(SyntaxError::UnbalancedCloser(i)) => stray_exit(skeleton(text@), i as int),
            Err(SyntaxError::UnbalancedOpener(i)) => oldest_unclosed(skeleton(text@), i as int),
        },
{
    let mut helper = LoopHelper::new();
    let mut instructions: Vec<Instruction> = Vec::new();
    let chars = text.as_str();
    proof {
        lemma_resolving_start();
        assert(text@.take(0) =~= Seq::<char>::empty());
        reveal(Seq::filter);
        assert(skeleton(text@.take(0)) =~= Seq::<Instruction>::empty());
    }
    for c in it: chars.chars()
        invariant
            it.seq() == text@,
            same_shape(instructions@, skeleton(text@.take(it.index() as int))),
            resolving(instructions@, helper.open(), helper.pending()),
    {
        let ghost m = it.index() as int;
        let ghost before = instructions@;
        let ghost open = helper.open();
        let ghost pending = helper.pending();
        proof {
            lemma_skeleton_step(text@, m);
        }
        if c == '[' {
            let idx = instructions.len();
            let instr = helper.loop_entry(idx);
            instructions.push(instr);
            proof {
                lemma_resolving_entry(before, open, pending);
            }
        } else if c == ']' {
            let idx = instructions.len();
            match helper.loop_exit(idx) {
                Ok(instr) => {
                    instructions.push(instr);
                    proof {
                        lemma_resolving_exit(before, open, pending);
                    }
                },
                Err(e) => {
                    proof {
                        let x = instruction_of(c);
                        let part = skeleton(text@.take(m + 1));
                        lemma_resolving_stray(before, pending, x);
                        lemma_stray_carries(before.push(x), part, idx as int);
                        lemma_skeleton_prefix(text@, m + 1);
                        lemma_stray_carries(part, skeleton(text@), idx as int);
                        lemma_unbalanced(skeleton(text@), idx as int);
                    }
                    return Err(e);
                },
            }
        } else {
            match plain_instruction(c) {
                Some(instr) => {
                    instructions.push(instr);
                    proof {
                        lemma_resolving_plain(before, instructions@, open, pending);
                    }
                },
                None => {},
            }
        }
    }
    let ghost assembled = instructions@;
    let ghost open = helper.open();
    let ghost pending = helper.pending();
    proof {
        assert(text@.take(text@.len() as int) =~= text@);
        if open.len() == 0 {
            assert(open =~= Seq::<usize>::empty());
            lemma_resolving_done(assembled, pending);
            let done = patched(assembled, pending);
            lemma_resolved_carries(assembled, skeleton(text@), done);
            assert(done.len() == instructions.len());
            lemma_well_formed_runnable(done);
            assert forall|i: int| 0 <= i < done.len() implies match #[trigger] done[i] {
                Instruction::MoveLeft(n) => n == 1,
                Instruction::MoveRight(n) => n == 1,
                _ => true,
            } by {
                assert(done[i].same_shape(skeleton(text@)[i]));
            }
            lemma_unit_moves_fit(done);
        } else {
            lemma_resolving_unclosed(assembled, open, pending);
            lemma_unclosed_carries(assembled, skeleton(text@), open[0] as int);
            lemma_unbalanced(skeleton(text@), open[0] as int);
        }
    }
    match helper.relocate(&mut instructions) {
        Ok(_) => Ok(Program { instructions }),
        Err(e) => Err(e),
    }
}

} // verus!
