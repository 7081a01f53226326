//! The peephole optimizer: neighbouring instructions of one kind become one.

use vstd::prelude::*;
use crate::ast::{Instruction, Program, SyntaxError};
use crate::loop_helper::{
    LoopHelper, lemma_resolving_done, lemma_resolving_entry, lemma_resolving_exit,
    lemma_resolving_plain, lemma_resolving_start, lemma_resolving_stray, lemma_resolving_unclosed,
    patched, resolving,
};
use crate::nesting::{
    balanced, depth, lemma_depth_agrees, lemma_resolved_carries, lemma_resolved_unique,
    lemma_stray_carries, lemma_unbalanced, lemma_unclosed_carries, lemma_well_formed_runnable,
    never_negative, oldest_unclosed, resolved, runnable, same_shape, stray_exit,
};

verus! {

/// Two instructions that fuse when they stand side by side: two moves in
/// one direction, two increments or two decrements.
pub open spec fn fusible(a: Instruction, b: Instruction) -> bool {
    match (a, b) {
        (Instruction::MoveLeft(_), Instruction::MoveLeft(_)) => true,
        (Instruction::MoveRight(_), Instruction::MoveRight(_)) => true,
        (Instruction::Inc(_), Instruction::Inc(_)) => true,
        (Instruction::Dec(_), Instruction::Dec(_)) => true,
        _ => false,
    }
}

/// The offsets of two moves that fuse have a sum that fits the machine word.
pub open spec fn pair_fits(a: Instruction, b: Instruction) -> bool {
    match (a, b) {
        (Instruction::MoveLeft(x), Instruction::MoveLeft(y)) => x + y <= usize::MAX,
        (Instruction::MoveRight(x), Instruction::MoveRight(y)) => x + y <= usize::MAX,
        _ => true,
    }
}

/// The one instruction that stands for `a` followed by `b`: offsets add
/// up, cell values add up modulo 256.
pub open spec fn fused(a: Instruction, b: Instruction) -> Instruction {
    match (a, b) {
        (Instruction::MoveLeft(x), Instruction::MoveLeft(y)) => Instruction::MoveLeft(
            (x + y) as usize,
        ),
        (Instruction::MoveRight(x), Instruction::MoveRight(y)) => Instruction::MoveRight(
            (x + y) as usize,
        ),
        (Instruction::Inc(x), Instruction::Inc(y)) => Instruction::Inc(((x + y) % 256) as u8),
        (Instruction::Dec(x), Instruction::Dec(y)) => Instruction::Dec(((x + y) % 256) as u8),
        _ => b,
    }
}

/// `out` with `x` taken in: fused with the last instruction if the two
/// fuse, appended if not.
pub open spec fn absorb(out: Seq<Instruction>, x: Instruction) -> Seq<Instruction> {
    if out.len() > 0 && fusible(out.last(), x) {
        out.update(out.len() - 1, fused(out.last(), x))
    } else {
        out.push(x)
    }
}

/// `s` with every run of instructions that fuse made one instruction. Loop
/// instructions stay as they are, targets included.
pub open spec fn fuse(s: Seq<Instruction>) -> Seq<Instruction>
    decreases s.len(),
{
    if s.len() == 0 {
        Seq::empty()
    } else {
        absorb(fuse(s.drop_last()), s.last())
    }
}

/// No run of moves in `s` has offsets whose sum exceeds the machine word.
pub open spec fn fits(s: Seq<Instruction>) -> bool
    decreases s.len(),
{
    s.len() > 0 ==> {
        &&& fits(s.drop_last())
        &&& fuse(s.drop_last()).len() > 0 ==> pair_fits(fuse(s.drop_last()).last(), s.last())
    }
}

/// `q` is the optimized form of `p`: the runs of `p` fused, and the loop
/// instructions given the targets that their new places call for.
pub open spec fn optimized(p: Seq<Instruction>, q: Seq<Instruction>) -> bool {
    resolved(fuse(p), q)
}

/// Fusing a prefix: one more instruction is absorbed.
pub proof fn lemma_fuse_step(s: Seq<Instruction>, m: int)
    requires
        0 <= m < s.len(),
    ensures
        fuse(s.take(m + 1)) == absorb(fuse(s.take(m)), s[m]),
        fits(s.take(m + 1)) ==> fits(s.take(m)) && (fuse(s.take(m)).len() > 0 ==> pair_fits(
            fuse(s.take(m)).last(),
            s[m],
        )),
{
    assert(s.take(m + 1).drop_last() =~= s.take(m));
}

/// What fits as a whole fits in every prefix, and the fused prefix has the
/// kinds of instructions that the fused whole begins with.
pub proof fn lemma_fuse_prefix(s: Seq<Instruction>, m: int)
    requires
        0 <= m <= s.len(),
    ensures
        fits(s) ==> fits(s.take(m)),
        fuse(s.take(m)).len() <= fuse(s).len(),
        forall|i: int|
            0 <= i < fuse(s.take(m)).len() ==> (#[trigger] fuse(s.take(m))[i]).delta() == fuse(
                s,
            )[i].delta(),
    decreases s.len() - m,
{
    if m == s.len() {
        assert(s.take(m) =~= s);
    } else {
        lemma_fuse_step(s, m);
        lemma_fuse_prefix(s, m + 1);
        assert forall|i: int| 0 <= i < fuse(s.take(m)).len() implies (#[trigger] fuse(
            s.take(m),
        )[i]).delta() == fuse(s)[i].delta() by {
            assert(fuse(s.take(m))[i].delta() == fuse(s.take(m + 1))[i].delta());
        }
    }
}

/// Fuses `b` onto `a` if the two fuse.
fn fuse_pair(a: Instruction, b: Instruction) -> (r: Option<Instruction>)
    requires
        pair_fits(a, b),
    ensures
        r == if fusible(a, b) {
            Some(fused(a, b))
        } else {
            None
        },
{
    match (a, b) {
        (Instruction::MoveLeft(x), Instruction::MoveLeft(y)) => Some(Instruction::MoveLeft(x + y)),
        (Instruction::MoveRight(x), Instruction::MoveRight(y)) => Some(
            Instruction::MoveRight(x + y),
        ),
        (Instruction::Inc(x), Instruction::Inc(y)) => Some(Instruction::Inc(x.wrapping_add(y))),
        (Instruction::Dec(x), Instruction::Dec(y)) => Some(Instruction::Dec(x.wrapping_add(y))),
        _ => None,
    }
}

/// Returns the optimized form of `program`: every run of moves in one
/// direction, of increments or of decrements is fused into one instruction,
/// input, output and loop instructions stay, and the loop instructions get
/// the targets that belong to their new places. The program itself is left
/// as it is.
///
/// Fails as the parser does if the loop instructions are not balanced; the
/// index is that of the offending instruction in the fused sequence. A
/// well-formed program is never refused.
///
/// The offsets of each run of moves must add up to what a machine word
/// holds; programs that come from the parser or from this function do.
pub fn optimize(program: &Program) -> (r: Result<Program, SyntaxError>)
    requires
        fits(program@),
    ensures
        r is Ok <==> balanced(fuse(program@)),
        program.well_formed() ==> r is Ok,
        match r {
            Ok(q) => {
                &&& optimized(program@, q@)
                &&& q.well_formed()
                &&& runnable(q@)
                &&& fits(q@)
            },
            Err(SyntaxError::UnbalancedCloser(i)) => stray_exit(fuse(program@), i as int),
            Err(SyntaxError::UnbalancedOpener(i)) => oldest_unclosed(fuse(program@), i as int),
        },
{
    let mut helper = LoopHelper::new();
    let mut instructions: Vec<Instruction> = Vec::new();
    let ghost source = program@;
    proof {
        lemma_resolving_start();
        assert(source.take(0) =~= Seq::<Instruction>::empty());
    }
    let mut m: usize = 0;
    while m < program.instructions.len()
        invariant
            m <= program.instructions.len(),
            source == program@,
            fits(source),
            same_shape(instructions@, fuse(source.take(m as int))),
            resolving(instructions@, helper.open(), helper.pending()),
        decreases program.instructions.len() - m,
    {
        let instr = program.instructions[m];
        let n = instructions.len();
        let ghost before = instructions@;
        let ghost open = helper.open();
        let ghost pending = helper.pending();
        proof {
            lemma_fuse_step(source, m as int);
            lemma_fuse_prefix(source, m + 1);
            if n > 0 {
                assert(before[n - 1].same_shape(fuse(source.take(m as int))[n - 1]));
            }
        }
        match instr {
            Instruction::LoopEntry(_) => {
                let placeholder = helper.loop_entry(n);
                instructions.push(placeholder);
                proof {
                    lemma_resolving_entry(before, open, pending);
                }
            },
            Instruction::LoopExit(_) => {
                match helper.loop_exit(n) {
                    Ok(exit) => {
                        instructions.push(exit);
                        proof {
                            lemma_resolving_exit(before, open, pending);
                        }
                    },
                    Err(e) => {
                        proof {
                            let part = fuse(source.take(m + 1));
                            lemma_resolving_stray(before, pending, instr);
                            lemma_stray_carries(before.push(instr), part, n as int);
                            lemma_stray_carries(part, fuse(source), n as int);
                            lemma_unbalanced(fuse(source), n as int);
                            lemma_fuse_depth(source);
                        }
                        return Err(e);
                    },
                }
            },
            _ => {
                let merged = if n > 0 {
                    fuse_pair(instructions[n - 1], instr)
                } else {
                    None
                };
                match merged {
                    Some(both) => {
                        instructions.set(n - 1, both);
                    },
                    None => {
                        instructions.push(instr);
                    },
                }
                proof {
                    lemma_resolving_plain(before, instructions@, open, pending);
                }
            },
        }
        m += 1;
    }
    let ghost assembled = instructions@;
    let ghost open = helper.open();
    let ghost pending = helper.pending();
    proof {
        assert(source.take(m as int) =~= source);
        lemma_fuse_depth(source);
        if open.len() == 0 {
            assert(open =~= Seq::<usize>::empty());
            lemma_resolving_done(assembled, pending);
            let done = patched(assembled, pending);
            lemma_resolved_carries(assembled, fuse(source), done);
            assert(done.len() == instructions.len());
            lemma_well_formed_runnable(done);
            lemma_optimized_is_fixed(source, done);
        } else {
            lemma_resolving_unclosed(assembled, open, pending);
            lemma_unclosed_carries(assembled, fuse(source), open[0] as int);
            lemma_unbalanced(fuse(source), open[0] as int);
        }
    }
    match helper.relocate(&mut instructions) {
        Ok(_) => Ok(Program { instructions }),
        Err(e) => Err(e),
    }
}

/// No two neighbours in `s` fuse.
pub open spec fn fully_fused(s: Seq<Instruction>) -> bool {
    forall|i: int| 0 <= i < s.len() - 1 ==> !fusible(#[trigger] s[i], s[i + 1])
}

/// Fusing leaves no two neighbours that fuse.
pub proof fn lemma_fuse_is_fully_fused(s: Seq<Instruction>)
    ensures
        fully_fused(fuse(s)),
    decreases s.len(),
{
    if s.len() > 0 {
        let f = fuse(s.drop_last());
        let g = fuse(s);
        lemma_fuse_is_fully_fused(s.drop_last());
        assert forall|i: int| 0 <= i < g.len() - 1 implies !fusible(#[trigger] g[i], g[i + 1]) by {
            if i + 1 < f.len() {
                assert(!fusible(f[i], f[i + 1]));
            }
        }
    }
}

/// Fusing changes nothing where no two neighbours fuse, and no sum is
/// formed that could exceed the machine word.
pub proof fn lemma_fully_fused_is_fixed(s: Seq<Instruction>)
    requires
        fully_fused(s),
    ensures
        fuse(s) == s,
        fits(s),
    decreases s.len(),
{
    if s.len() > 0 {
        let t = s.drop_last();
        assert forall|i: int| 0 <= i < t.len() - 1 implies !fusible(#[trigger] t[i], t[i + 1]) by {
            assert(!fusible(s[i], s[i + 1]));
        }
        lemma_fully_fused_is_fixed(t);
        if t.len() > 0 {
            assert(!fusible(s[t.len() - 1], s[t.len() - 1 + 1]));
        }
        assert(absorb(t, s.last()) =~= s);
    }
}

/// The nesting depth at the end is the same before and after fusing, and
/// fusing does not make a depth negative.
pub proof fn lemma_fuse_depth(s: Seq<Instruction>)
    ensures
        depth(fuse(s), fuse(s).len() as int) == depth(s, s.len() as int),
        never_negative(s) ==> never_negative(fuse(s)),
        balanced(s) ==> balanced(fuse(s)),
    decreases s.len(),
{
    if s.len() > 0 {
        let t = s.drop_last();
        let f = fuse(t);
        let g = fuse(s);
        lemma_fuse_depth(t);
        assert forall|k: int| 0 <= k <= t.len() implies depth(t, k) == depth(s, k) by {
            lemma_depth_agrees(t, s, k);
        }
        assert forall|k: int| 0 <= k <= f.len() implies depth(g, k) == depth(f, k) by {
            lemma_depth_agrees(g, f, k);
        }
        if never_negative(s) {
            assert forall|k: int| 0 <= k <= t.len() implies depth(t, k) >= 0 by {
                assert(depth(s, k) >= 0);
            }
            assert forall|k: int| 0 <= k <= g.len() implies depth(g, k) >= 0 by {
                if k <= f.len() {
                    assert(depth(f, k) >= 0);
                } else {
                    assert(depth(s, s.len() as int) >= 0);
                }
            }
        }
    }
}

/// An optimized program is fully fused, so that fusing it again changes
/// nothing, and it is its own optimized form: the optimizer accepts it and
/// cannot fail on it.
pub proof fn lemma_optimized_is_fixed(p: Seq<Instruction>, q: Seq<Instruction>)
    requires
        optimized(p, q),
    ensures
        fully_fused(q),
        fits(q),
        fuse(q) == q,
        balanced(fuse(q)),
        optimized(q, q),
{
    let f = fuse(p);
    lemma_fuse_is_fully_fused(p);
    assert forall|i: int| 0 <= i < q.len() - 1 implies !fusible(#[trigger] q[i], q[i + 1]) by {
        assert(q[i].same_shape(f[i]));
        assert(q[i + 1].same_shape(f[i + 1]));
        assert(!fusible(f[i], f[i + 1]));
    }
    lemma_fully_fused_is_fixed(q);
}

/// Idempotence: if `q` is the optimized form of `p` and `r` the optimized
/// form of `q`, then `r` is `q`.
pub proof fn lemma_optimize_idempotent(
    p: Seq<Instruction>,
    q: Seq<Instruction>,
    r: Seq<Instruction>,
)
    requires
        optimized(p, q),
        optimized(q, r),
    ensures
        r == q,
{
    lemma_optimized_is_fixed(p, q);
    lemma_resolved_unique(q, r, q);
}

/// A sequence has one optimized form at most.
pub proof fn lemma_optimized_unique(
    p: Seq<Instruction>,
    q1: Seq<Instruction>,
    q2: Seq<Instruction>,
)
    requires
        optimized(p, q1),
        optimized(p, q2),
    ensures
        q1 == q2,
{
    lemma_resolved_unique(fuse(p), q1, q2);
}

/// Every move of `s` is by one cell, as in a program that comes from text.
pub open spec fn unit_moves(s: Seq<Instruction>) -> bool {
    forall|i: int|
        0 <= i < s.len() ==> match #[trigger] s[i] {
            Instruction::MoveLeft(n) => n == 1,
            Instruction::MoveRight(n) => n == 1,
            _ => true,
        }
}

/// The offset of a move, zero for every other instruction.
pub open spec fn offset_of(x: Instruction) -> int {
    match x {
        Instruction::MoveLeft(n) => n as int,
        Instruction::MoveRight(n) => n as int,
        _ => 0,
    }
}

/// A sequence of unit moves that a vector can hold fits: no run is longer
/// than the sequence.
pub proof fn lemma_unit_moves_fit(s: Seq<Instruction>)
    requires
        unit_moves(s),
        s.len() <= usize::MAX,
    ensures
        fits(s),
        fuse(s).len() > 0 ==> offset_of(fuse(s).last()) <= s.len(),
    decreases s.len(),
{
    if s.len() > 0 {
        let t = s.drop_last();
        assert forall|i: int| 0 <= i < t.len() implies match #[trigger] t[i] {
            Instruction::MoveLeft(n) => n == 1,
            Instruction::MoveRight(n) => n == 1,
            _ => true,
        } by {
            assert(t[i] == s[i]);
        }
        lemma_unit_moves_fit(t);
        assert(offset_of(s[s.len() - 1]) <= 1);
    }
}

} // verus!
