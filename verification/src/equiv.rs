//! The optimizer preserves what a program does: a run of the optimized
//! program passes through the states of a run of the source program.

use vstd::prelude::*;
use vstd::arithmetic::div_mod::{
    lemma_add_mod_noop, lemma_add_mod_noop_right, lemma_mod_bound, lemma_small_mod,
    lemma_sub_mod_noop, lemma_sub_mod_noop_right,
};
use crate::ast::Instruction;
use crate::interp::{
    Cells, Config, RuntimeError, TAPE_LEN, execute, initial, lemma_run_stays, next_byte, perform,
    run, status_of, step, stopped,
};
use crate::loop_helper::lemma_matched_carries;
use crate::nesting::{
    depth, lemma_depth_agrees, lemma_entry_unique, lemma_exit_unique, matched, well_formed,
};
use crate::opt::{
    fits, fuse, fused, fusible, lemma_fuse_depth, lemma_fuse_prefix, lemma_fuse_step, optimized,
    pair_fits,
};

verus! {

/// Where the instruction at index `i` of `p` goes when `p` is fused: the
/// number of instructions that the `i` instructions in front of it make.
pub open spec fn pos(p: Seq<Instruction>, i: int) -> int {
    fuse(p.take(i)).len() as int
}

/// A run of instructions that fuse begins or ends at index `i`: `i` is
/// the start or the end of `p`, or the instructions on its two sides do not
/// fuse.
pub open spec fn boundary(p: Seq<Instruction>, i: int) -> bool {
    &&& 0 <= i <= p.len()
    &&& i == 0 || i == p.len() || !fusible(p[i - 1], p[i])
}

/// Two instructions are of one kind: both move left, both move right, both
/// increment or both decrement, or they are equal.
pub open spec fn akin(a: Instruction, b: Instruction) -> bool {
    match a {
        Instruction::MoveLeft(_) => b is MoveLeft,
        Instruction::MoveRight(_) => b is MoveRight,
        Instruction::Inc(_) => b is Inc,
        Instruction::Dec(_) => b is Dec,
        _ => a == b,
    }
}

/// The last instruction of a fused prefix is of the kind of the last
/// instruction of the prefix.
pub proof fn lemma_fused_last(p: Seq<Instruction>, i: int)
    requires
        1 <= i <= p.len(),
    ensures
        pos(p, i) >= 1,
        akin(p[i - 1], fuse(p.take(i)).last()),
{
    lemma_fuse_step(p, i - 1);
}

/// What one more instruction does to the fused prefix: at a boundary it is
/// appended as it is, inside a run it is fused onto the last instruction.
pub proof fn lemma_pos_step(p: Seq<Instruction>, i: int)
    requires
        0 <= i < p.len(),
    ensures
        boundary(p, i) ==> pos(p, i + 1) == pos(p, i) + 1 && fuse(p.take(i + 1)) == fuse(
            p.take(i),
        ).push(p[i]),
        !boundary(p, i) ==> pos(p, i + 1) == pos(p, i) && pos(p, i) >= 1 && fuse(p.take(i + 1))
            == fuse(p.take(i)).update(pos(p, i) - 1, fused(fuse(p.take(i)).last(), p[i])),
{
    lemma_fuse_step(p, i);
    if i > 0 {
        lemma_fused_last(p, i);
    } else {
        assert(p.take(0) =~= Seq::<Instruction>::empty());
    }
}

/// Fused prefixes grow, and what a longer prefix adds leaves the earlier
/// instructions alone: all but the last, and the last too where the shorter
/// prefix ends at a boundary.
pub proof fn lemma_fused_stable(p: Seq<Instruction>, i: int, j: int)
    requires
        0 <= i <= j <= p.len(),
    ensures
        pos(p, i) <= pos(p, j),
        i < j && boundary(p, i) ==> pos(p, i) < pos(p, j),
        forall|k: int|
            0 <= k < pos(p, i) - 1 ==> #[trigger] fuse(p.take(j))[k] == fuse(p.take(i))[k],
        boundary(p, i) && pos(p, i) >= 1 ==> fuse(p.take(j))[pos(p, i) - 1] == fuse(p.take(i))[pos(
            p,
            i,
        ) - 1],
    decreases j - i,
{
    if i < j {
        lemma_fused_stable(p, i, j - 1);
        lemma_pos_step(p, j - 1);
    }
}

/// The depth in front of an instruction is the depth in front of the place
/// it goes to.
pub proof fn lemma_pos_depth(p: Seq<Instruction>, i: int)
    requires
        0 <= i <= p.len(),
    ensures
        0 <= pos(p, i) <= fuse(p).len(),
        depth(fuse(p), pos(p, i)) == depth(p, i),
{
    let part = p.take(i);
    lemma_fuse_depth(part);
    lemma_depth_agrees(part, p, i);
    lemma_fuse_prefix(p, i);
    lemma_depth_agrees(fuse(part), fuse(p), pos(p, i));
}

/// Every place between those of two instructions is the place of an
/// instruction between the two.
pub proof fn lemma_pos_onto(p: Seq<Instruction>, a: int, b: int, k: int) -> (i: int)
    requires
        0 <= a <= b <= p.len(),
        pos(p, a) <= k <= pos(p, b),
    ensures
        a <= i <= b,
        pos(p, i) == k,
    decreases b - a,
{
    if pos(p, b) == k {
        b
    } else {
        lemma_pos_step(p, b - 1);
        lemma_pos_onto(p, a, b - 1, k)
    }
}

/// A loop instruction of `p` stands unchanged at its place in the fused
/// sequence, and the instruction behind it begins a run.
pub proof fn lemma_bracket_place(p: Seq<Instruction>, i: int)
    requires
        0 <= i < p.len(),
        p[i].is_bracket(),
    ensures
        boundary(p, i),
        boundary(p, i + 1),
        pos(p, i + 1) == pos(p, i) + 1,
        0 <= pos(p, i) < fuse(p).len(),
        fuse(p)[pos(p, i)] == p[i],
{
    lemma_pos_step(p, i);
    lemma_fused_stable(p, i + 1, p.len() as int);
    assert(p.take(p.len() as int) =~= p);
}

/// A loop of `p` is a loop of the fused sequence, at the places of its
/// entry and exit.
pub proof fn lemma_matched_fused(p: Seq<Instruction>, a: int, b: int)
    requires
        matched(p, a, b),
    ensures
        matched(fuse(p), pos(p, a), pos(p, b)),
{
    let f = fuse(p);
    lemma_bracket_place(p, a);
    lemma_bracket_place(p, b);
    lemma_fused_stable(p, a + 1, b);
    lemma_pos_depth(p, a);
    lemma_pos_depth(p, b + 1);
    let level = depth(f, pos(p, a));
    assert forall|k: int| pos(p, a) < k <= pos(p, b) implies #[trigger] depth(f, k) > level by {
        let i = lemma_pos_onto(p, a, b, k);
        lemma_pos_depth(p, i);
        assert(depth(p, i) > depth(p, a));
    }
}

/// An instruction that fuses with nothing stands unchanged at its place in
/// the fused sequence, and the instruction behind it begins a run.
pub proof fn lemma_single_place(p: Seq<Instruction>, i: int)
    requires
        0 <= i < p.len(),
        boundary(p, i),
        !fusible(p[i], p[i]),
    ensures
        boundary(p, i + 1),
        pos(p, i + 1) == pos(p, i) + 1,
        0 <= pos(p, i) < fuse(p).len(),
        fuse(p)[pos(p, i)] == p[i],
{
    lemma_pos_step(p, i);
    lemma_fused_stable(p, i + 1, p.len() as int);
    assert(p.take(p.len() as int) =~= p);
}

/// The loop instruction at index `i` of a well-formed program has, in the
/// optimized program, the place of its partner as its target, and the
/// instruction behind the partner begins a run.
pub proof fn lemma_jump_target(p: Seq<Instruction>, q: Seq<Instruction>, i: int)
    requires
        well_formed(p),
        optimized(p, q),
        0 <= i < p.len(),
        p[i].is_bracket(),
    ensures
        0 <= pos(p, i) < q.len(),
        match p[i] {
            Instruction::LoopEntry(t) => {
                &&& q[pos(p, i)] is LoopEntry
                &&& q[pos(p, i)]->LoopEntry_0 == pos(p, t as int)
                &&& boundary(p, t + 1)
                &&& pos(p, t + 1) == pos(p, t as int) + 1
            },
            Instruction::LoopExit(t) => {
                &&& q[pos(p, i)] is LoopExit
                &&& q[pos(p, i)]->LoopExit_0 == pos(p, t as int)
                &&& boundary(p, t + 1)
                &&& pos(p, t + 1) == pos(p, t as int) + 1
            },
            _ => true,
        },
{
    let f = fuse(p);
    lemma_bracket_place(p, i);
    assert(q[pos(p, i)].same_shape(f[pos(p, i)]));
    assert forall|k: int| 0 <= k < f.len() implies (#[trigger] f[k]).delta() == q[k].delta() by {
        assert(q[k].same_shape(f[k]));
    }
    match p[i] {
        Instruction::LoopEntry(t) => {
            lemma_matched_fused(p, i, t as int);
            lemma_matched_carries(f, q, pos(p, i), pos(p, t as int));
            lemma_exit_unique(q, pos(p, i), pos(p, t as int), q[pos(p, i)]->LoopEntry_0 as int);
            lemma_bracket_place(p, t as int);
        },
        Instruction::LoopExit(t) => {
            lemma_matched_fused(p, t as int, i);
            lemma_matched_carries(f, q, pos(p, t as int), pos(p, i));
            lemma_entry_unique(q, pos(p, t as int), q[pos(p, i)]->LoopExit_0 as int, pos(p, i));
            lemma_bracket_place(p, t as int);
        },
        _ => {},
    }
}

/// The end of the run that the instruction at index `i` stands in: the
/// first index behind `i` at which the neighbours do not fuse.
pub open spec fn run_end(p: Seq<Instruction>, i: int) -> int
    decreases p.len() - i,
{
    if 0 <= i && i + 1 < p.len() && fusible(p[i], p[i + 1]) {
        run_end(p, i + 1)
    } else {
        i + 1
    }
}

/// The end of a run is a boundary, and the first behind its start.
pub proof fn lemma_run_end(p: Seq<Instruction>, i: int)
    requires
        0 <= i < p.len(),
    ensures
        i < run_end(p, i) <= p.len(),
        boundary(p, run_end(p, i)),
        forall|k: int| i < k < run_end(p, i) ==> !boundary(p, k),
    decreases p.len() - i,
{
    if i + 1 < p.len() && fusible(p[i], p[i + 1]) {
        lemma_run_end(p, i + 1);
    }
}

/// The tape has its length and the data pointer is on it.
pub open spec fn valid(c: Config) -> bool {
    c.cells.tape.len() == TAPE_LEN && c.cells.dp < TAPE_LEN
}

/// Running `a` steps and then `b` is running `a + b` steps.
pub proof fn lemma_run_add(p: Seq<Instruction>, input: Seq<u8>, c: Config, a: nat, b: nat)
    ensures
        run(p, input, c, a + b) == run(p, input, run(p, input, c, a), b),
    decreases b,
{
    if b > 0 {
        lemma_run_add(p, input, c, a, (b - 1) as nat);
        assert(a + b - 1 == a + (b - 1));
    }
}

/// `c` is what `c0` becomes when the instruction `g` is performed and the
/// program counter is set to `l`: the new state, or a failure that leaves
/// output and input as they were.
pub open spec fn effect_of(g: Instruction, c0: Config, c: Config, l: int) -> bool {
    match perform(g, c0.cells, None) {
        Ok((cells, _)) => c == Config {
            cells: Cells { pc: l as nat, dp: cells.dp, tape: cells.tape },
            ..c0
        },
        Err(e) => c.failure == Some(e) && c.output == c0.output && c.consumed == c0.consumed,
    }
}

/// Adding two values to a cell one after the other, wrapping each time, is
/// adding their wrapped sum.
pub proof fn lemma_wrapping_sum(cell: u8, a: u8, b: u8)
    ensures
        ((((cell + a) % 256) as u8 + b) % 256) as u8 == ((cell + ((a + b) % 256) as u8)
            % 256) as u8,
        ((((cell - a) % 256) as u8 - b) % 256) as u8 == ((cell - ((a + b) % 256) as u8)
            % 256) as u8,
{
    let c = cell as int;
    let x = a as int;
    let y = b as int;
    lemma_mod_bound(c + x, 256);
    lemma_mod_bound(c - x, 256);
    lemma_mod_bound(x + y, 256);
    lemma_small_mod(y as nat, 256);
    lemma_add_mod_noop(c + x, y, 256);
    lemma_add_mod_noop_right(c, x + y, 256);
    lemma_sub_mod_noop(c - x, y, 256);
    lemma_sub_mod_noop_right(c, x + y, 256);
    assert((c + x) + y == c + (x + y));
    assert((c - x) - y == c - (x + y));
}

/// Performing two increments, or two decrements, one after the other gives
/// the tape that performing the fused instruction gives.
pub proof fn lemma_cells_fused(tape: Seq<u8>, dp: int, a: u8, b: u8)
    requires
        0 <= dp < tape.len(),
    ensures
        ({
            let mid = ((tape[dp] + a) % 256) as u8;
            tape.update(dp, mid).update(dp, ((tape.update(dp, mid)[dp] + b) % 256) as u8)
        }) == tape.update(dp, ((tape[dp] + ((a + b) % 256) as u8) % 256) as u8),
        ({
            let mid = ((tape[dp] - a) % 256) as u8;
            tape.update(dp, mid).update(dp, ((tape.update(dp, mid)[dp] - b) % 256) as u8)
        }) == tape.update(dp, ((tape[dp] - ((a + b) % 256) as u8) % 256) as u8),
{
    lemma_wrapping_sum(tape[dp], a, b);
    let up = ((tape[dp] + a) % 256) as u8;
    let down = ((tape[dp] - a) % 256) as u8;
    assert(tape.update(dp, up)[dp] == up);
    assert(tape.update(dp, down)[dp] == down);
    assert(tape.update(dp, up).update(dp, ((up + b) % 256) as u8) =~= tape.update(
        dp,
        ((up + b) % 256) as u8,
    ));
    assert(tape.update(dp, down).update(dp, ((down - b) % 256) as u8) =~= tape.update(
        dp,
        ((down - b) % 256) as u8,
    ));
}

/// Performing two instructions that fuse, one after the other, does what
/// performing the fused instruction does: the same failure, or the same
/// tape and data pointer.
pub proof fn lemma_perform_fused(
    h: Instruction,
    x: Instruction,
    m: Cells,
    pc: nat,
    byte: Option<u8>,
)
    requires
        fusible(h, x),
        pair_fits(h, x),
        m.dp < m.tape.len(),
    ensures
        match perform(h, m, None) {
            Err(e) => perform(fused(h, x), m, None) == Err::<(Cells, Option<u8>), RuntimeError>(e),
            Ok((m1, _)) => match perform(x, Cells { pc, dp: m1.dp, tape: m1.tape }, byte) {
                Err(e) => perform(fused(h, x), m, None) == Err::<(Cells, Option<u8>), RuntimeError>(
                    e,
                ),
                Ok((m2, w)) => {
                    &&& w is None
                    &&& m2.pc == pc + 1
                    &&& match perform(fused(h, x), m, None) {
                        Ok((m3, _)) => m3.dp == m2.dp && m3.tape == m2.tape,
                        Err(_) => false,
                    }
                },
            },
        },
{
    match (h, x) {
        (Instruction::Inc(a), Instruction::Inc(b)) => {
            lemma_cells_fused(m.tape, m.dp as int, a, b);
        },
        (Instruction::Dec(a), Instruction::Dec(b)) => {
            lemma_cells_fused(m.tape, m.dp as int, a, b);
        },
        _ => {},
    }
}

/// Running a run of instructions that fuse, from its start up to index
/// `l`, does what the one instruction does that they are fused into.
pub proof fn lemma_run_fused(p: Seq<Instruction>, input: Seq<u8>, c0: Config, i: int, l: int)
    requires
        fits(p),
        valid(c0),
        c0.failure is None,
        c0.cells.pc == i,
        0 <= i < l <= p.len(),
        boundary(p, i),
        fusible(p[i], p[i]),
        forall|k: int| i < k < l ==> !boundary(p, k),
    ensures
        pos(p, l) == pos(p, i) + 1,
        fusible(p[l - 1], fuse(p.take(l)).last()),
        effect_of(fuse(p.take(l)).last(), c0, run(p, input, c0, (l - i) as nat), l),
    decreases l - i,
{
    let g = fuse(p.take(l)).last();
    let c = run(p, input, c0, (l - i) as nat);
    lemma_pos_step(p, l - 1);
    lemma_fused_last(p, l);
    if l == i + 1 {
        assert(run(p, input, c0, 0) == c0);
        assert(c == step(p, input, c0));
        assert(g == p[i]);
    } else {
        let h = fuse(p.take(l - 1)).last();
        let b = run(p, input, c0, (l - 1 - i) as nat);
        lemma_run_fused(p, input, c0, i, l - 1);
        assert(!boundary(p, l - 1));
        assert(g == fused(h, p[l - 1]));
        assert(pair_fits(h, p[l - 1]) && fusible(h, p[l - 1])) by {
            lemma_fuse_prefix(p, l);
            lemma_fuse_step(p, l - 1);
            lemma_fused_last(p, l - 1);
        }
        assert(c == step(p, input, b));
        lemma_perform_fused(
            h,
            p[l - 1],
            c0.cells,
            (l - 1) as nat,
            next_byte(input, c0.consumed),
        );
        match perform(h, c0.cells, None) {
            Ok((m1, _)) => {
                assert(b.cells == Cells { pc: (l - 1) as nat, dp: m1.dp, tape: m1.tape });
                assert(!stopped(p, b));
                assert(execute(p, b.cells, next_byte(input, b.consumed)) == perform(
                    p[l - 1],
                    b.cells,
                    next_byte(input, c0.consumed),
                ));
            },
            Err(e) => {
                assert(stopped(p, b));
            },
        }
    }
}

/// The state `cq` of a run of the optimized program stands for the state
/// `cp` of a run of `p`: they have read and written the same and failed
/// alike, and if they have not failed, `cp` is at the start of a run of
/// instructions that fuse, `cq` at the place of that run, with the same tape
/// and data pointer.
pub open spec fn agree(p: Seq<Instruction>, cp: Config, cq: Config) -> bool {
    &&& cq.failure == cp.failure
    &&& cq.output == cp.output
    &&& cq.consumed == cp.consumed
    &&& cp.failure is None ==> {
        &&& valid(cp)
        &&& boundary(p, cp.cells.pc as int)
        &&& cq.cells == Cells {
            pc: pos(p, cp.cells.pc as int) as nat,
            dp: cp.cells.dp,
            tape: cp.cells.tape,
        }
    }
}

/// Where two states agree and the source program is at an instruction that
/// fuses with nothing, one step of each program leads to states that agree,
/// provided the optimized program holds the same instruction at its place,
/// with the place of the partner as its target if it is a loop instruction.
pub proof fn lemma_step_single(
    p: Seq<Instruction>,
    q: Seq<Instruction>,
    input: Seq<u8>,
    cp: Config,
    cq: Config,
)
    requires
        agree(p, cp, cq),
        !stopped(p, cp),
        0 <= pos(p, cp.cells.pc as int) < q.len(),
        boundary(p, cp.cells.pc as int + 1),
        pos(p, cp.cells.pc as int + 1) == pos(p, cp.cells.pc as int) + 1,
        match p[cp.cells.pc as int] {
            Instruction::LoopEntry(t) => {
                &&& q[pos(p, cp.cells.pc as int)] is LoopEntry
                &&& q[pos(p, cp.cells.pc as int)]->LoopEntry_0 == pos(p, t as int)
                &&& boundary(p, t + 1)
                &&& pos(p, t + 1) == pos(p, t as int) + 1
            },
            Instruction::LoopExit(t) => {
                &&& q[pos(p, cp.cells.pc as int)] is LoopExit
                &&& q[pos(p, cp.cells.pc as int)]->LoopExit_0 == pos(p, t as int)
                &&& boundary(p, t + 1)
                &&& pos(p, t + 1) == pos(p, t as int) + 1
            },
            Instruction::Input => q[pos(p, cp.cells.pc as int)] == Instruction::Input,
            Instruction::Output => q[pos(p, cp.cells.pc as int)] == Instruction::Output,
            _ => false,
        },
    ensures
        agree(p, step(p, input, cp), step(q, input, cq)),
{
    let i = cp.cells.pc as int;
    let byte = next_byte(input, cp.consumed);
    let x = p[i];
    let y = q[pos(p, i)];
    assert(!stopped(q, cq));
    assert(execute(p, cp.cells, byte) == perform(x, cp.cells, byte));
    assert(execute(q, cq.cells, byte) == perform(y, cq.cells, byte));
    match x {
        Instruction::LoopEntry(t) => {
            assert(y == Instruction::LoopEntry(y->LoopEntry_0));
        },
        Instruction::LoopExit(t) => {
            assert(y == Instruction::LoopExit(y->LoopExit_0));
        },
        _ => {},
    }
}

/// Where two states agree and the source program is at the start of a run of
/// instructions that fuse, the steps of the source program through the run and
/// one step of the optimized program lead to states that agree, provided
/// the run does what the instruction at its place does.
pub proof fn lemma_step_run(
    p: Seq<Instruction>,
    q: Seq<Instruction>,
    input: Seq<u8>,
    cp: Config,
    cq: Config,
    l: int,
)
    requires
        agree(p, cp, cq),
        !stopped(p, cp),
        cp.cells.pc < l <= p.len(),
        boundary(p, l),
        0 <= pos(p, cp.cells.pc as int) < q.len(),
        pos(p, l) == pos(p, cp.cells.pc as int) + 1,
        fusible(q[pos(p, cp.cells.pc as int)], q[pos(p, cp.cells.pc as int)]),
        effect_of(
            q[pos(p, cp.cells.pc as int)],
            cp,
            run(p, input, cp, (l - cp.cells.pc) as nat),
            l,
        ),
    ensures
        agree(p, run(p, input, cp, (l - cp.cells.pc) as nat), step(q, input, cq)),
{
    let i = cp.cells.pc as int;
    let byte = next_byte(input, cq.consumed);
    let y = q[pos(p, i)];
    let c = run(p, input, cp, (l - i) as nat);
    assert(!stopped(q, cq));
    assert(execute(q, cq.cells, byte) == perform(y, cq.cells, byte));
    match perform(y, cp.cells, None) {
        Ok((cells, w)) => {
            assert(perform(y, cq.cells, byte) == Ok::<(Cells, Option<u8>), RuntimeError>(
                (Cells { pc: cq.cells.pc + 1, dp: cells.dp, tape: cells.tape }, None),
            ));
            assert(valid(c));
        },
        Err(e) => {
            assert(perform(y, cq.cells, byte) == Err::<(Cells, Option<u8>), RuntimeError>(e));
        },
    }
}

/// Where two states agree and the source program has stopped, the optimized
/// program has stopped too.
pub proof fn lemma_step_stopped(
    p: Seq<Instruction>,
    q: Seq<Instruction>,
    input: Seq<u8>,
    cp: Config,
    cq: Config,
)
    requires
        q.len() == fuse(p).len(),
        agree(p, cp, cq),
        stopped(p, cp),
    ensures
        stopped(q, cq),
        agree(p, step(p, input, cp), step(q, input, cq)),
{
    assert(p.take(p.len() as int) =~= p);
}

/// One step of the optimized program is matched when the source program is
/// at a loop instruction.
proof fn lemma_simulated_jump(
    p: Seq<Instruction>,
    q: Seq<Instruction>,
    input: Seq<u8>,
    cp: Config,
    cq: Config,
)
    requires
        well_formed(p),
        optimized(p, q),
        agree(p, cp, cq),
        !stopped(p, cp),
        p[cp.cells.pc as int].is_bracket(),
    ensures
        agree(p, step(p, input, cp), step(q, input, cq)),
{
    let i = cp.cells.pc as int;
    lemma_jump_target(p, q, i);
    lemma_bracket_place(p, i);
    lemma_step_single(p, q, input, cp, cq);
}

/// One step of the optimized program is matched when the source program is
/// at an `Input` or an `Output`.
proof fn lemma_simulated_single(
    p: Seq<Instruction>,
    q: Seq<Instruction>,
    input: Seq<u8>,
    cp: Config,
    cq: Config,
)
    requires
        optimized(p, q),
        agree(p, cp, cq),
        !stopped(p, cp),
        !p[cp.cells.pc as int].is_bracket(),
        !fusible(p[cp.cells.pc as int], p[cp.cells.pc as int]),
    ensures
        agree(p, step(p, input, cp), step(q, input, cq)),
{
    let i = cp.cells.pc as int;
    lemma_single_place(p, i);
    assert(q[pos(p, i)].same_shape(fuse(p)[pos(p, i)]));
    lemma_step_single(p, q, input, cp, cq);
}

/// One step of the optimized program is matched when the source program is
/// at the start of a run of instructions that fuse.
proof fn lemma_simulated_run(
    p: Seq<Instruction>,
    q: Seq<Instruction>,
    input: Seq<u8>,
    cp: Config,
    cq: Config,
)
    requires
        fits(p),
        optimized(p, q),
        agree(p, cp, cq),
        !stopped(p, cp),
        fusible(p[cp.cells.pc as int], p[cp.cells.pc as int]),
    ensures
        cp.cells.pc < run_end(p, cp.cells.pc as int),
        agree(
            p,
            run(p, input, cp, (run_end(p, cp.cells.pc as int) - cp.cells.pc) as nat),
            step(q, input, cq),
        ),
{
    let i = cp.cells.pc as int;
    let l = run_end(p, i);
    let len = p.len() as int;
    let f = fuse(p);
    assert(p.take(len) =~= p);
    lemma_run_end(p, i);
    lemma_run_fused(p, input, cp, i, l);
    lemma_fused_stable(p, l, len);
    lemma_fused_last(p, l);
    assert(f[pos(p, i)] == fuse(p.take(l)).last());
    assert(q[pos(p, i)].same_shape(f[pos(p, i)]));
    assert(q[pos(p, i)] == f[pos(p, i)]);
    lemma_step_run(p, q, input, cp, cq, l);
}

/// Where two states agree, one step of the optimized program is matched by
/// one or more steps of the source program: as many as the run is long that the
/// instruction stands for.
pub proof fn lemma_step_simulated(
    p: Seq<Instruction>,
    q: Seq<Instruction>,
    input: Seq<u8>,
    cp: Config,
    cq: Config,
) -> (k: nat)
    requires
        well_formed(p),
        fits(p),
        optimized(p, q),
        agree(p, cp, cq),
    ensures
        k >= 1,
        agree(p, run(p, input, cp, k), step(q, input, cq)),
{
    let i = cp.cells.pc as int;
    assert(run(p, input, cp, 1) == step(p, input, run(p, input, cp, 0)));
    if stopped(p, cp) {
        lemma_step_stopped(p, q, input, cp, cq);
        1
    } else if p[i].is_bracket() {
        lemma_simulated_jump(p, q, input, cp, cq);
        1
    } else if !fusible(p[i], p[i]) {
        lemma_simulated_single(p, q, input, cp, cq);
        1
    } else {
        lemma_simulated_run(p, q, input, cp, cq);
        (run_end(p, i) - i) as nat
    }
}

/// Every state of a run of the optimized program stands for a state of the
/// run of the source program on the same input, reached after at least as many
/// steps.
pub proof fn lemma_simulation(
    p: Seq<Instruction>,
    q: Seq<Instruction>,
    input: Seq<u8>,
    m: nat,
) -> (n: nat)
    requires
        well_formed(p),
        fits(p),
        optimized(p, q),
    ensures
        n >= m,
        agree(p, run(p, input, initial(), n), run(q, input, initial(), m)),
    decreases m,
{
    if m == 0 {
        assert(p.take(0) =~= Seq::<Instruction>::empty());
        0
    } else {
        let n0 = lemma_simulation(p, q, input, (m - 1) as nat);
        let cp = run(p, input, initial(), n0);
        let cq = run(q, input, initial(), (m - 1) as nat);
        let k = lemma_step_simulated(p, q, input, cp, cq);
        lemma_run_add(p, input, initial(), n0, k);
        n0 + k
    }
}

/// Semantic preservation, from the source program to the optimized program: if
/// the run of `p` on `input` has stopped after `limit` steps, complete or
/// aborted, then the run of its optimized form `q` has stopped after
/// `limit` steps too, in the same way and with the same output.
pub proof fn lemma_same_outcome(
    p: Seq<Instruction>,
    q: Seq<Instruction>,
    input: Seq<u8>,
    limit: nat,
)
    requires
        well_formed(p),
        fits(p),
        optimized(p, q),
        stopped(p, run(p, input, initial(), limit)),
    ensures
        run(q, input, initial(), limit).output == run(p, input, initial(), limit).output,
        status_of(q, run(q, input, initial(), limit)) == status_of(
            p,
            run(p, input, initial(), limit),
        ),
{
    let n = lemma_simulation(p, q, input, limit);
    lemma_run_stays(p, input, initial(), limit, n);
    assert(p.take(p.len() as int) =~= p);
}

/// Semantic preservation, from the optimized program to the source program: if
/// the run of the optimized form `q` on `input` has stopped after `m`
/// steps, then the run of `p` stops too, after the `n` steps returned, in
/// the same way and with the same output.
pub proof fn lemma_same_outcome_back(
    p: Seq<Instruction>,
    q: Seq<Instruction>,
    input: Seq<u8>,
    m: nat,
) -> (n: nat)
    requires
        well_formed(p),
        fits(p),
        optimized(p, q),
        stopped(q, run(q, input, initial(), m)),
    ensures
        n >= m,
        stopped(p, run(p, input, initial(), n)),
        run(p, input, initial(), n).output == run(q, input, initial(), m).output,
        status_of(p, run(p, input, initial(), n)) == status_of(q, run(q, input, initial(), m)),
{
    let n = lemma_simulation(p, q, input, m);
    let cp = run(p, input, initial(), n);
    assert(p.take(p.len() as int) =~= p);
    if cp.failure is None {
        lemma_fused_stable(p, cp.cells.pc as int, p.len() as int);
    }
    n
}

/// The run of `p` on `input` never comes to an `Input` or an `Output`.
pub open spec fn silent(p: Seq<Instruction>, input: Seq<u8>) -> bool {
    forall|n: nat|
        {
            let c = #[trigger] run(p, input, initial(), n);
            !stopped(p, c) ==> !(p[c.cells.pc as int] is Input) && !(p[c.cells.pc as int] is Output)
        }
}

/// A run that never comes to an `Output` writes nothing.
pub proof fn lemma_silent_writes_nothing(p: Seq<Instruction>, input: Seq<u8>, n: nat)
    requires
        silent(p, input),
    ensures
        run(p, input, initial(), n).output == Seq::<u8>::empty(),
    decreases n,
{
    if n > 0 {
        lemma_silent_writes_nothing(p, input, (n - 1) as nat);
        let c = run(p, input, initial(), (n - 1) as nat);
        assert(!stopped(p, c) ==> !(p[c.cells.pc as int] is Output));
    }
}

/// Semantic preservation for programs without reachable input or output:
/// if the run of a well-formed program `p` never comes to an `Input` or an
/// `Output`, then `p` and its optimized form `q` have written the same at
/// every moment of their runs.
pub proof fn lemma_silent_same_output(
    p: Seq<Instruction>,
    q: Seq<Instruction>,
    input: Seq<u8>,
    n: nat,
    m: nat,
)
    requires
        well_formed(p),
        fits(p),
        optimized(p, q),
        silent(p, input),
    ensures
        run(p, input, initial(), n).output == run(q, input, initial(), m).output,
{
    let k = lemma_simulation(p, q, input, m);
    lemma_silent_writes_nothing(p, input, k);
    lemma_silent_writes_nothing(p, input, n);
}

} // verus!
