//! Book-keeping that gives loop instructions their jump targets while an
//! instruction list is assembled from left to right.

use vstd::prelude::*;
use crate::ast::{Instruction, SyntaxError, UNRESOLVED};
use crate::nesting::{
    depth, lemma_depth_agrees, matched, never_negative, oldest_unclosed, resolved, stray_exit,
};

verus! {

/// `s` after the fix-ups were applied in order: each `(entry, exit)` puts
/// `LoopEntry(exit)` at index `entry`.
pub open spec fn patched(s: Seq<Instruction>, fixes: Seq<(usize, usize)>) -> Seq<Instruction>
    decreases fixes.len(),
{
    if fixes.len() == 0 {
        s
    } else {
        patched(s, fixes.drop_last()).update(
            fixes.last().0 as int,
            Instruction::LoopEntry(fixes.last().1),
        )
    }
}

/// Every fix-up finds an unresolved loop entry of `s`, and no two of them
/// the same one.
pub open spec fn patchable(s: Seq<Instruction>, fixes: Seq<(usize, usize)>) -> bool {
    &&& forall|r: int|
        0 <= r < fixes.len() ==> (#[trigger] fixes[r]).0 < s.len() && s[fixes[r].0 as int]
            == Instruction::LoopEntry(UNRESOLVED)
    &&& forall|r1: int, r2: int|
        0 <= r1 < r2 < fixes.len() ==> (#[trigger] fixes[r1]).0 != (#[trigger] fixes[r2]).0
}

/// The loop entry at `i` stands at nesting level `level` and is not closed
/// anywhere in `out`.
pub open spec fn unclosed(out: Seq<Instruction>, i: int, level: int) -> bool {
    &&& 0 <= i < out.len()
    &&& out[i] == Instruction::LoopEntry(UNRESOLVED)
    &&& depth(out, i) == level
    &&& forall|k: int| i < k <= out.len() ==> depth(out, k) > level
}

/// What holds between the instructions assembled so far and the helper that
/// was told of each loop instruction among them: `open` lists the unclosed
/// entries from the outermost inwards, `pending` the closed loops whose
/// entry still waits for its target, and every exit has its target.
pub open spec fn resolving(
    out: Seq<Instruction>,
    open: Seq<usize>,
    pending: Seq<(usize, usize)>,
) -> bool {
    &&& never_negative(out)
    &&& open.len() == depth(out, out.len() as int)
    &&& forall|j: int| 0 <= j < open.len() ==> unclosed(out, #[trigger] open[j] as int, j)
    &&& forall|r: int|
        0 <= r < pending.len() ==> {
            &&& matched(out, (#[trigger] pending[r]).0 as int, pending[r].1 as int)
            &&& out[pending[r].0 as int] == Instruction::LoopEntry(UNRESOLVED)
        }
    &&& forall|r1: int, r2: int|
        0 <= r1 < r2 < pending.len() ==> (#[trigger] pending[r1]).0 != (#[trigger] pending[r2]).0
    &&& forall|i: int|
        0 <= i < out.len() ==> match #[trigger] out[i] {
            Instruction::LoopEntry(_) => {
                ||| exists|j: int| 0 <= j < open.len() && #[trigger] open[j] == i
                ||| exists|r: int| 0 <= r < pending.len() && (#[trigger] pending[r]).0 == i
            },
            Instruction::LoopExit(t) => matched(out, t as int, i),
            _ => true,
        }
}

/// Keeps track of the loops that are open while a list of instructions is
/// assembled. A loop exit gets the index of its entry at once; a loop entry
/// is a placeholder until `relocate` gives it the index of its exit.
#[derive(Debug)]
pub struct LoopHelper {
    bracket_stack: Vec<usize>,
    relocs: Vec<(usize, usize)>,
}

impl LoopHelper {
    /// Indices of the loop entries that are not closed yet, oldest first.
    pub closed spec fn open(&self) -> Seq<usize> {
        self.bracket_stack@
    }

    /// The fix-ups `(entry, exit)` recorded so far, in the order of the exits.
    pub closed spec fn pending(&self) -> Seq<(usize, usize)> {
        self.relocs@
    }

    /// A helper that knows of no loop.
    pub fn new() -> (helper: LoopHelper)
        ensures
            helper.open() == Seq::<usize>::empty(),
            helper.pending() == Seq::<(usize, usize)>::empty(),
    {
        LoopHelper { bracket_stack: Vec::new(), relocs: Vec::new() }
    }

    /// Notes a loop entry that is about to be placed at index `idx`, and
    /// returns the placeholder to place there.
    pub fn loop_entry(&mut self, idx: usize) -> (instr: Instruction)
        ensures
            instr == Instruction::LoopEntry(UNRESOLVED),
            final(self).open() == old(self).open().push(idx),
            final(self).pending() == old(self).pending(),
    {
        self.bracket_stack.push(idx);
        Instruction::LoopEntry(UNRESOLVED)
    }

    /// Closes the innermost open loop with an exit that is about to be placed
    /// at index `idx`, and returns that exit. Fails, and changes nothing, if
    /// no loop is open.
    pub fn loop_exit(&mut self, idx: usize) -> (r: Result<Instruction, SyntaxError>)
        ensures
            match r {
                Ok(instr) => {
                    &&& old(self).open().len() > 0
                    &&& instr == Instruction::LoopExit(old(self).open().last())
                    &&& final(self).open() == old(self).open().drop_last()
                    &&& final(self).pending() == old(self).pending().push(
                        (old(self).open().last(), idx),
                    )
                },
                Err(e) => {
                    &&& old(self).open().len() == 0
                    &&& e == SyntaxError::UnbalancedCloser(idx)
                    &&& final(self).open() == old(self).open()
                    &&& final(self).pending() == old(self).pending()
                },
            },
    {
        match self.bracket_stack.pop() {
            Some(entry) => {
                self.relocs.push((entry, idx));
                Ok(Instruction::LoopExit(entry))
            },
            None => Err(SyntaxError::UnbalancedCloser(idx)),
        }
    }

    /// Ends the assembly. If a loop is still open, fails with the oldest open
    /// entry and leaves `instructions` as they are; else applies every
    /// fix-up, so that each closed entry holds the index of its exit.
    ///
    /// Each fix-up must find the placeholder that `loop_entry` handed out
    /// still in its place; `lemma_resolving_done` shows that it does where
    /// the instructions were assembled together with the helper.
    pub fn relocate(self, instructions: &mut Vec<Instruction>) -> (r: Result<(), SyntaxError>)
        requires
            self.open().len() == 0 ==> patchable(old(instructions)@, self.pending()),
        ensures
            match r {
                Ok(_) => {
                    &&& self.open().len() == 0
                    &&& final(instructions)@ == patched(old(instructions)@, self.pending())
                },
                Err(e) => {
                    &&& self.open().len() > 0
                    &&& e == SyntaxError::UnbalancedOpener(self.open()[0])
                    &&& final(instructions)@ == old(instructions)@
                },
            },
    {
        if self.bracket_stack.len() > 0 {
            return Err(SyntaxError::UnbalancedOpener(self.bracket_stack[0]));
        }
        let ghost before = instructions@;
        let mut k: usize = 0;
        while k < self.relocs.len()
            invariant
                k <= self.relocs.len(),
                patchable(before, self.relocs@),
                instructions@ == patched(before, self.relocs@.take(k as int)),
            decreases self.relocs.len() - k,
        {
            let (entry, exit) = self.relocs[k];
            proof {
                lemma_patched(before, self.relocs@.take(k as int));
                assert(self.relocs@.take(k + 1).drop_last() =~= self.relocs@.take(k as int));
                assert(self.relocs@[k as int].0 < before.len());
            }
            instructions.set(entry, Instruction::LoopEntry(exit));
            k += 1;
        }
        proof {
            assert(self.relocs@.take(k as int) =~= self.relocs@);
        }
        Ok(())
    }
}

/// What the fix-ups do to a sequence that they fit: each entry they name
/// gets its exit, and nothing else changes.
pub proof fn lemma_patched(s: Seq<Instruction>, fixes: Seq<(usize, usize)>)
    requires
        forall|r: int| 0 <= r < fixes.len() ==> (#[trigger] fixes[r]).0 < s.len(),
        forall|r1: int, r2: int|
            0 <= r1 < r2 < fixes.len() ==> (#[trigger] fixes[r1]).0 != (#[trigger] fixes[r2]).0,
    ensures
        patched(s, fixes).len() == s.len(),
        forall|r: int|
            0 <= r < fixes.len() ==> patched(s, fixes)[(#[trigger] fixes[r]).0 as int]
                == Instruction::LoopEntry(fixes[r].1),
        forall|i: int|
            0 <= i < s.len() && (forall|r: int|
                0 <= r < fixes.len() ==> (#[trigger] fixes[r]).0 != i) ==> #[trigger] patched(
                s,
                fixes,
            )[i] == s[i],
    decreases fixes.len(),
{
    if fixes.len() > 0 {
        let init = fixes.drop_last();
        lemma_patched(s, init);
        let n = fixes.len() - 1;
        assert forall|r: int| 0 <= r < fixes.len() implies patched(s, fixes)[(
        #[trigger] fixes[r]).0 as int] == Instruction::LoopEntry(fixes[r].1) by {
            if r < n {
                assert(init[r] == fixes[r]);
                assert(fixes[r].0 != fixes[n].0);
            }
        }
        assert forall|i: int|
            0 <= i < s.len() && (forall|r: int|
                0 <= r < fixes.len() ==> (#[trigger] fixes[r]).0 != i) implies #[trigger] patched(
            s,
            fixes,
        )[i] == s[i] by {
            assert(fixes[n].0 != i);
            assert forall|r: int| 0 <= r < init.len() implies (#[trigger] init[r]).0 != i by {
                assert(init[r] == fixes[r]);
            }
        }
    }
}

/// A matched pair stays matched when the sequence changes only behind it,
/// or in what is no loop instruction, or in the targets of loop instructions.
pub proof fn lemma_matched_carries(a: Seq<Instruction>, b: Seq<Instruction>, i: int, j: int)
    requires
        matched(a, i, j),
        j < b.len(),
        forall|k: int| 0 <= k <= j ==> (#[trigger] a[k]).delta() == b[k].delta(),
    ensures
        matched(b, i, j),
{
    assert(a[i].delta() == b[i].delta());
    assert(a[j].delta() == b[j].delta());
    lemma_depth_agrees(a, b, i);
    lemma_depth_agrees(a, b, j + 1);
    assert forall|k: int| i < k <= j implies depth(b, k) > depth(b, i) by {
        lemma_depth_agrees(a, b, k);
    }
}

/// The invariant holds of the empty list and a fresh helper.
pub proof fn lemma_resolving_start()
    ensures
        resolving(Seq::empty(), Seq::empty(), Seq::empty()),
{
}

/// The invariant is kept when the list changes behind its loop
/// instructions only: `b` is `a` with a last instruction that is no loop
/// instruction replaced by another, or with one appended.
pub proof fn lemma_resolving_plain(
    a: Seq<Instruction>,
    b: Seq<Instruction>,
    open: Seq<usize>,
    pending: Seq<(usize, usize)>,
)
    requires
        resolving(a, open, pending),
        a.len() <= b.len() <= a.len() + 1,
        forall|k: int| 0 <= k < a.len() && a[k].is_bracket() ==> b[k] == a[k],
        forall|k: int| 0 <= k < a.len() ==> (#[trigger] a[k]).delta() == b[k].delta(),
        b.len() > a.len() ==> !b.last().is_bracket(),
    ensures
        resolving(b, open, pending),
{
    let n = a.len() as int;
    assert forall|k: int| 0 <= k <= b.len() implies #[trigger] depth(b, k) == depth(
        a,
        if k <= n { k } else { n },
    ) by {
        if k <= n {
            lemma_depth_agrees(a, b, k);
        } else {
            lemma_depth_agrees(a, b, n);
        }
    }
    assert forall|j: int| 0 <= j < open.len() implies unclosed(b, #[trigger] open[j] as int, j) by {
        let i = open[j] as int;
        assert(unclosed(a, i, j));
        assert(a[i].is_bracket());
        assert forall|k: int| i < k <= b.len() implies depth(b, k) > j by {
            if k <= n {
                assert(depth(a, k) > j);
            } else {
                assert(depth(a, n) > j);
            }
        }
    }
    assert forall|r: int| 0 <= r < pending.len() implies {
        &&& matched(b, (#[trigger] pending[r]).0 as int, pending[r].1 as int)
        &&& b[pending[r].0 as int] == Instruction::LoopEntry(UNRESOLVED)
    } by {
        lemma_matched_carries(a, b, pending[r].0 as int, pending[r].1 as int);
        assert(a[pending[r].0 as int].is_bracket());
    }
    assert forall|i: int| 0 <= i < b.len() implies match #[trigger] b[i] {
        Instruction::LoopEntry(_) => {
            ||| exists|j: int| 0 <= j < open.len() && #[trigger] open[j] == i
            ||| exists|r: int| 0 <= r < pending.len() && (#[trigger] pending[r]).0 == i
        },
        Instruction::LoopExit(t) => matched(b, t as int, i),
        _ => true,
    } by {
        if i < n {
            assert(a[i].delta() == b[i].delta());
            if a[i].is_bracket() {
                assert(b[i] == a[i]);
                if let Instruction::LoopExit(t) = a[i] {
                    lemma_matched_carries(a, b, t as int, i);
                }
            }
        }
    }
}

/// The invariant is kept when a loop entry is placed and the helper is told.
pub proof fn lemma_resolving_entry(
    a: Seq<Instruction>,
    open: Seq<usize>,
    pending: Seq<(usize, usize)>,
)
    requires
        resolving(a, open, pending),
        a.len() <= usize::MAX,
    ensures
        resolving(
            a.push(Instruction::LoopEntry(UNRESOLVED)),
            open.push(a.len() as usize),
            pending,
        ),
{
    let n = a.len() as int;
    let b = a.push(Instruction::LoopEntry(UNRESOLVED));
    let open2 = open.push(a.len() as usize);
    assert forall|k: int| 0 <= k <= n implies #[trigger] depth(b, k) == depth(a, k) by {
        lemma_depth_agrees(a, b, k);
    }
    assert(depth(b, n + 1) == depth(b, n) + 1);
    assert forall|j: int| 0 <= j < open2.len() implies unclosed(
        b,
        #[trigger] open2[j] as int,
        j,
    ) by {
        if j < open.len() {
            let i = open[j] as int;
            assert(unclosed(a, i, j));
            assert forall|k: int| i < k <= b.len() implies depth(b, k) > j by {
                if k <= n {
                    assert(depth(a, k) > j);
                } else {
                    assert(depth(a, n) > j);
                }
            }
        }
    }
    assert forall|r: int| 0 <= r < pending.len() implies {
        &&& matched(b, (#[trigger] pending[r]).0 as int, pending[r].1 as int)
        &&& b[pending[r].0 as int] == Instruction::LoopEntry(UNRESOLVED)
    } by {
        lemma_matched_carries(a, b, pending[r].0 as int, pending[r].1 as int);
    }
    assert forall|i: int| 0 <= i < b.len() implies match #[trigger] b[i] {
        Instruction::LoopEntry(_) => {
            ||| exists|j: int| 0 <= j < open2.len() && #[trigger] open2[j] == i
            ||| exists|r: int| 0 <= r < pending.len() && (#[trigger] pending[r]).0 == i
        },
        Instruction::LoopExit(t) => matched(b, t as int, i),
        _ => true,
    } by {
        if i < n {
            assert(b[i] == a[i]);
            match a[i] {
                Instruction::LoopEntry(_) => {
                    if exists|j: int| 0 <= j < open.len() && #[trigger] open[j] == i {
                        let j = choose|j: int| 0 <= j < open.len() && #[trigger] open[j] == i;
                        assert(open2[j] == i);
                    }
                },
                Instruction::LoopExit(t) => {
                    lemma_matched_carries(a, b, t as int, i);
                },
                _ => {},
            }
        } else {
            assert(open2[open.len() as int] == i);
        }
    }
}

/// The invariant is kept when the exit of the innermost open loop is placed
/// and the helper is told.
pub proof fn lemma_resolving_exit(
    a: Seq<Instruction>,
    open: Seq<usize>,
    pending: Seq<(usize, usize)>,
)
    requires
        resolving(a, open, pending),
        open.len() > 0,
        a.len() <= usize::MAX,
    ensures
        resolving(
            a.push(Instruction::LoopExit(open.last())),
            open.drop_last(),
            pending.push((open.last(), a.len() as usize)),
        ),
{
    let n = a.len() as int;
    let e = open.last();
    let top = open.len() - 1;
    let b = a.push(Instruction::LoopExit(e));
    let open2 = open.drop_last();
    let pending2 = pending.push((e, a.len() as usize));
    assert(unclosed(a, open[top] as int, top));
    assert forall|k: int| 0 <= k <= n implies #[trigger] depth(b, k) == depth(a, k) by {
        lemma_depth_agrees(a, b, k);
    }
    assert(depth(b, n + 1) == depth(b, n) - 1);
    assert forall|j: int| 0 <= j < open2.len() implies unclosed(
        b,
        #[trigger] open2[j] as int,
        j,
    ) by {
        let i = open[j] as int;
        assert(unclosed(a, i, j));
        assert forall|k: int| i < k <= b.len() implies depth(b, k) > j by {
            if k <= n {
                assert(depth(a, k) > j);
            }
        }
    }
    assert(matched(b, e as int, n)) by {
        assert forall|k: int| e < k <= n implies depth(b, k) > depth(b, e as int) by {
            assert(depth(a, k) > top);
        }
    }
    assert forall|r: int| 0 <= r < pending2.len() implies {
        &&& matched(b, (#[trigger] pending2[r]).0 as int, pending2[r].1 as int)
        &&& b[pending2[r].0 as int] == Instruction::LoopEntry(UNRESOLVED)
    } by {
        if r < pending.len() {
            lemma_matched_carries(a, b, pending[r].0 as int, pending[r].1 as int);
        }
    }
    assert forall|r1: int, r2: int| 0 <= r1 < r2 < pending2.len() implies (
    #[trigger] pending2[r1]).0 != (#[trigger] pending2[r2]).0 by {
        if r2 == pending.len() {
            let x = pending[r1].1 as int;
            assert(matched(a, pending[r1].0 as int, x));
            if pending[r1].0 == e {
                assert(depth(a, x + 1) > top);
            }
        } else {
            assert(pending[r1].0 != pending[r2].0);
        }
    }
    assert forall|i: int| 0 <= i < b.len() implies match #[trigger] b[i] {
        Instruction::LoopEntry(_) => {
            ||| exists|j: int| 0 <= j < open2.len() && #[trigger] open2[j] == i
            ||| exists|r: int| 0 <= r < pending2.len() && (#[trigger] pending2[r]).0 == i
        },
        Instruction::LoopExit(t) => matched(b, t as int, i),
        _ => true,
    } by {
        if i < n {
            assert(b[i] == a[i]);
            match a[i] {
                Instruction::LoopEntry(_) => {
                    if exists|j: int| 0 <= j < open.len() && #[trigger] open[j] == i {
                        let j = choose|j: int| 0 <= j < open.len() && #[trigger] open[j] == i;
                        if j < top {
                            assert(open2[j] == i);
                        } else {
                            assert(pending2[pending.len() as int].0 == i);
                        }
                    } else {
                        let r = choose|r: int|
                            0 <= r < pending.len() && (#[trigger] pending[r]).0 == i;
                        assert(pending2[r].0 == i);
                    }
                },
                Instruction::LoopExit(t) => {
                    lemma_matched_carries(a, b, t as int, i);
                },
                _ => {},
            }
        }
    }
}

/// With no loop open the fix-ups fit, and applying them resolves the list.
pub proof fn lemma_resolving_done(a: Seq<Instruction>, pending: Seq<(usize, usize)>)
    requires
        resolving(a, Seq::empty(), pending),
    ensures
        patchable(a, pending),
        resolved(a, patched(a, pending)),
{
    let q = patched(a, pending);
    lemma_patched(a, pending);
    assert forall|i: int| 0 <= i < q.len() implies (#[trigger] q[i]).same_shape(a[i]) by {
        if exists|r: int| 0 <= r < pending.len() && (#[trigger] pending[r]).0 == i {
            let r = choose|r: int| 0 <= r < pending.len() && (#[trigger] pending[r]).0 == i;
            assert(q[pending[r].0 as int] == Instruction::LoopEntry(pending[r].1));
        } else {
            assert(q[i] == a[i]);
        }
    }
    assert forall|k: int| 0 <= k <= q.len() implies #[trigger] depth(q, k) == depth(a, k) by {
        lemma_depth_agrees(q, a, k);
    }
    assert forall|i: int| 0 <= i < q.len() implies match #[trigger] q[i] {
        Instruction::LoopEntry(t) => matched(q, i, t as int),
        Instruction::LoopExit(t) => matched(q, t as int, i),
        _ => true,
    } by {
        assert(q[i].same_shape(a[i]));
        match a[i] {
            Instruction::LoopEntry(_) => {
                let r = choose|r: int| 0 <= r < pending.len() && (#[trigger] pending[r]).0 == i;
                assert(q[pending[r].0 as int] == Instruction::LoopEntry(pending[r].1));
                lemma_matched_carries(a, q, i, pending[r].1 as int);
            },
            Instruction::LoopExit(t) => {
                assert(q[i] == a[i]);
                lemma_matched_carries(a, q, t as int, i);
            },
            _ => {},
        }
    }
}

/// With no loop open, a loop exit placed next is stray.
pub proof fn lemma_resolving_stray(
    a: Seq<Instruction>,
    pending: Seq<(usize, usize)>,
    x: Instruction,
)
    requires
        resolving(a, Seq::empty(), pending),
        x is LoopExit,
    ensures
        stray_exit(a.push(x), a.len() as int),
{
    let b = a.push(x);
    assert forall|k: int| 0 <= k <= a.len() implies #[trigger] depth(b, k) == depth(a, k) by {
        lemma_depth_agrees(a, b, k);
    }
}

/// With a loop open at the end, the first open entry is the oldest that is
/// never closed.
pub proof fn lemma_resolving_unclosed(
    a: Seq<Instruction>,
    open: Seq<usize>,
    pending: Seq<(usize, usize)>,
)
    requires
        resolving(a, open, pending),
        open.len() > 0,
    ensures
        oldest_unclosed(a, open[0] as int),
{
    assert(unclosed(a, open[0] as int, 0));
}

} // verus!
