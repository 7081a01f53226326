//! The nesting structure of loop instructions: depth, matching pairs and
//! well-formed programs.

use vstd::prelude::*;
use crate::ast::{Instruction, Program, UNRESOLVED};

verus! {

/// Number of loops that are open after the first `k` instructions of `s`:
/// entries minus exits among them.
pub open spec fn depth(s: Seq<Instruction>, k: int) -> int
    decreases k,
{
    if k <= 0 {
        0
    } else {
        depth(s, k - 1) + s[k - 1].delta()
    }
}

/// No prefix of `s` closes more loops than it opens.
pub open spec fn never_negative(s: Seq<Instruction>) -> bool {
    forall|k: int| 0 <= k <= s.len() ==> depth(s, k) >= 0
}

/// Every loop exit closes a loop and every loop is closed.
pub open spec fn balanced(s: Seq<Instruction>) -> bool {
    never_negative(s) && depth(s, s.len() as int) == 0
}

/// The entry at `i` and the exit at `j` delimit one loop: `j` is the first
/// place behind `i` where the depth is back to what it was in front of `i`.
pub open spec fn matched(s: Seq<Instruction>, i: int, j: int) -> bool {
    &&& 0 <= i < j < s.len()
    &&& s[i] is LoopEntry
    &&& s[j] is LoopExit
    &&& depth(s, j + 1) == depth(s, i)
    &&& forall|k: int| i < k <= j ==> depth(s, k) > depth(s, i)
}

/// The loop exit at `i` closes no loop: it is the first to take the depth
/// below zero.
pub open spec fn stray_exit(s: Seq<Instruction>, i: int) -> bool {
    &&& 0 <= i < s.len()
    &&& s[i] is LoopExit
    &&& depth(s, i) == 0
    &&& forall|k: int| 0 <= k <= i ==> depth(s, k) >= 0
}

/// No exit of `s` is stray, and the loop entry at `i` is the first that is
/// never closed.
pub open spec fn oldest_unclosed(s: Seq<Instruction>, i: int) -> bool {
    &&& never_negative(s)
    &&& 0 <= i < s.len()
    &&& s[i] is LoopEntry
    &&& depth(s, i) == 0
    &&& forall|k: int| i < k <= s.len() ==> depth(s, k) > 0
}

/// The loops of `s` are balanced, each entry holds the index of its exit and
/// each exit the index of its entry.
pub open spec fn well_formed(s: Seq<Instruction>) -> bool {
    &&& balanced(s)
    &&& forall|i: int|
        0 <= i < s.len() ==> match #[trigger] s[i] {
            Instruction::LoopEntry(t) => matched(s, i, t as int),
            Instruction::LoopExit(t) => matched(s, t as int, i),
            _ => true,
        }
}

/// `q` and `s` agree but for the targets of their loop instructions.
pub open spec fn same_shape(q: Seq<Instruction>, s: Seq<Instruction>) -> bool {
    &&& q.len() == s.len()
    &&& forall|i: int| 0 <= i < q.len() ==> (#[trigger] q[i]).same_shape(s[i])
}

/// `q` is `s` with the targets of its loop instructions resolved.
pub open spec fn resolved(s: Seq<Instruction>, q: Seq<Instruction>) -> bool {
    same_shape(q, s) && well_formed(q)
}

impl Program {
    /// The invariant of a program: see [`well_formed`].
    pub open spec fn well_formed(&self) -> bool {
        well_formed(self@)
    }
}

/// The depth in front of `k` depends only on the kinds of the instructions
/// in front of `k`.
pub proof fn lemma_depth_agrees(a: Seq<Instruction>, b: Seq<Instruction>, k: int)
    requires
        0 <= k <= a.len(),
        k <= b.len(),
        forall|i: int| 0 <= i < k ==> (#[trigger] a[i]).delta() == b[i].delta(),
    ensures
        depth(a, k) == depth(b, k),
    decreases k,
{
    if k > 0 {
        lemma_depth_agrees(a, b, k - 1);
    }
}

/// A matched pair in one sequence is a matched pair in every sequence of the
/// same shape.
pub proof fn lemma_same_shape_matched(a: Seq<Instruction>, b: Seq<Instruction>, i: int, j: int)
    requires
        same_shape(a, b),
        matched(a, i, j),
    ensures
        matched(b, i, j),
{
    assert(a[i].same_shape(b[i]));
    assert(a[j].same_shape(b[j]));
    lemma_depth_agrees(a, b, i);
    lemma_depth_agrees(a, b, j + 1);
    assert forall|k: int| i < k <= j implies depth(b, k) > depth(b, i) by {
        lemma_depth_agrees(a, b, k);
    }
}

/// An entry has at most one matching exit.
pub proof fn lemma_exit_unique(s: Seq<Instruction>, i: int, j1: int, j2: int)
    requires
        matched(s, i, j1),
        matched(s, i, j2),
    ensures
        j1 == j2,
{
    if j1 < j2 {
        assert(depth(s, j1 + 1) > depth(s, i));
    }
    if j2 < j1 {
        assert(depth(s, j2 + 1) > depth(s, i));
    }
}

/// An exit has at most one matching entry.
pub proof fn lemma_entry_unique(s: Seq<Instruction>, i1: int, i2: int, j: int)
    requires
        matched(s, i1, j),
        matched(s, i2, j),
    ensures
        i1 == i2,
{
    if i1 < i2 {
        assert(depth(s, i2) > depth(s, i1));
    }
    if i2 < i1 {
        assert(depth(s, i1) > depth(s, i2));
    }
}

/// The targets of a sequence can be resolved in one way only.
pub proof fn lemma_resolved_unique(s: Seq<Instruction>, q1: Seq<Instruction>, q2: Seq<Instruction>)
    requires
        resolved(s, q1),
        resolved(s, q2),
    ensures
        q1 == q2,
{
    assert forall|i: int| 0 <= i < q1.len() implies q1[i] == q2[i] by {
        assert(q1[i].same_shape(s[i]));
        assert(q2[i].same_shape(s[i]));
        match q1[i] {
            Instruction::LoopEntry(t1) => {
                let t2 = q2[i]->LoopEntry_0;
                lemma_same_shape_matched(q1, s, i, t1 as int);
                lemma_same_shape_matched(q2, s, i, t2 as int);
                lemma_exit_unique(s, i, t1 as int, t2 as int);
            },
            Instruction::LoopExit(t1) => {
                let t2 = q2[i]->LoopExit_0;
                lemma_same_shape_matched(q1, s, t1 as int, i);
                lemma_same_shape_matched(q2, s, t2 as int, i);
                lemma_entry_unique(s, t1 as int, t2 as int, i);
            },
            _ => {},
        }
    }
    assert(q1 =~= q2);
}

/// A stray exit stays stray when the sequence changes only behind it, or in
/// what is no loop instruction, or in the targets of loop instructions.
pub proof fn lemma_stray_carries(a: Seq<Instruction>, b: Seq<Instruction>, i: int)
    requires
        stray_exit(a, i),
        i < b.len(),
        forall|k: int| 0 <= k <= i ==> (#[trigger] a[k]).delta() == b[k].delta(),
    ensures
        stray_exit(b, i),
{
    assert(a[i].delta() == b[i].delta());
    assert forall|k: int| 0 <= k <= i implies depth(b, k) == depth(a, k) by {
        lemma_depth_agrees(a, b, k);
    }
}

/// The oldest unclosed entry of a sequence is that of every sequence of the
/// same shape.
pub proof fn lemma_unclosed_carries(a: Seq<Instruction>, b: Seq<Instruction>, i: int)
    requires
        oldest_unclosed(a, i),
        same_shape(a, b),
    ensures
        oldest_unclosed(b, i),
{
    assert(a[i].same_shape(b[i]));
    assert forall|k: int| 0 <= k <= b.len() implies depth(b, k) == depth(a, k) by {
        lemma_depth_agrees(a, b, k);
    }
}

/// A sequence with a stray exit or an unclosed entry is not balanced.
pub proof fn lemma_unbalanced(s: Seq<Instruction>, i: int)
    requires
        stray_exit(s, i) || oldest_unclosed(s, i),
    ensures
        !balanced(s),
{
    if stray_exit(s, i) {
        assert(depth(s, i + 1) == depth(s, i) - 1);
    }
}

/// What is resolved for one sequence is resolved for every sequence of the
/// same shape.
pub proof fn lemma_resolved_carries(a: Seq<Instruction>, b: Seq<Instruction>, q: Seq<Instruction>)
    requires
        resolved(a, q),
        same_shape(a, b),
    ensures
        resolved(b, q),
        balanced(b),
{
    assert forall|i: int| 0 <= i < q.len() implies (#[trigger] q[i]).same_shape(b[i]) by {
        assert(q[i].same_shape(a[i]));
        assert(a[i].same_shape(b[i]));
    }
    assert forall|k: int| 0 <= k <= b.len() implies depth(b, k) == depth(q, k) by {
        lemma_depth_agrees(b, q, k);
    }
}

/// Every loop instruction of `p` holds a target, not the placeholder.
pub open spec fn runnable(p: Seq<Instruction>) -> bool {
    forall|i: int|
        0 <= i < p.len() ==> match #[trigger] p[i] {
            Instruction::LoopEntry(t) => t != UNRESOLVED,
            Instruction::LoopExit(t) => t != UNRESOLVED,
            _ => true,
        }
}

/// A well-formed program that a vector can hold is runnable.
pub proof fn lemma_well_formed_runnable(p: Seq<Instruction>)
    requires
        well_formed(p),
        p.len() <= usize::MAX,
    ensures
        runnable(p),
{
}

} // verus!
