//! The instruction stream of a syntax tree is balanced and determines the
//! tree, so a text has exactly one syntax tree.
use vstd::prelude::*;
use crate::brackets::{closes, depth, lemma_depth_split, lemma_opener_unique, never_below_zero};
use crate::jit::ast::{
    block_closed, block_open, lemma_loops_before_monotone, lemma_loops_before_prefix, loops_before, lemma_push_inst, lemma_push_loop,
    no_loop_end, tree_tokens, well_formed, SyntaxTreeInst, Token, TreeView,
};
use crate::jit::{inst_step, inst_steps, parsed};

verus! {

/// A stream that never closes more loops than it opened and closes all of
/// them.
pub open spec fn balanced(s: Seq<SyntaxTreeInst>) -> bool {
    &&& depth(inst_steps(s), 0, s.len() as int) == 0
    &&& never_below_zero(inst_steps(s))
}

proof fn lemma_depth_prefix(a: Seq<SyntaxTreeInst>, b: Seq<SyntaxTreeInst>, k: int)
    requires
        0 <= k <= a.len(),
        k <= b.len(),
        forall|i: int| 0 <= i < k ==> a[i] == b[i],
    ensures
        depth(inst_steps(a), 0, k) == depth(inst_steps(b), 0, k),
    decreases k,
{
    if k > 0 {
        lemma_depth_prefix(a, b, k - 1);
        assert(inst_steps(a)[k - 1] == inst_steps(b)[k - 1]);
    }
}

proof fn lemma_depth_push(a: Seq<SyntaxTreeInst>, x: SyntaxTreeInst)
    ensures
        depth(inst_steps(a.push(x)), 0, a.len() + 1int) == depth(inst_steps(a), 0, a.len() as int)
            + inst_step(x),
        forall|k: int| 0 <= k <= a.len() ==> #[trigger] depth(inst_steps(a.push(x)), 0, k)
            == depth(inst_steps(a), 0, k),
{
    assert forall|k: int| 0 <= k <= a.len() implies #[trigger] depth(inst_steps(a.push(x)), 0, k)
        == depth(inst_steps(a), 0, k) by {
        lemma_depth_prefix(a.push(x), a, k);
    }
    assert(depth(inst_steps(a.push(x)), 0, a.len() as int) == depth(inst_steps(a), 0, a.len() as int));
    assert(inst_steps(a.push(x))[a.len() as int] == inst_step(x));
}

proof fn lemma_depth_concat(a: Seq<SyntaxTreeInst>, b: Seq<SyntaxTreeInst>, k: int)
    requires
        0 <= k <= b.len(),
    ensures
        depth(inst_steps(a + b), 0, a.len() + k) == depth(inst_steps(a), 0, a.len() as int)
            + depth(inst_steps(b), 0, k),
    decreases k,
{
    if k > 0 {
        lemma_depth_concat(a, b, k - 1);
        assert(inst_steps(a + b)[a.len() + k - 1] == inst_steps(b)[k - 1]);
    } else {
        lemma_depth_prefix(a + b, a, a.len() as int);
    }
}

/// Appending an instruction that neither opens nor closes a loop keeps a
/// stream balanced.
proof fn lemma_balanced_push(p: Seq<SyntaxTreeInst>, x: SyntaxTreeInst)
    requires
        balanced(p),
        inst_step(x) == 0,
    ensures
        balanced(p.push(x)),
{
    lemma_depth_push(p, x);
    let d = inst_steps(p.push(x));
    assert forall|k: int| 0 <= k <= d.len() implies #[trigger] depth(d, 0, k) >= 0 by {
        if k <= p.len() {
            assert(depth(inst_steps(p), 0, k) >= 0);
        }
    }
}

/// A loop around a balanced body, after a balanced stream, is balanced, and
/// its `LoopEnd` closes its `Loop`.
proof fn lemma_balanced_loop(p: Seq<SyntaxTreeInst>, c: Seq<SyntaxTreeInst>)
    requires
        balanced(p),
        balanced(c),
    ensures
        balanced(p + seq![SyntaxTreeInst::Loop] + c + seq![SyntaxTreeInst::LoopEnd]),
        closes(
            inst_steps(p + seq![SyntaxTreeInst::Loop] + c + seq![SyntaxTreeInst::LoopEnd]),
            p.len() as int,
            p.len() + c.len() + 1int,
        ),
{
    let s = p + seq![SyntaxTreeInst::Loop] + c + seq![SyntaxTreeInst::LoopEnd];
    let a = p.push(SyntaxTreeInst::Loop);
    let b = c.push(SyntaxTreeInst::LoopEnd);
    assert(s =~= a + b);
    let d = inst_steps(s);
    let pl = p.len() as int;
    lemma_depth_push(p, SyntaxTreeInst::Loop);
    lemma_depth_push(c, SyntaxTreeInst::LoopEnd);
    assert forall|k: int| 0 <= k <= a.len() implies #[trigger] depth(d, 0, k) == depth(
        inst_steps(a),
        0,
        k,
    ) by {
        lemma_depth_prefix(s, a, k);
    }
    assert forall|j: int| 0 <= j <= b.len() implies #[trigger] depth(d, 0, a.len() + j) == 1
        + depth(inst_steps(b), 0, j) by {
        lemma_depth_concat(a, b, j);
    }
    assert forall|k: int| 0 <= k <= d.len() implies #[trigger] depth(d, 0, k) >= 0 by {
        if k <= pl {
            assert(depth(inst_steps(p), 0, k) >= 0);
            assert(depth(d, 0, k) == depth(inst_steps(a), 0, k));
        } else if k == pl + 1 {
            assert(depth(d, 0, k) == depth(inst_steps(a), 0, k));
        } else {
            let j = k - a.len();
            assert(depth(d, 0, a.len() + j) == 1 + depth(inst_steps(b), 0, j));
            if j <= c.len() {
                assert(depth(inst_steps(c), 0, j) >= 0);
            }
        }
    }
    assert(depth(d, 0, a.len() + b.len() as int) == 1 + depth(inst_steps(b), 0, b.len() as int));
    assert(depth(d, 0, pl) == depth(inst_steps(a), 0, pl));
    assert forall|k: int| pl < k <= pl + c.len() + 1 implies #[trigger] depth(d, pl, k) > 0 by {
        lemma_depth_split(d, 0, pl, k);
        let j = k - a.len();
        assert(depth(d, 0, a.len() + j) == 1 + depth(inst_steps(b), 0, j));
        assert(depth(inst_steps(c), 0, j) >= 0);
    }
    lemma_depth_split(d, 0, pl, s.len() as int);
    assert(s[pl] == SyntaxTreeInst::Loop);
    assert(s[pl + c.len() + 1] == SyntaxTreeInst::LoopEnd);
}

/// A tree without its last instruction (and, when that is a `Loop`, without
/// the nested tree it owns).
pub open spec fn without_last(t: TreeView) -> TreeView {
    TreeView {
        instructions: t.instructions.drop_last(),
        loops: if t.instructions.last() == SyntaxTreeInst::Loop {
            t.loops.drop_last()
        } else {
            t.loops
        },
    }
}

/// The instruction stream of a tree ends with that of its last instruction.
proof fn lemma_without_last(t: TreeView)
    requires
        well_formed(t),
        t.instructions.len() > 0,
    ensures
        well_formed(without_last(t)),
        no_loop_end(t) ==> no_loop_end(without_last(t)),
        t.instructions.last() == SyntaxTreeInst::Loop ==> {
            &&& t.loops.len() > 0
            &&& well_formed(t.loops.last())
            &&& no_loop_end(t) ==> no_loop_end(t.loops.last())
            &&& tree_tokens(t) == tree_tokens(without_last(t)) + seq![SyntaxTreeInst::Loop]
                + tree_tokens(t.loops.last()) + seq![SyntaxTreeInst::LoopEnd]
        },
        t.instructions.last() != SyntaxTreeInst::Loop ==> tree_tokens(t) == tree_tokens(
            without_last(t),
        ).push(t.instructions.last()),
{
    let pre = without_last(t);
    let n = t.instructions.len() as int;
    let x = t.instructions.last();
    assert(pre.instructions == t.instructions.subrange(0, n - 1));
    lemma_loops_before_prefix(pre.instructions, t.instructions, n - 1);
    lemma_loops_before_monotone(t.instructions, 0, n - 1);
    assert(t.instructions[n - 1] == x);
    assert(loops_before(t.instructions, n) == loops_before(t.instructions, n - 1) + if x
        == SyntaxTreeInst::Loop {
        1int
    } else {
        0int
    });
    assert(pre.loops.len() <= t.loops.len());
    assert forall|i: int| 0 <= i < pre.loops.len() implies well_formed(#[trigger] pre.loops[i]) by {
        assert(pre.loops[i] == t.loops[i]);
    }
    if no_loop_end(t) {
        assert forall|i: int| 0 <= i < pre.instructions.len() implies #[trigger] pre.instructions[i]
            != SyntaxTreeInst::LoopEnd by {
            assert(pre.instructions[i] == t.instructions[i]);
        }
        assert forall|i: int| 0 <= i < pre.loops.len() implies no_loop_end(#[trigger] pre.loops[i]) by {
            assert(pre.loops[i] == t.loops[i]);
        }
    }
    assert(t.instructions =~= pre.instructions.push(x));
    if x == SyntaxTreeInst::Loop {
        let c = t.loops.last();
        assert(t.loops[t.loops.len() - 1] == c);
        assert(t.loops =~= pre.loops.push(c));
        assert(t == TreeView { instructions: pre.instructions.push(x), loops: pre.loops.push(c) });
        lemma_push_loop(pre, c);
    } else {
        assert(t == TreeView { instructions: pre.instructions.push(x), loops: pre.loops });
        lemma_push_inst(pre, x);
    }
}

/// The instruction stream of a tree without `LoopEnd` instructions is
/// balanced.
pub proof fn lemma_tree_balanced(t: TreeView)
    requires
        well_formed(t),
        no_loop_end(t),
    ensures
        balanced(tree_tokens(t)),
    decreases tree_tokens(t).len(),
{
    if t.instructions.len() == 0 {
        assert(tree_tokens(t) =~= Seq::<SyntaxTreeInst>::empty());
    } else {
        let pre = without_last(t);
        let x = t.instructions.last();
        lemma_without_last(t);
        lemma_tree_balanced(pre);
        assert(x == t.instructions[t.instructions.len() - 1]);
        if x == SyntaxTreeInst::Loop {
            lemma_tree_balanced(t.loops.last());
            lemma_balanced_loop(tree_tokens(pre), tree_tokens(t.loops.last()));
        } else {
            lemma_balanced_push(tree_tokens(pre), x);
        }
    }
}

/// A tree's instruction stream is empty exactly when it has no instruction.
proof fn lemma_tokens_empty(t: TreeView)
    requires
        well_formed(t),
    ensures
        (tree_tokens(t).len() == 0) == (t.instructions.len() == 0),
        t.instructions.len() == 0 ==> t.loops.len() == 0,
{
    if t.instructions.len() > 0 {
        lemma_without_last(t);
    }
}

/// Two trees without `LoopEnd` instructions that spell the same instruction
/// stream are the same tree.
pub proof fn law_tree_tokens_injective(t1: TreeView, t2: TreeView)
    requires
        well_formed(t1),
        well_formed(t2),
        no_loop_end(t1),
        no_loop_end(t2),
        tree_tokens(t1) == tree_tokens(t2),
    ensures
        t1 == t2,
    decreases tree_tokens(t1).len(),
{
    let s = tree_tokens(t1);
    lemma_tokens_empty(t1);
    lemma_tokens_empty(t2);
    if t1.instructions.len() == 0 {
        assert(t1.instructions =~= t2.instructions);
        assert(t1.loops =~= t2.loops);
    } else {
        let p1 = without_last(t1);
        let p2 = without_last(t2);
        let x1 = t1.instructions.last();
        let x2 = t2.instructions.last();
        lemma_without_last(t1);
        lemma_without_last(t2);
        assert(x1 == t1.instructions[t1.instructions.len() - 1]);
        assert(x2 == t2.instructions[t2.instructions.len() - 1]);
        if x1 != SyntaxTreeInst::Loop || x2 != SyntaxTreeInst::Loop {
            if x1 == SyntaxTreeInst::Loop {
                assert(s.last() == SyntaxTreeInst::LoopEnd);
                assert(s.last() == x2);
            } else if x2 == SyntaxTreeInst::Loop {
                assert(s.last() == SyntaxTreeInst::LoopEnd);
                assert(s.last() == x1);
            }
            assert(s.last() == x1 && s.last() == x2);
            assert(tree_tokens(p1) =~= s.drop_last());
            assert(tree_tokens(p2) =~= s.drop_last());
            law_tree_tokens_injective(p1, p2);
        } else {
            let c1 = t1.loops.last();
            let c2 = t2.loops.last();
            let q1 = tree_tokens(p1);
            let q2 = tree_tokens(p2);
            lemma_tree_balanced(p1);
            lemma_tree_balanced(p2);
            lemma_tree_balanced(c1);
            lemma_tree_balanced(c2);
            lemma_balanced_loop(q1, tree_tokens(c1));
            lemma_balanced_loop(q2, tree_tokens(c2));
            lemma_opener_unique(inst_steps(s), q1.len() as int, q2.len() as int, s.len() - 1);
            assert(q1 =~= s.take(q1.len() as int));
            assert(q2 =~= s.take(q2.len() as int));
            assert(tree_tokens(c1) =~= s.subrange(q1.len() + 1int, s.len() - 1));
            assert(tree_tokens(c2) =~= s.subrange(q2.len() + 1int, s.len() - 1));
            law_tree_tokens_injective(p1, p2);
            law_tree_tokens_injective(c1, c2);
            assert(t1.loops =~= p1.loops.push(c1));
            assert(t2.loops =~= p2.loops.push(c2));
        }
        assert(t1.instructions =~= p1.instructions.push(x1));
        assert(t2.instructions =~= p2.instructions.push(x2));
        assert(t1.instructions =~= t2.instructions);
        assert(t1.loops =~= t2.loops);
    }
}

/// A token stream has at most one syntax tree: `build_ast`'s result is
/// determined by its input.
pub proof fn law_parse_unique(ts: Seq<Token>, t1: TreeView, t2: TreeView)
    requires
        parsed(ts, t1),
        parsed(ts, t2),
    ensures
        t1 == t2,
{
    if exists|e: int| block_closed(ts, 0, e, t1) {
        let e1 = choose|e: int| block_closed(ts, 0, e, t1);
        if exists|e: int| block_closed(ts, 0, e, t2) {
            let e2 = choose|e: int| block_closed(ts, 0, e, t2);
            assert(e1 == e2) by {
                if e1 < e2 {
                    assert(block_closed(ts, 0, e2, t2));
                    assert(block_closed(ts, 0, e1, t1));
                } else if e2 < e1 {
                    assert(block_closed(ts, 0, e2, t2));
                    assert(block_closed(ts, 0, e1, t1));
                }
            }
        } else {
            assert(block_open(ts, 0, t2));
            assert(block_closed(ts, 0, e1, t1));
        }
    } else if exists|e: int| block_closed(ts, 0, e, t2) {
        let e2 = choose|e: int| block_closed(ts, 0, e, t2);
        assert(block_open(ts, 0, t1));
        assert(block_closed(ts, 0, e2, t2));
    }
    law_tree_tokens_injective(t1, t2);
}

} // verus!
