//! Replaces loops that only add to cells around a fixed tape position by
//! relative additions followed by clearing the current cell.
use std::collections::HashMap;
use vstd::prelude::*;
use crate::jit::ast::{
    lemma_loops_before_concat, lemma_tree_views_len, loops_before, no_loop_end, tree_views, well_formed,
    SyntaxTree, SyntaxTreeInst, TreeView,
};

verus! {

broadcast use vstd::std_specs::hash::group_hash_axioms;

/// An instruction that only moves the tape index or adds to a cell.
pub open spec fn is_linear(i: SyntaxTreeInst) -> bool {
    match i {
        SyntaxTreeInst::Shiftup(_) | SyntaxTreeInst::ShiftDown(_) | SyntaxTreeInst::Add(_)
        | SyntaxTreeInst::Sub(_) => true,
        _ => false,
    }
}

/// The position of the first instruction of `b` that is not linear, or its
/// length.
pub open spec fn linear_prefix(b: Seq<SyntaxTreeInst>, n: int) -> bool {
    forall|j: int| 0 <= j < n ==> is_linear(#[trigger] b[j])
}

/// The tape offset, relative to the loop's start and modulo 2^16, after the
/// first `n` instructions of a loop body.
pub open spec fn shift_upto(b: Seq<SyntaxTreeInst>, n: int) -> i16
    decreases n,
{
    if n <= 0 {
        0
    } else {
        let s = shift_upto(b, n - 1);
        match b[n - 1] {
            SyntaxTreeInst::Shiftup(i) => vstd::wrapping::i16_specs::wrapping_add(s, i as i16),
            SyntaxTreeInst::ShiftDown(i) => vstd::wrapping::i16_specs::wrapping_sub(s, i as i16),
            _ => s,
        }
    }
}

/// The change that the first `n` instructions of a loop body make to each
/// offset they touch, modulo 256.
pub open spec fn changes_upto(b: Seq<SyntaxTreeInst>, n: int) -> Map<i16, i8>
    decreases n,
{
    if n <= 0 {
        Map::empty()
    } else {
        let m = changes_upto(b, n - 1);
        let o = shift_upto(b, n - 1);
        match b[n - 1] {
            SyntaxTreeInst::Add(i) => if m.contains_key(o) {
                m.insert(o, vstd::wrapping::i8_specs::wrapping_add(m[o], i as i8))
            } else {
                m.insert(o, i as i8)
            },
            SyntaxTreeInst::Sub(i) => if m.contains_key(o) {
                m.insert(o, vstd::wrapping::i8_specs::wrapping_sub(m[o], i as i8))
            } else {
                m.insert(o, vstd::wrapping::i8_specs::wrapping_sub(0i8, i as i8))
            },
            _ => m,
        }
    }
}

/// The offsets that the first `n` instructions of a loop body touch, in the
/// order they are first touched.
pub open spec fn touched_upto(b: Seq<SyntaxTreeInst>, n: int) -> Seq<i16>
    decreases n,
{
    if n <= 0 {
        Seq::empty()
    } else {
        let t = touched_upto(b, n - 1);
        let o = shift_upto(b, n - 1);
        match b[n - 1] {
            SyntaxTreeInst::Add(_) | SyntaxTreeInst::Sub(_) => if changes_upto(b, n - 1).contains_key(
                o,
            ) {
                t
            } else {
                t.push(o)
            },
            _ => t,
        }
    }
}

/// The body can be replaced: it only moves and adds, and it ends where it
/// started.
pub open spec fn replaceable(b: Seq<SyntaxTreeInst>) -> bool {
    linear_prefix(b, b.len() as int) && shift_upto(b, b.len() as int) == 0
}

/// What replaces a loop with body `b`: nothing when it cannot be replaced or
/// never changes the cell it starts on; otherwise, for each touched offset
/// other than 0 in the order first touched, a relative addition of that
/// offset's change times the change of offset 0, then clearing the current
/// cell.
pub open spec fn loop_replacement(b: Seq<SyntaxTreeInst>) -> Seq<SyntaxTreeInst> {
    if !replaceable(b) || !changes_upto(b, b.len() as int).contains_key(0) {
        Seq::empty()
    } else {
        relative_adds(touched_upto(b, b.len() as int), changes_upto(b, b.len() as int)).push(
            SyntaxTreeInst::Clear,
        )
    }
}

/// For each offset of `keys` other than 0, in order, the relative addition
/// of `m` at that offset times `m` at 0.
pub open spec fn relative_adds(keys: Seq<i16>, m: Map<i16, i8>) -> Seq<SyntaxTreeInst>
    decreases keys.len(),
{
    if keys.len() == 0 {
        Seq::empty()
    } else {
        let o = keys.last();
        relative_adds(keys.drop_last(), m) + if o != 0 {
            seq![SyntaxTreeInst::AddRelative(o, m[o], m[0])]
        } else {
            Seq::empty()
        }
    }
}

/// What replaces a loop whose body is `ast.instructions` (see
/// `loop_replacement`; empty when the loop must stay).
fn optimise_loop(ast: &SyntaxTree) -> (r: Vec<SyntaxTreeInst>)
    ensures
        r@ == loop_replacement(ast.instructions@),
{
    let ghost b = ast.instructions@;
    let mut final_change: i16 = 0;
    let mut relative_array_changes: HashMap<i16, i8> = HashMap::new();
    // the offsets in the order they are first changed
    let mut touched: Vec<i16> = Vec::new();
    for idx in 0..ast.instructions.len()
        invariant
            b == ast.instructions@,
            linear_prefix(b, idx as int),
            final_change == shift_upto(b, idx as int),
            relative_array_changes@ == changes_upto(b, idx as int),
            touched@ == touched_upto(b, idx as int),
            forall|j: int| 0 <= j < touched@.len() ==> relative_array_changes@.contains_key(#[trigger] touched@[j]),
    {
        let inst = ast.instructions[idx];
        match inst {
            SyntaxTreeInst::Shiftup(i) => final_change = final_change.wrapping_add(i as i16),
            SyntaxTreeInst::ShiftDown(i) => final_change = final_change.wrapping_sub(i as i16),
            SyntaxTreeInst::Add(i) => {
                match relative_array_changes.get(&final_change) {
                    Some(x) => {
                        let v = x.wrapping_add(i as i8);
                        relative_array_changes.insert(final_change, v);
                    },
                    None => {
                        relative_array_changes.insert(final_change, i as i8);
                        touched.push(final_change);
                    },
                }
            },
            SyntaxTreeInst::Sub(i) => {
                match relative_array_changes.get(&final_change) {
                    Some(x) => {
                        let v = x.wrapping_sub(i as i8);
                        relative_array_changes.insert(final_change, v);
                    },
                    None => {
                        let v = 0i8.wrapping_sub(i as i8);
                        relative_array_changes.insert(final_change, v);
                        touched.push(final_change);
                    },
                }
            },
            // anything that prints, reads or loops stays as it is
            _ => {
                proof {
                    assert(!replaceable(b));
                }
                return Vec::new();
            },
        }
        proof {
            assert(linear_prefix(b, idx + 1));
        }
    }
    proof {
        assert(b.take(b.len() as int) =~= b);
    }
    if final_change != 0 {
        return Vec::new();
    }
    let mut new_insts: Vec<SyntaxTreeInst> = Vec::new();
    let start_change_ratio = match relative_array_changes.get(&0) {
        Some(x) => *x,
        None => {
            return Vec::new();
        },
    };
    for j in 0..touched.len()
        invariant
            b == ast.instructions@,
            replaceable(b),
            relative_array_changes@ == changes_upto(b, b.len() as int),
            touched@ == touched_upto(b, b.len() as int),
            forall|k: int| 0 <= k < touched@.len() ==> relative_array_changes@.contains_key(#[trigger] touched@[k]),
            relative_array_changes@.contains_key(0),
            start_change_ratio == relative_array_changes@[0],
            new_insts@ == relative_adds(touched@.take(j as int), relative_array_changes@),
    {
        let offset = touched[j];
        proof {
            assert(touched@.take(j + 1).drop_last() =~= touched@.take(j as int));
        }
        if offset != 0 {
            let change_ratio = *relative_array_changes.get(&offset).unwrap();
            new_insts.push(SyntaxTreeInst::AddRelative(offset, change_ratio, start_change_ratio));
        }
        proof {
            assert(new_insts@ =~= relative_adds(touched@.take(j + 1), relative_array_changes@));
        }
    }
    proof {
        assert(touched@.take(touched@.len() as int) =~= touched@);
    }
    new_insts.push(SyntaxTreeInst::Clear);
    new_insts
}


/// Where optimising the first `n` instructions of a tree stands: the new
/// instructions, the nested trees and the index of the next nested tree.
pub struct OptState {
    pub insts: Seq<SyntaxTreeInst>,
    pub loops: Seq<TreeView>,
    pub count: int,
}

/// Optimising the first `n` instructions of `t`. Each `Loop` is looked at in
/// turn: a nested tree that has loops of its own is optimised first; if it
/// still has loops, or its body cannot be replaced, the `Loop` stays and owns
/// the (optimised) tree; otherwise the `Loop` gives way to the replacement and
/// its tree is dropped.
pub open spec fn opt_upto(t: TreeView, n: int) -> OptState
    decreases t, n,
{
    if n <= 0 || n > t.instructions.len() {
        OptState { insts: Seq::empty(), loops: t.loops, count: 0 }
    } else {
        let st = opt_upto(t, n - 1);
        let inst = t.instructions[n - 1];
        let k = loops_before(t.instructions, n - 1);
        if inst != SyntaxTreeInst::Loop {
            OptState { insts: st.insts.push(inst), ..st }
        } else if !(0 <= k < t.loops.len()) {
            st
        } else {
            let sub = t.loops[k];
            let sub2 = if sub.loops.len() > 0 {
                optimised(sub)
            } else {
                sub
            };
            let r = loop_replacement(sub2.instructions);
            if sub2.loops.len() > 0 || r.len() == 0 {
                OptState {
                    insts: st.insts.push(SyntaxTreeInst::Loop),
                    loops: st.loops.update(st.count, sub2),
                    count: st.count + 1,
                }
            } else {
                OptState { insts: st.insts + r, loops: st.loops.remove(st.count), count: st.count }
            }
        }
    }
}

/// The optimised tree.
pub open spec fn optimised(t: TreeView) -> TreeView
    decreases t, t.instructions.len() + 1,
{
    let st = opt_upto(t, t.instructions.len() as int);
    TreeView { instructions: st.insts, loops: st.loops }
}

/// Optimising the first `n` instructions of `t` does not fail: every `Loop`
/// has its nested tree, and nested trees with loops can be optimised.
pub open spec fn opt_ok_upto(t: TreeView, n: int) -> bool
    decreases t, n,
{
    if n <= 0 || n > t.instructions.len() {
        true
    } else {
        let k = loops_before(t.instructions, n - 1);
        &&& opt_ok_upto(t, n - 1)
        &&& t.instructions[n - 1] == SyntaxTreeInst::Loop ==> {
            &&& 0 <= k < t.loops.len()
            &&& t.loops[k].loops.len() > 0 ==> optimisable(t.loops[k])
        }
    }
}

/// Optimising `t` does not fail.
pub open spec fn optimisable(t: TreeView) -> bool
    decreases t, t.instructions.len() + 1,
{
    opt_ok_upto(t, t.instructions.len() as int)
}

/// A well-formed tree can always be optimised.
pub proof fn lemma_wf_optimisable(t: TreeView)
    requires
        well_formed(t),
    ensures
        optimisable(t),
    decreases t, t.instructions.len() + 1,
{
    lemma_wf_opt_ok_upto(t, t.instructions.len() as int);
}

proof fn lemma_wf_opt_ok_upto(t: TreeView, n: int)
    requires
        well_formed(t),
        0 <= n <= t.instructions.len(),
    ensures
        opt_ok_upto(t, n),
    decreases t, n,
{
    if n > 0 {
        lemma_wf_opt_ok_upto(t, n - 1);
        let k = loops_before(t.instructions, n - 1);
        if t.instructions[n - 1] == SyntaxTreeInst::Loop {
            crate::jit::ast::lemma_loops_before_monotone(t.instructions, n - 1, t.instructions.len() as int);
            crate::jit::ast::lemma_loops_before_monotone(t.instructions, 0, n - 1);
            assert(well_formed(t.loops[k]));
            lemma_wf_optimisable(t.loops[k]);
        }
    }
}

proof fn lemma_opt_ok_prefix(t: TreeView, m: int, n: int)
    requires
        0 <= m <= n <= t.instructions.len(),
        opt_ok_upto(t, n),
    ensures
        opt_ok_upto(t, m),
    decreases n - m,
{
    if m < n {
        lemma_opt_ok_prefix(t, m, n - 1);
    }
}

proof fn lemma_views_update(ls: Seq<SyntaxTree>, c: int, x: SyntaxTree)
    requires
        0 <= c < ls.len(),
    ensures
        tree_views(ls.update(c, x), ls.len() as int) == tree_views(ls, ls.len() as int).update(
            c,
            x.view_tree(),
        ),
{
    lemma_tree_views_len(ls.update(c, x), ls.len() as int);
    lemma_tree_views_len(ls, ls.len() as int);
    assert(tree_views(ls.update(c, x), ls.len() as int) =~= tree_views(ls, ls.len() as int).update(
        c,
        x.view_tree(),
    ));
}

proof fn lemma_views_remove(ls: Seq<SyntaxTree>, c: int)
    requires
        0 <= c < ls.len(),
    ensures
        tree_views(ls.remove(c), ls.len() - 1) == tree_views(ls, ls.len() as int).remove(c),
{
    lemma_tree_views_len(ls.remove(c), ls.len() - 1);
    lemma_tree_views_len(ls, ls.len() as int);
    assert(tree_views(ls.remove(c), ls.len() - 1) =~= tree_views(ls, ls.len() as int).remove(c));
}

proof fn lemma_tail_keep(ls0: Seq<SyntaxTree>, ls1: Seq<SyntaxTree>, c: int, tl: Seq<TreeView>, k: int)
    requires
        0 <= c < ls0.len(),
        ls1.len() == ls0.len(),
        forall|j: int| 0 <= j < ls0.len() && j != c ==> ls1[j] == ls0[j],
        forall|j: int| c <= j < ls0.len() ==> (#[trigger] ls0[j]).view_tree() == tl[k + j - c],
    ensures
        forall|j: int| c + 1 <= j < ls1.len() ==> (#[trigger] ls1[j]).view_tree() == tl[(k + 1) + j - (c + 1)],
{
    assert forall|j: int| c + 1 <= j < ls1.len() implies (#[trigger] ls1[j]).view_tree() == tl[(k
        + 1) + j - (c + 1)] by {
        assert(ls1[j] == ls0[j]);
    }
}

proof fn lemma_tail_drop(ls0: Seq<SyntaxTree>, c: int, tl: Seq<TreeView>, k: int)
    requires
        0 <= c < ls0.len(),
        forall|j: int| c + 1 <= j < ls0.len() ==> (#[trigger] ls0[j]).view_tree() == tl[(k + 1) + j - (c + 1)],
    ensures
        forall|j: int|
            c <= j < ls0.len() - 1 ==> (#[trigger] ls0.remove(c)[j]).view_tree() == tl[(k + 1) + j - c],
{
    assert forall|j: int| c <= j < ls0.len() - 1 implies (#[trigger] ls0.remove(c)[j]).view_tree()
        == tl[(k + 1) + j - c] by {
        assert(ls0.remove(c)[j] == ls0[j + 1]);
    }
}

/// Optimises `ast` in place; `false` when optimising fails (see
/// `optimisable`), in which case `ast` may be left half done.
#[verifier::rlimit(50)]
fn optimise_recursive(ast: &mut SyntaxTree) -> (ok: bool)
    ensures
        ok == optimisable(old(ast).view_tree()),
        ok ==> final(ast).view_tree() == optimised(old(ast).view_tree()),
    decreases old(ast).view_tree(),
{
    let ghost t = ast.view_tree();
    let ghost nt = t.instructions.len() as int;
    let mut loops_count: usize = 0;
    let mut new_instructions: Vec<SyntaxTreeInst> = Vec::new();
    proof {
        lemma_tree_views_len(ast.loops@, ast.loops@.len() as int);
    }
    let count = ast.instructions.len();
    for idx in 0..count
        invariant
            t == old(ast).view_tree(),
            nt == t.instructions.len(),
            count == nt,
            ast.instructions@ == t.instructions,
            opt_ok_upto(t, idx as int),
            new_instructions@ == opt_upto(t, idx as int).insts,
            tree_views(ast.loops@, ast.loops@.len() as int) == opt_upto(t, idx as int).loops,
            loops_count == opt_upto(t, idx as int).count,
            loops_count <= ast.loops.len(),
            0 <= loops_before(t.instructions, idx as int) <= t.loops.len(),
            ast.loops.len() - loops_count == t.loops.len() - loops_before(t.instructions, idx as int),
            forall|j: int|
                loops_count <= j < ast.loops.len() ==> (#[trigger] ast.loops@[j]).view_tree()
                    == t.loops[loops_before(t.instructions, idx as int) + j - loops_count],
    {
        let ghost i = idx as int;
        let ghost st = opt_upto(t, i);
        let ghost k = loops_before(t.instructions, i);
        let ghost ls0 = ast.loops@;
        proof {
            lemma_tree_views_len(ast.loops@, ast.loops@.len() as int);
        }
        let inst = ast.instructions[idx];
        if inst != SyntaxTreeInst::Loop {
            new_instructions.push(inst);
        } else {
            if loops_count >= ast.loops.len() {
                proof {
                    if opt_ok_upto(t, nt) {
                        lemma_opt_ok_prefix(t, i + 1, nt);
                    }
                }
                return false;
            }
            let ghost c = loops_count as int;
            let ghost sub = t.loops[k];
            assert(ls0[c].view_tree() == sub);
            loops_count += 1;
            let sub_ast = &mut ast.loops[loops_count - 1];
            if !sub_ast.loops.is_empty() {
                if !optimise_recursive(sub_ast) {
                    proof {
                        if opt_ok_upto(t, nt) {
                            lemma_opt_ok_prefix(t, i + 1, nt);
                        }
                    }
                    return false;
                }
            }
            let ghost ls1 = ast.loops@;
            let ghost sub2 = ls1[c].view_tree();
            proof {
                assert(sub2 == if sub.loops.len() > 0 {
                    optimised(sub)
                } else {
                    sub
                });
                lemma_views_update(ls0, c, ls1[c]);
                assert(ls1 == ls0.update(c, ls1[c]));
                lemma_tail_keep(ls0, ls1, c, t.loops, k);
            }
            if !ast.loops[loops_count - 1].loops.is_empty() {
                new_instructions.push(inst);
            } else {
                let possible_optimisations = optimise_loop(&ast.loops[loops_count - 1]);
                if possible_optimisations.is_empty() {
                    new_instructions.push(inst);
                } else {
                    let mut extra = possible_optimisations;
                    new_instructions.append(&mut extra);
                    ast.loops.remove(loops_count - 1);
                    loops_count -= 1;
                    proof {
                        lemma_views_remove(ls1, c);
                        lemma_tail_drop(ls1, c, t.loops, k);
                        assert(st.loops.update(c, sub2).remove(c) =~= st.loops.remove(c));
                    }
                }
            }
        }
    }
    ast.instructions = new_instructions;
    true
}

proof fn lemma_relative_adds_no_loops(keys: Seq<i16>, m: Map<i16, i8>)
    ensures
        forall|j: int|
            0 <= j < relative_adds(keys, m).len() ==> #[trigger] relative_adds(keys, m)[j]
                != SyntaxTreeInst::Loop && relative_adds(keys, m)[j] != SyntaxTreeInst::LoopEnd,
    decreases keys.len(),
{
    if keys.len() > 0 {
        lemma_relative_adds_no_loops(keys.drop_last(), m);
    }
}

proof fn lemma_no_loops_count(r: Seq<SyntaxTreeInst>, n: int)
    requires
        0 <= n <= r.len(),
        forall|j: int| 0 <= j < r.len() ==> #[trigger] r[j] != SyntaxTreeInst::Loop,
    ensures
        loops_before(r, n) == 0,
    decreases n,
{
    if n > 0 {
        lemma_no_loops_count(r, n - 1);
    }
}

proof fn lemma_replacement_no_loops(b: Seq<SyntaxTreeInst>)
    ensures
        loops_before(loop_replacement(b), loop_replacement(b).len() as int) == 0,
        forall|j: int|
            0 <= j < loop_replacement(b).len() ==> #[trigger] loop_replacement(b)[j]
                != SyntaxTreeInst::LoopEnd,
{
    let r = loop_replacement(b);
    if replaceable(b) {
        let ks = touched_upto(b, b.len() as int);
        let m = changes_upto(b, b.len() as int);
        lemma_relative_adds_no_loops(ks, m);
        assert forall|j: int| 0 <= j < r.len() implies #[trigger] r[j] != SyntaxTreeInst::Loop && r[j]
            != SyntaxTreeInst::LoopEnd by {
            if j < relative_adds(ks, m).len() {
                assert(r[j] == relative_adds(ks, m)[j]);
            }
        }
    }
    lemma_no_loops_count(r, r.len() as int);
}

#[verifier::spinoff_prover]
#[verifier::rlimit(60)]
proof fn lemma_opt_upto_wf(t: TreeView, n: int)
    requires
        well_formed(t),
        0 <= n <= t.instructions.len(),
        opt_ok_upto(t, n),
    ensures
        ({
            let st = opt_upto(t, n);
            &&& loops_before(st.insts, st.insts.len() as int) == st.count
            &&& 0 <= st.count <= st.loops.len()
            &&& st.loops.len() - st.count == t.loops.len() - loops_before(t.instructions, n)
            &&& forall|j: int| 0 <= j < st.count ==> well_formed(#[trigger] st.loops[j])
            &&& forall|j: int|
                st.count <= j < st.loops.len() ==> #[trigger] st.loops[j] == t.loops[loops_before(
                    t.instructions,
                    n,
                ) + j - st.count]
        }),
    decreases t, n,
{
    crate::jit::ast::lemma_loops_before_monotone(t.instructions, 0, n);
    crate::jit::ast::lemma_loops_before_monotone(t.instructions, n, t.instructions.len() as int);
    if n > 0 {
        lemma_opt_upto_wf(t, n - 1);
        let st = opt_upto(t, n - 1);
        let inst = t.instructions[n - 1];
        let k = loops_before(t.instructions, n - 1);
        crate::jit::ast::lemma_loops_before_monotone(t.instructions, n - 1, t.instructions.len() as int);
        crate::jit::ast::lemma_loops_before_monotone(t.instructions, 0, n - 1);
        if inst != SyntaxTreeInst::Loop {
            lemma_loops_before_concat(st.insts, seq![inst], 1);
            assert(st.insts + seq![inst] == st.insts.push(inst));
            assert(loops_before(t.instructions, n) == k);
            assert(loops_before(seq![inst], 0) == 0);
            assert(loops_before(seq![inst], 1) == 0);
            assert(opt_upto(t, n).insts == st.insts.push(inst));
            assert(loops_before(opt_upto(t, n).insts, opt_upto(t, n).insts.len() as int) == st.count);
        } else {
            let sub = t.loops[k];
            assert(well_formed(sub));
            if sub.loops.len() > 0 {
                lemma_opt_wf(sub);
            }
            let sub2 = if sub.loops.len() > 0 {
                optimised(sub)
            } else {
                sub
            };
            let r = loop_replacement(sub2.instructions);
            if sub2.loops.len() > 0 || r.len() == 0 {
                lemma_loops_before_concat(st.insts, seq![SyntaxTreeInst::Loop], 1);
                assert(st.insts + seq![SyntaxTreeInst::Loop] == st.insts.push(SyntaxTreeInst::Loop));
                assert(st.loops[st.count] == sub);
                assert(loops_before(seq![SyntaxTreeInst::Loop], 0) == 0);
                assert(loops_before(seq![SyntaxTreeInst::Loop], 1) == 1);
                let ns = opt_upto(t, n);
                assert(ns.insts == st.insts.push(SyntaxTreeInst::Loop));
                assert(loops_before(ns.insts, ns.insts.len() as int) == ns.count);
                assert(ns.loops == st.loops.update(st.count, sub2));
                assert(well_formed(sub2));
                assert forall|j: int| 0 <= j < ns.count implies well_formed(#[trigger] ns.loops[j]) by {
                    if j < st.count {
                        assert(ns.loops[j] == st.loops[j]);
                    }
                }
                assert forall|j: int| ns.count <= j < ns.loops.len() implies #[trigger] ns.loops[j] == t.loops[loops_before(
                    t.instructions,
                    n,
                ) + j - ns.count] by {
                    assert(ns.loops[j] == st.loops[j]);
                }
            } else {
                lemma_replacement_no_loops(sub2.instructions);
                lemma_loops_before_concat(st.insts, r, r.len() as int);
                let nl = st.loops.remove(st.count);
                let ns = opt_upto(t, n);
                assert(ns.loops == nl);
                assert(ns.insts == st.insts + r);
                assert(loops_before(ns.insts, ns.insts.len() as int) == ns.count);
                assert forall|j: int| 0 <= j < ns.count implies well_formed(#[trigger] ns.loops[j]) by {
                    assert(ns.loops[j] == st.loops[j]);
                }
                assert forall|j: int| st.count <= j < nl.len() implies #[trigger] nl[j] == t.loops[loops_before(
                    t.instructions,
                    n,
                ) + j - st.count] by {
                    assert(nl[j] == st.loops[j + 1]);
                }
            }
        }
    }
    let ns = opt_upto(t, n);
    assert(loops_before(ns.insts, ns.insts.len() as int) == ns.count);
    assert(0 <= ns.count <= ns.loops.len());
    assert(ns.loops.len() - ns.count == t.loops.len() - loops_before(t.instructions, n));
}

/// Optimising a well-formed tree gives a well-formed tree.
pub proof fn lemma_opt_wf(t: TreeView)
    requires
        well_formed(t),
        optimisable(t),
    ensures
        well_formed(optimised(t)),
    decreases t, t.instructions.len() + 1,
{
    lemma_opt_upto_wf(t, t.instructions.len() as int);
    let st = opt_upto(t, t.instructions.len() as int);
    assert forall|j: int| 0 <= j < st.loops.len() implies well_formed(#[trigger] st.loops[j]) by {}
}

/// Optimising the first `n` instructions of a tree without `LoopEnd`
/// instructions introduces none.
proof fn lemma_opt_upto_no_loop_end(t: TreeView, n: int)
    requires
        well_formed(t),
        no_loop_end(t),
        0 <= n <= t.instructions.len(),
        opt_ok_upto(t, n),
    ensures
        forall|j: int|
            0 <= j < opt_upto(t, n).insts.len() ==> #[trigger] opt_upto(t, n).insts[j]
                != SyntaxTreeInst::LoopEnd,
        forall|j: int| 0 <= j < opt_upto(t, n).loops.len() ==> no_loop_end(#[trigger] opt_upto(t, n).loops[j]),
    decreases t, n,
{
    if n > 0 {
        lemma_opt_upto_no_loop_end(t, n - 1);
        let st = opt_upto(t, n - 1);
        let ns = opt_upto(t, n);
        let inst = t.instructions[n - 1];
        let k = loops_before(t.instructions, n - 1);
        if inst != SyntaxTreeInst::Loop {
            assert(ns.insts == st.insts.push(inst));
            assert forall|j: int| 0 <= j < ns.insts.len() implies #[trigger] ns.insts[j]
                != SyntaxTreeInst::LoopEnd by {
                if j < st.insts.len() {
                    assert(ns.insts[j] == st.insts[j]);
                }
            }
        } else if 0 <= k < t.loops.len() {
            let sub = t.loops[k];
            lemma_opt_upto_wf(t, n - 1);
            assert(st.count < st.loops.len());
            assert(well_formed(sub) && no_loop_end(sub));
            if sub.loops.len() > 0 {
                lemma_opt_no_loop_end(sub);
            }
            let sub2 = if sub.loops.len() > 0 {
                optimised(sub)
            } else {
                sub
            };
            let r = loop_replacement(sub2.instructions);
            if sub2.loops.len() > 0 || r.len() == 0 {
                assert(ns.insts == st.insts.push(SyntaxTreeInst::Loop));
                assert forall|j: int| 0 <= j < ns.insts.len() implies #[trigger] ns.insts[j]
                    != SyntaxTreeInst::LoopEnd by {
                    if j < st.insts.len() {
                        assert(ns.insts[j] == st.insts[j]);
                    }
                }
                assert(ns.loops == st.loops.update(st.count, sub2));
                assert forall|j: int| 0 <= j < ns.loops.len() implies no_loop_end(#[trigger] ns.loops[j]) by {
                    if j != st.count {
                        assert(ns.loops[j] == st.loops[j]);
                    } else {
                        assert(ns.loops[j] == sub2);
                    }
                }
            } else {
                lemma_replacement_no_loops(sub2.instructions);
                assert(ns.insts == st.insts + r);
                assert(ns.loops == st.loops.remove(st.count));
                assert forall|j: int| 0 <= j < ns.insts.len() implies #[trigger] ns.insts[j]
                    != SyntaxTreeInst::LoopEnd by {
                    if j < st.insts.len() {
                        assert(ns.insts[j] == st.insts[j]);
                    } else {
                        assert(ns.insts[j] == r[j - st.insts.len()]);
                    }
                }
                assert forall|j: int| 0 <= j < ns.loops.len() implies no_loop_end(#[trigger] ns.loops[j]) by {
                    if j < st.count {
                        assert(ns.loops[j] == st.loops[j]);
                    } else {
                        assert(ns.loops[j] == st.loops[j + 1]);
                    }
                }
            }
        }
    } else {
        assert forall|j: int| 0 <= j < opt_upto(t, n).loops.len() implies no_loop_end(
            #[trigger] opt_upto(t, n).loops[j],
        ) by {
            assert(opt_upto(t, n).loops[j] == t.loops[j]);
        }
    }
}

/// Optimising a tree without `LoopEnd` instructions gives one without them.
pub proof fn lemma_opt_no_loop_end(t: TreeView)
    requires
        well_formed(t),
        no_loop_end(t),
        optimisable(t),
    ensures
        no_loop_end(optimised(t)),
    decreases t, t.instructions.len() + 1,
{
    lemma_opt_upto_no_loop_end(t, t.instructions.len() as int);
    let st = opt_upto(t, t.instructions.len() as int);
    assert forall|j: int| 0 <= j < optimised(t).instructions.len() implies #[trigger] optimised(
        t,
    ).instructions[j] != SyntaxTreeInst::LoopEnd by {
        assert(optimised(t).instructions[j] == st.insts[j]);
    }
    assert forall|j: int| 0 <= j < optimised(t).loops.len() implies no_loop_end(
        #[trigger] optimised(t).loops[j],
    ) by {
        assert(optimised(t).loops[j] == st.loops[j]);
    }
}

/// Optimises a syntax tree in place (see `optimised`).
pub fn optimise(ast: &mut SyntaxTree)
    requires
        optimisable(old(ast).view_tree()),
    ensures
        final(ast).view_tree() == optimised(old(ast).view_tree()),
{
    optimise_recursive(ast);
}

/// Optimises a syntax tree in place when that does not fail; says whether
/// it did. On `false` the tree may be left half done.
pub fn try_optimise(ast: &mut SyntaxTree) -> (ok: bool)
    ensures
        ok == optimisable(old(ast).view_tree()),
        ok ==> final(ast).view_tree() == optimised(old(ast).view_tree()),
{
    optimise_recursive(ast)
}

/// Every nested tree, at every level, is one that optimising leaves alone:
/// it still has loops of its own, or its body cannot be replaced.
pub open spec fn settled(t: TreeView) -> bool
    decreases t,
{
    &&& well_formed(t)
    &&& forall|j: int|
        0 <= j < t.loops.len() ==> settled(#[trigger] t.loops[j]) && (t.loops[j].loops.len() > 0
            || loop_replacement(t.loops[j].instructions).len() == 0)
}

proof fn lemma_settled_upto(t: TreeView, n: int)
    requires
        settled(t),
        0 <= n <= t.instructions.len(),
    ensures
        opt_upto(t, n).insts == t.instructions.take(n),
        opt_upto(t, n).loops == t.loops,
        opt_upto(t, n).count == loops_before(t.instructions, n),
    decreases t, n,
{
    if n > 0 {
        lemma_settled_upto(t, n - 1);
        let st = opt_upto(t, n - 1);
        let k = loops_before(t.instructions, n - 1);
        assert(t.instructions.take(n) =~= t.instructions.take(n - 1).push(t.instructions[n - 1]));
        if t.instructions[n - 1] == SyntaxTreeInst::Loop {
            crate::jit::ast::lemma_loops_before_monotone(t.instructions, n - 1, t.instructions.len() as int);
            crate::jit::ast::lemma_loops_before_monotone(t.instructions, 0, n - 1);
            let sub = t.loops[k];
            assert(settled(sub));
            if sub.loops.len() > 0 {
                lemma_settled_fixed(sub);
            }
            assert(st.loops.update(st.count, sub) =~= t.loops);
        }
    } else {
        assert(t.instructions.take(0) =~= Seq::<SyntaxTreeInst>::empty());
    }
}

/// Optimising a settled tree leaves it as it is.
proof fn lemma_settled_fixed(t: TreeView)
    requires
        settled(t),
    ensures
        optimised(t) == t,
    decreases t, t.instructions.len() + 1,
{
    lemma_settled_upto(t, t.instructions.len() as int);
    assert(t.instructions.take(t.instructions.len() as int) =~= t.instructions);
}

proof fn lemma_opt_upto_settled(t: TreeView, n: int)
    requires
        well_formed(t),
        0 <= n <= t.instructions.len(),
    ensures
        forall|j: int|
            0 <= j < opt_upto(t, n).count ==> settled(#[trigger] opt_upto(t, n).loops[j]) && (
            opt_upto(t, n).loops[j].loops.len() > 0 || loop_replacement(
                opt_upto(t, n).loops[j].instructions,
            ).len() == 0),
    decreases t, n,
{
    if n > 0 {
        lemma_wf_opt_ok_upto(t, n);
        lemma_opt_upto_settled(t, n - 1);
        lemma_opt_upto_wf(t, n - 1);
        let st = opt_upto(t, n - 1);
        let ns = opt_upto(t, n);
        let k = loops_before(t.instructions, n - 1);
        if t.instructions[n - 1] == SyntaxTreeInst::Loop && 0 <= k < t.loops.len() {
            let sub = t.loops[k];
            assert(well_formed(sub));
            lemma_wf_optimisable(sub);
            if sub.loops.len() > 0 {
                lemma_optimised_settled(sub);
            } else {
                assert(settled(sub));
            }
            let sub2 = if sub.loops.len() > 0 {
                optimised(sub)
            } else {
                sub
            };
            let r = loop_replacement(sub2.instructions);
            if sub2.loops.len() > 0 || r.len() == 0 {
                assert(ns.loops == st.loops.update(st.count, sub2));
                assert forall|j: int| 0 <= j < ns.count implies settled(#[trigger] ns.loops[j]) && (
                ns.loops[j].loops.len() > 0 || loop_replacement(ns.loops[j].instructions).len()
                    == 0) by {
                    if j < st.count {
                        assert(ns.loops[j] == st.loops[j]);
                    } else {
                        assert(ns.loops[j] == sub2);
                    }
                }
            } else {
                assert(ns.loops == st.loops.remove(st.count));
                assert forall|j: int| 0 <= j < ns.count implies settled(#[trigger] ns.loops[j]) && (
                ns.loops[j].loops.len() > 0 || loop_replacement(ns.loops[j].instructions).len()
                    == 0) by {
                    assert(ns.loops[j] == st.loops[j]);
                }
            }
        }
    }
}

/// An optimised tree is settled.
proof fn lemma_optimised_settled(t: TreeView)
    requires
        well_formed(t),
    ensures
        settled(optimised(t)),
    decreases t, t.instructions.len() + 1,
{
    let n = t.instructions.len() as int;
    lemma_wf_optimisable(t);
    lemma_opt_wf(t);
    lemma_opt_upto_wf(t, n);
    lemma_opt_upto_settled(t, n);
    let u = optimised(t);
    assert forall|j: int| 0 <= j < u.loops.len() implies settled(#[trigger] u.loops[j]) && (
    u.loops[j].loops.len() > 0 || loop_replacement(u.loops[j].instructions).len() == 0) by {
        assert(u.loops[j] == opt_upto(t, n).loops[j]);
    }
}

/// Optimising twice gives what optimising once gives.
pub proof fn law_optimise_idempotent(t: TreeView)
    requires
        well_formed(t),
    ensures
        optimisable(t),
        optimisable(optimised(t)),
        optimised(optimised(t)) == optimised(t),
{
    lemma_wf_optimisable(t);
    lemma_opt_wf(t);
    lemma_wf_optimisable(optimised(t));
    lemma_optimised_settled(t);
    lemma_settled_fixed(optimised(t));
}

/// A nested tree as optimising leaves it before deciding on its loop: itself
/// optimised when it has loops of its own.
pub open spec fn settle(sub: TreeView) -> TreeView {
    if sub.loops.len() > 0 {
        optimised(sub)
    } else {
        sub
    }
}

/// The loop that owns `sub` stays a loop after optimising: its settled tree
/// still has loops, or its body cannot be replaced.
pub open spec fn stays(sub: TreeView) -> bool {
    settle(sub).loops.len() > 0 || loop_replacement(settle(sub).instructions).len() == 0
}

/// The settled trees of the loops that stay, in order.
pub open spec fn kept_loops(ls: Seq<TreeView>) -> Seq<TreeView>
    decreases ls.len(),
{
    if ls.len() == 0 {
        Seq::empty()
    } else {
        let prev = kept_loops(ls.drop_last());
        if stays(ls.last()) {
            prev.push(settle(ls.last()))
        } else {
            prev
        }
    }
}

proof fn lemma_kept_upto(t: TreeView, n: int)
    requires
        well_formed(t),
        0 <= n <= t.instructions.len(),
    ensures
        ({
            let k = loops_before(t.instructions, n);
            &&& opt_upto(t, n).loops == kept_loops(t.loops.take(k)) + t.loops.skip(k)
            &&& opt_upto(t, n).count == kept_loops(t.loops.take(k)).len()
        }),
    decreases n,
{
    crate::jit::ast::lemma_loops_before_monotone(t.instructions, 0, n);
    crate::jit::ast::lemma_loops_before_monotone(t.instructions, n, t.instructions.len() as int);
    if n == 0 {
        assert(t.loops.take(0) =~= Seq::<TreeView>::empty());
        assert(t.loops.skip(0) =~= t.loops);
        assert(kept_loops(Seq::<TreeView>::empty()) + t.loops =~= t.loops);
    } else {
        lemma_kept_upto(t, n - 1);
        crate::jit::ast::lemma_loops_before_monotone(t.instructions, n - 1, t.instructions.len() as int);
        crate::jit::ast::lemma_loops_before_monotone(t.instructions, 0, n - 1);
        let k = loops_before(t.instructions, n - 1);
        let st = opt_upto(t, n - 1);
        let ns = opt_upto(t, n);
        if t.instructions[n - 1] == SyntaxTreeInst::Loop {
            let sub = t.loops[k];
            let kp = kept_loops(t.loops.take(k));
            assert(t.loops.take(k + 1).drop_last() =~= t.loops.take(k));
            assert(t.loops.take(k + 1).last() == sub);
            assert(st.loops[st.count] == sub);
            let sub2 = settle(sub);
            let r = loop_replacement(sub2.instructions);
            if sub2.loops.len() > 0 || r.len() == 0 {
                assert(ns.loops == st.loops.update(st.count, sub2));
                assert(kept_loops(t.loops.take(k + 1)) == kp.push(sub2));
                assert(ns.loops =~= kp.push(sub2) + t.loops.skip(k + 1));
            } else {
                assert(ns.loops == st.loops.remove(st.count));
                assert(kept_loops(t.loops.take(k + 1)) == kp);
                assert(ns.loops =~= kp + t.loops.skip(k + 1));
            }
        }
    }
}

/// Optimising keeps, in their order, the loops that stay (see `stays`), each
/// with its settled tree, and drops the others.
pub proof fn law_optimise_keeps_loops(t: TreeView)
    requires
        well_formed(t),
    ensures
        optimised(t).loops == kept_loops(t.loops),
{
    let n = t.instructions.len() as int;
    lemma_kept_upto(t, n);
    assert(t.loops.take(t.loops.len() as int) =~= t.loops);
    assert(t.loops.skip(t.loops.len() as int) =~= Seq::<TreeView>::empty());
    assert(kept_loops(t.loops) + Seq::<TreeView>::empty() =~= kept_loops(t.loops));
}

/// A loop whose body holds anything but moves and additions, such as an
/// output or an input, is never replaced.
pub proof fn law_io_loops_stay(b: Seq<SyntaxTreeInst>, i: int)
    requires
        0 <= i < b.len(),
        !is_linear(b[i]),
    ensures
        loop_replacement(b).len() == 0,
{
    assert(!linear_prefix(b, b.len() as int));
}

} // verus!
