//! The compiling pipeline: syntax tree, optimiser, flattening and x86-64 code
//! generation.
pub mod ast;
pub mod optimiser;
pub mod shape;
pub mod loop_pass;

use vstd::prelude::*;
use crate::backends::x64::{
    compare_mem_code, end_loop, end_loop_code, le32, mem_dec, mem_inc, add_mem_code, dec_mem_code,
    mov_0_asm, mov_0_code, print_asm, print_code, read_asm, read_code, ret, ret_code, setup_pointer,
    setup_pointer_code, shift_down, shift_down_code, shift_up, shift_up_code, start_loop,
    start_loop_code, add_relative_asm, add_relative_code,
};
use crate::brackets::{
    closes, depth, has_match, lemma_partners, lemma_scan_close, lemma_scan_neutral, lemma_scan_open,
    lemma_scan_start, lemma_scan_underflow, lemma_match_unique, match_of, never_below_zero,
    opener_of, scan_state,
};
use crate::layout::{
    code_at, lemma_piece_at,
    concat, jump_target, lemma_concat_ext, lemma_concat_len, lemma_concat_replace, lemma_disp_roundtrip,
    lemma_sum_monotone, sum,
};
use crate::jit::ast::{
    block_closed, block_open, build_ast_recursive, buildable_from, can_build, lemma_loops_before_monotone,
    item_tokens, lemma_tree_views_len, loops_before, no_loop_end, tokenize, tree_tokens, tokens_of, well_formed, SyntaxTree,
    SyntaxTreeInst, Token, TreeView,
};
use crate::jit::optimiser::{lemma_opt_no_loop_end, lemma_opt_wf, lemma_wf_optimisable, optimise, optimised};
use crate::jit::shape::{lemma_tree_balanced, law_parse_unique};

verus! {

/// The nesting step of an instruction.
pub open spec fn inst_step(i: SyntaxTreeInst) -> int {
    match i {
        SyntaxTreeInst::Loop => 1,
        SyntaxTreeInst::LoopEnd => -1,
        _ => 0,
    }
}

/// The nesting steps of an instruction stream.
pub open spec fn inst_steps(insts: Seq<SyntaxTreeInst>) -> Seq<int> {
    Seq::new(insts.len(), |k: int| inst_step(insts[k]))
}

/// The number of bytes generated for an instruction.
pub open spec fn inst_size(i: SyntaxTreeInst) -> int {
    match i {
        SyntaxTreeInst::Add(_) => 5,
        SyntaxTreeInst::AddRelative(_, _, _) => 21,
        SyntaxTreeInst::Sub(_) => 5,
        SyntaxTreeInst::Shiftup(_) => 21,
        SyntaxTreeInst::ShiftDown(_) => 21,
        SyntaxTreeInst::Loop => 11,
        SyntaxTreeInst::Print => 35,
        SyntaxTreeInst::Read => 35,
        SyntaxTreeInst::LoopEnd => 5,
        SyntaxTreeInst::Clear => 5,
    }
}

pub open spec fn inst_sizes(insts: Seq<SyntaxTreeInst>) -> spec_fn(int) -> int {
    |k: int| inst_size(insts[k])
}

/// Where the code of instruction `k` starts: after the prologue and the code
/// of every earlier instruction.
pub open spec fn code_offset(insts: Seq<SyntaxTreeInst>, k: int) -> int {
    setup_pointer_code().len() + sum(inst_sizes(insts), k)
}

/// A loop head whose `je` jumps by `disp`.
pub open spec fn loop_head_code(disp: u32) -> Seq<u8> {
    compare_mem_code(0) + seq![0x0fu8, 0x84u8] + le32(disp)
}

/// The code of instruction `k` in the finished program. A matched `Loop`
/// jumps to just after the `jmp` of its `LoopEnd`; an unmatched one keeps a
/// zero displacement. A `LoopEnd` jumps back to the compare of its `Loop`.
pub open spec fn inst_code(insts: Seq<SyntaxTreeInst>, k: int) -> Seq<u8> {
    let d = inst_steps(insts);
    match insts[k] {
        SyntaxTreeInst::Add(n) => add_mem_code(n),
        SyntaxTreeInst::AddRelative(o, c, p) => add_relative_code(o, c, p),
        SyntaxTreeInst::Sub(n) => dec_mem_code(n),
        SyntaxTreeInst::Shiftup(n) => shift_up_code(n),
        SyntaxTreeInst::ShiftDown(n) => shift_down_code(n),
        SyntaxTreeInst::Loop => if has_match(d, k) {
            loop_head_code(
                (code_offset(insts, match_of(d, k) + 1) - code_offset(insts, k + 1)) as u32,
            )
        } else {
            start_loop_code()
        },
        SyntaxTreeInst::Print => print_code(),
        SyntaxTreeInst::Read => read_code(),
        SyntaxTreeInst::LoopEnd => end_loop_code(
            (code_offset(insts, opener_of(d, k) + 1) - code_offset(insts, k) - 16) as u32,
        ),
        SyntaxTreeInst::Clear => mov_0_code(),
    }
}

pub open spec fn inst_codes(insts: Seq<SyntaxTreeInst>) -> spec_fn(int) -> Seq<u8> {
    |k: int| inst_code(insts, k)
}

/// The generated program: prologue, the code of each instruction, `ret`.
pub open spec fn program_code(insts: Seq<SyntaxTreeInst>) -> Seq<u8> {
    setup_pointer_code() + concat(inst_codes(insts), insts.len() as int) + ret_code()
}

/// The code of instruction `k` once the first `i` instructions are emitted:
/// a loop head whose end has not been reached yet still has a zero
/// displacement.
pub open spec fn partial_code(insts: Seq<SyntaxTreeInst>, k: int, i: int) -> Seq<u8> {
    if insts[k] == SyntaxTreeInst::Loop && !(exists|j: int|
        j < i && #[trigger] closes(inst_steps(insts), k, j)) {
        start_loop_code()
    } else {
        inst_code(insts, k)
    }
}

pub open spec fn partial_codes(insts: Seq<SyntaxTreeInst>, i: int) -> spec_fn(int) -> Seq<u8> {
    |k: int| partial_code(insts, k, i)
}

proof fn lemma_partial_sizes(insts: Seq<SyntaxTreeInst>, i: int, n: int)
    requires
        n <= insts.len(),
    ensures
        forall|k: int| 0 <= k < n ==> #[trigger] partial_codes(insts, i)(k).len() == inst_sizes(insts)(k),
{
    assert forall|k: int| 0 <= k < n implies #[trigger] partial_codes(insts, i)(k).len()
        == inst_sizes(insts)(k) by {
        match insts[k] {
            SyntaxTreeInst::Loop => {},
            _ => {},
        }
    }
}

proof fn lemma_sizes_nonneg(insts: Seq<SyntaxTreeInst>)
    ensures
        forall|k: int| 0 <= k < insts.len() ==> #[trigger] inst_sizes(insts)(k) >= 0,
{
}

proof fn lemma_append_step(insts: Seq<SyntaxTreeInst>, i: int)
    requires
        0 <= i < insts.len(),
        insts[i] != SyntaxTreeInst::LoopEnd,
    ensures
        concat(partial_codes(insts, i + 1), i + 1) == concat(partial_codes(insts, i), i)
            + partial_code(insts, i, i + 1),
        partial_code(insts, i, i + 1) == if insts[i] == SyntaxTreeInst::Loop {
            start_loop_code()
        } else {
            inst_code(insts, i)
        },
{
    let d = inst_steps(insts);
    let f = partial_codes(insts, i);
    let g = partial_codes(insts, i + 1);
    assert forall|k: int| 0 <= k < i implies #[trigger] f(k) == g(k) by {
        if exists|j: int| j < i + 1 && #[trigger] closes(d, k, j) {
            let j = choose|j: int| j < i + 1 && #[trigger] closes(d, k, j);
            assert(j != i);
        }
    }
    lemma_concat_ext(f, g, i);
    if insts[i] == SyntaxTreeInst::Loop {
        if exists|j: int| j < i + 1 && #[trigger] closes(d, i, j) {
            let j = choose|j: int| j < i + 1 && #[trigger] closes(d, i, j);
        }
    }
}

proof fn lemma_close_step(insts: Seq<SyntaxTreeInst>, i: int, p: int)
    requires
        0 <= p < i < insts.len(),
        closes(inst_steps(insts), p, i),
    ensures
        forall|k: int|
            0 <= k < i && k != p ==> #[trigger] partial_codes(insts, i)(k) == partial_codes(
                insts,
                i + 1,
            )(k),
        partial_code(insts, p, i) == start_loop_code(),
        partial_code(insts, p, i + 1) == loop_head_code(
            (code_offset(insts, i + 1) - code_offset(insts, p + 1)) as u32,
        ),
        partial_code(insts, i, i + 1) == end_loop_code(
            (code_offset(insts, p + 1) - code_offset(insts, i) - 16) as u32,
        ),
{
    let d = inst_steps(insts);
    lemma_partners(d, p, i);
    assert(insts[p] == SyntaxTreeInst::Loop);
    assert(insts[i] == SyntaxTreeInst::LoopEnd);
    assert forall|k: int| 0 <= k < i && k != p implies #[trigger] partial_codes(insts, i)(k)
        == partial_codes(insts, i + 1)(k) by {
        if exists|j: int| j < i + 1 && #[trigger] closes(d, k, j) {
            let j = choose|j: int| j < i + 1 && #[trigger] closes(d, k, j);
            if j == i {
                crate::brackets::lemma_opener_unique(d, p, k, i);
            }
        }
    }
    if exists|j: int| j < i && #[trigger] closes(d, p, j) {
        let j = choose|j: int| j < i && #[trigger] closes(d, p, j);
        lemma_match_unique(d, p, i, j);
    }
    assert(closes(d, p, i));
}

proof fn lemma_byte_of_offset(x: usize)
    requires
        x < 0x1_0000_0000,
    ensures
        (x >> 24usize) as u8 == ((x as u32) >> 24u32) as u8,
        (x >> 16usize) as u8 == ((x as u32) >> 16u32) as u8,
        (x >> 8usize) as u8 == ((x as u32) >> 8u32) as u8,
        x as u8 == (x as u32) as u8,
{
    assert((x >> 24usize) as u8 == ((x as u32) >> 24u32) as u8) by (bit_vector)
        requires
            x < 0x1_0000_0000,
    ;
    assert((x >> 16usize) as u8 == ((x as u32) >> 16u32) as u8) by (bit_vector)
        requires
            x < 0x1_0000_0000,
    ;
    assert((x >> 8usize) as u8 == ((x as u32) >> 8u32) as u8) by (bit_vector)
        requires
            x < 0x1_0000_0000,
    ;
    assert(x as u8 == (x as u32) as u8) by (bit_vector)
        requires
            x < 0x1_0000_0000,
    ;
}

proof fn lemma_patched_image(
    insts: Seq<SyntaxTreeInst>,
    i: int,
    p: int,
    old_out: Seq<u8>,
    new_out: Seq<u8>,
    disp: u32,
    back: u32,
)
    requires
        0 <= p < i < insts.len(),
        closes(inst_steps(insts), p, i),
        forall|k: int| 0 <= k < insts.len() ==> #[trigger] inst_sizes(insts)(k) >= 0,
        old_out == setup_pointer_code() + concat(partial_codes(insts, i), i),
        old_out.len() == code_offset(insts, i),
        new_out.len() == old_out.len() + 5,
        forall|x: int|
            0 <= x < old_out.len() && !(code_offset(insts, p + 1) - 4 <= x < code_offset(insts, p + 1))
                ==> #[trigger] new_out[x] == old_out[x],
        forall|k: int|
            0 <= k < 4 ==> #[trigger] new_out[code_offset(insts, p + 1) - 4 + k] == le32(disp)[k],
        forall|k: int|
            0 <= k < 5 ==> #[trigger] new_out[old_out.len() + k] == end_loop_code(back)[k],
        disp == (code_offset(insts, i + 1) - code_offset(insts, p + 1)) as u32,
        back == (code_offset(insts, p + 1) - code_offset(insts, i) - 16) as u32,
    ensures
        new_out == setup_pointer_code() + concat(partial_codes(insts, i + 1), i + 1),
{
    let f = partial_codes(insts, i);
    let g = partial_codes(insts, i + 1);
    lemma_close_step(insts, i, p);
    lemma_partial_sizes(insts, i, insts.len() as int);
    lemma_partial_sizes(insts, i + 1, insts.len() as int);
    lemma_concat_len(f, inst_sizes(insts), i);
    lemma_concat_len(f, inst_sizes(insts), p);
    lemma_concat_replace(f, g, i, p);
    crate::layout::lemma_concat_at(f, p, i);
    let base = setup_pointer_code().len();
    let off_p = concat(f, p).len();
    assert(code_offset(insts, p + 1) == base + off_p + 11);
    let target = setup_pointer_code() + concat(g, i + 1);
    assert(concat(g, i + 1) == concat(g, i) + g(i));
    assert(g(p) == loop_head_code(disp));
    assert(f(p) == start_loop_code());
    assert(g(i) == end_loop_code(back));
    assert forall|x: int| 0 <= x < new_out.len() implies #[trigger] new_out[x] == target[x] by {
        if x < base {
        } else if x < base + concat(f, i).len() {
            let y = x - base;
            assert(target[x] == concat(g, i)[y]);
            if off_p <= y < off_p + 11 {
                assert(concat(g, i)[y] == g(p)[y - off_p]);
                assert(concat(f, i)[off_p + (y - off_p)] == f(p)[y - off_p]);
                if y - off_p < 7 {
                    assert(start_loop_code()[y - off_p] == loop_head_code(disp)[y - off_p]);
                } else {
                    let k = y - off_p - 7;
                    assert(x == code_offset(insts, p + 1) - 4 + k);
                    assert(loop_head_code(disp)[y - off_p] == le32(disp)[k]);
                }
            } else {
                assert(old_out[x] == concat(f, i)[y]);
            }
        } else {
            let k = x - old_out.len();
            assert(new_out[old_out.len() + k] == end_loop_code(back)[k]);
            assert(target[x] == g(i)[x - base - concat(g, i).len()]);
        }
    }
    assert(new_out =~= target);
}

/// Generates x86-64 code for a flattened instruction stream. The stream must
/// never close more loops than it opened, and each loop's code must stay well
/// below 2 GiB so that its jump displacements fit in 32 bits.
#[verifier::rlimit(40)]
pub fn compile(insts: Vec<SyntaxTreeInst>) -> (code: Vec<u8>)
    requires
        never_below_zero(inst_steps(insts@)),
        loops_fit(insts@),
    ensures
        code@ == program_code(insts@),
{
    let ghost d = inst_steps(insts@);
    let ghost n = insts.len() as int;
    let mut out: Vec<u8> = Vec::new();
    let mut stack: Vec<usize> = Vec::new();
    let ghost mut gst: Seq<int> = Seq::empty();
    setup_pointer(&mut out);
    proof {
        lemma_scan_start(d);
        lemma_sizes_nonneg(insts@);
        assert(out@ =~= setup_pointer_code() + concat(partial_codes(insts@, 0), 0));
    }
    for idx in 0..insts.len()
        invariant
            d == inst_steps(insts@),
            n == insts.len(),
            never_below_zero(d),
            loops_fit(insts@),
            forall|k: int| 0 <= k < n ==> #[trigger] inst_sizes(insts@)(k) >= 0,
            out@ == setup_pointer_code() + concat(partial_codes(insts@, idx as int), idx as int),
            out.len() == code_offset(insts@, idx as int),
            scan_state(d, idx as int, gst),
            stack.len() == gst.len(),
            forall|t: int| 0 <= t < gst.len() ==> #[trigger] stack@[t] == code_offset(insts@, gst[t] + 1),
    {
        let ghost i = idx as int;
        let ghost f = partial_codes(insts@, i);
        let ghost g = partial_codes(insts@, i + 1);
        let ghost old_out = out@;
        proof {
            lemma_partial_sizes(insts@, i, n);
            lemma_partial_sizes(insts@, i + 1, n);
            lemma_concat_len(f, inst_sizes(insts@), i);
            lemma_sum_monotone(inst_sizes(insts@), i + 1, n);
        }
        let inst = insts[idx];
        match inst {
            SyntaxTreeInst::LoopEnd => {
                if stack.len() == 0 {
                    proof {
                        lemma_scan_underflow(d, i, gst);
                    }
                }
                let ghost p = gst.last();
                proof {
                    lemma_scan_close(d, i, gst);
                    lemma_close_step(insts@, i, p);
                    lemma_sum_monotone(inst_sizes(insts@), p + 1, i);
                    lemma_concat_len(f, inst_sizes(insts@), p);
                }
                let beginning = stack.pop().unwrap();
                proof {
                    gst = gst.drop_last();
                }
                let offset: i32 = -((out.len() - beginning) as i32) - 16;
                let ghost back = offset;
                end_loop(&mut out, offset as u32);
                let jump_to = out.len();
                let offset = jump_to - beginning;
                let replace_addr = beginning - 4;
                out.set(replace_addr + 3, (offset >> 24) as u8);
                out.set(replace_addr + 2, (offset >> 16) as u8);
                out.set(replace_addr + 1, (offset >> 8) as u8);
                out.set(replace_addr + 0, offset as u8);
                proof {
                    lemma_byte_of_offset(offset);
                    let disp = (code_offset(insts@, i + 1) - code_offset(insts@, p + 1)) as u32;
                    assert(jump_to == code_offset(insts@, i + 1));
                    assert(offset as u32 == disp);
                    assert(back as int == code_offset(insts@, p + 1) - code_offset(insts@, i) - 16);
                    assert(out@[replace_addr as int] == le32(disp)[0]);
                    assert(out@[replace_addr + 1] == le32(disp)[1]);
                    assert(out@[replace_addr + 2] == le32(disp)[2]);
                    assert(out@[replace_addr + 3] == le32(disp)[3]);
                    lemma_patched_image(insts@, i, p, old_out, out@, disp, back as u32);
                }
            },
            _ => {
                proof {
                    lemma_append_step(insts@, i);
                }
                match inst {
                    SyntaxTreeInst::Shiftup(amount) => shift_up(&mut out, amount),
                    SyntaxTreeInst::ShiftDown(amount) => shift_down(&mut out, amount),
                    SyntaxTreeInst::Add(amount) => mem_inc(&mut out, amount),
                    SyntaxTreeInst::Sub(amount) => mem_dec(&mut out, amount),
                    SyntaxTreeInst::Loop => {
                        start_loop(&mut out);
                        proof {
                            lemma_scan_open(d, i, gst);
                            gst = gst.push(i);
                        }
                        stack.push(out.len());
                    },
                    SyntaxTreeInst::Print => print_asm(&mut out),
                    SyntaxTreeInst::Read => read_asm(&mut out),
                    SyntaxTreeInst::AddRelative(offset, change, per) => add_relative_asm(
                        &mut out,
                        offset,
                        change,
                        per,
                    ),
                    SyntaxTreeInst::Clear => mov_0_asm(&mut out),
                    SyntaxTreeInst::LoopEnd => {},
                }
                proof {
                    if inst != SyntaxTreeInst::Loop {
                        lemma_scan_neutral(d, i, gst);
                    }
                }
            },
        }
    }
    ret(&mut out);
    proof {
        let f = partial_codes(insts@, n);
        let g = inst_codes(insts@);
        assert forall|k: int| 0 <= k < n implies #[trigger] f(k) == g(k) by {
            if insts@[k] == SyntaxTreeInst::Loop && has_match(d, k) {
                let j = choose|j: int| closes(d, k, j);
                assert(j < n && closes(d, k, j));
            }
        }
        lemma_concat_ext(f, g, n);
    }
    out
}


/// Every `Loop` that flattening reaches has its nested tree.
pub open spec fn flattenable(t: TreeView) -> bool
    decreases t,
{
    &&& loops_before(t.instructions, t.instructions.len() as int) <= t.loops.len()
    &&& forall|i: int|
        0 <= i < loops_before(t.instructions, t.instructions.len() as int) ==> flattenable(
            #[trigger] t.loops[i],
        )
}

/// Flattens a tree into one instruction stream: each `Loop` is followed by
/// its flattened nested tree and a closing `LoopEnd` (see `tree_tokens`).
pub fn flatten_ast(ast: &SyntaxTree) -> (instructions: Vec<SyntaxTreeInst>)
    requires
        flattenable(ast.view_tree()),
    ensures
        instructions@ == tree_tokens(ast.view_tree()),
    decreases ast.view_tree(),
{
    let ghost t = ast.view_tree();
    let mut instructions: Vec<SyntaxTreeInst> = Vec::new();
    let mut loop_index: usize = 0;
    proof {
        lemma_tree_views_len(ast.loops@, ast.loops@.len() as int);
    }
    for idx in 0..ast.instructions.len()
        invariant
            t == ast.view_tree(),
            flattenable(t),
            instructions@ == item_tokens(t, idx as int),
            loop_index == loops_before(t.instructions, idx as int),
            t.loops.len() == ast.loops@.len(),
            forall|i: int| 0 <= i < ast.loops@.len() ==> #[trigger] t.loops[i] == ast.loops@[i].view_tree(),
    {
        let ghost i = idx as int;
        proof {
            lemma_loops_before_monotone(t.instructions, i, t.instructions.len() as int);
            lemma_loops_before_monotone(t.instructions, 0, i);
        }
        let instruction = ast.instructions[idx];
        if let SyntaxTreeInst::Loop = instruction {
            assert(t.instructions[i] == SyntaxTreeInst::Loop);
            assert(loop_index < ast.loops.len());
            assert(ast.loops@[loop_index as int].view_tree() == t.loops[loop_index as int]);
            let mut inner = flatten_ast(&ast.loops[loop_index]);
            instructions.push(SyntaxTreeInst::Loop);
            instructions.append(&mut inner);
            instructions.push(SyntaxTreeInst::LoopEnd);
            loop_index += 1;
        } else {
            instructions.push(instruction);
        }
    }
    instructions
}


fn inst_size_exec(i: SyntaxTreeInst) -> (r: usize)
    ensures
        r == inst_size(i),
{
    match i {
        SyntaxTreeInst::Add(_) => 5,
        SyntaxTreeInst::AddRelative(_, _, _) => 21,
        SyntaxTreeInst::Sub(_) => 5,
        SyntaxTreeInst::Shiftup(_) => 21,
        SyntaxTreeInst::ShiftDown(_) => 21,
        SyntaxTreeInst::Loop => 11,
        SyntaxTreeInst::Print => 35,
        SyntaxTreeInst::Read => 35,
        SyntaxTreeInst::LoopEnd => 5,
        SyntaxTreeInst::Clear => 5,
    }
}

/// Whether `compile` accepts the stream: it never closes more loops than it
/// opened, each loop's jumps fit in 32 bits (see `loops_fit`), and the code
/// fits in memory (`usize`).
pub fn can_compile(insts: &Vec<SyntaxTreeInst>) -> (r: bool)
    ensures
        r == (never_below_zero(inst_steps(insts@)) && loops_fit(insts@) && code_offset(
            insts@,
            insts.len() as int,
        ) <= usize::MAX),
{
    let ghost d = inst_steps(insts@);
    let ghost n = insts.len() as int;
    let mut stack: Vec<usize> = Vec::new();
    let ghost mut gst: Seq<int> = Seq::empty();
    let mut size: usize = 13;
    proof {
        lemma_sizes_nonneg(insts@);
        lemma_scan_start(d);
        assert(setup_pointer_code().len() == 13);
    }
    for j in 0..insts.len()
        invariant
            d == inst_steps(insts@),
            n == insts.len(),
            forall|k: int| 0 <= k < n ==> #[trigger] inst_sizes(insts@)(k) >= 0,
            forall|k: int| 0 <= k <= j ==> #[trigger] depth(d, 0, k) >= 0,
            scan_state(d, j as int, gst),
            stack.len() == gst.len(),
            forall|t: int| 0 <= t < gst.len() ==> #[trigger] stack@[t] == code_offset(insts@, gst[t] + 1),
            size == code_offset(insts@, j as int),
            forall|p: int, q: int|
                q < j && #[trigger] closes(d, p, q) ==> code_offset(insts@, q + 1) - code_offset(
                    insts@,
                    p + 1,
                ) < 0x7fff_0000,
    {
        let inst = insts[j];
        let s = inst_size_exec(inst);
        if size > usize::MAX - s {
            proof {
                lemma_sum_monotone(inst_sizes(insts@), j + 1, n);
            }
            return false;
        }
        size = size + s;
        proof {
            assert(depth(d, 0, j + 1) == depth(d, 0, j as int) + d[j as int]);
        }
        if inst == SyntaxTreeInst::Loop {
            proof {
                lemma_scan_open(d, j as int, gst);
                gst = gst.push(j as int);
            }
            stack.push(size);
        } else if inst == SyntaxTreeInst::LoopEnd {
            if stack.len() == 0 {
                proof {
                    lemma_scan_underflow(d, j as int, gst);
                }
                return false;
            }
            let ghost p = gst.last();
            proof {
                lemma_scan_close(d, j as int, gst);
                lemma_sum_monotone(inst_sizes(insts@), p + 1, j + 1);
            }
            let start = stack.pop().unwrap();
            proof {
                gst = gst.drop_last();
            }
            if size - start >= 0x7fff_0000 {
                proof {
                    assert(closes(d, p, j as int));
                }
                return false;
            }
            proof {
                assert forall|p2: int, q: int|
                    q < j + 1 && #[trigger] closes(d, p2, q) implies code_offset(insts@, q + 1)
                    - code_offset(insts@, p2 + 1) < 0x7fff_0000 by {
                    if q == j {
                        crate::brackets::lemma_opener_unique(d, p, p2, q);
                    }
                }
            }
        } else {
            proof {
                lemma_scan_neutral(d, j as int, gst);
            }
        }
    }
    true
}


/// Every `Loop` of a well-formed tree owns a nested tree, so the tree can be
/// flattened.
pub proof fn lemma_wf_flattenable(t: TreeView)
    requires
        well_formed(t),
    ensures
        flattenable(t),
    decreases t,
{
    assert forall|i: int|
        0 <= i < loops_before(t.instructions, t.instructions.len() as int) implies flattenable(
        #[trigger] t.loops[i],
    ) by {
        lemma_wf_flattenable(t.loops[i]);
    }
}

/// The code of every loop, from just after its head to the end of its tail,
/// is shorter than `0x7fff_0000` bytes, so both of its jump displacements fit
/// in 32 bits.
pub open spec fn loops_fit(insts: Seq<SyntaxTreeInst>) -> bool {
    forall|p: int, j: int|
        #[trigger] closes(inst_steps(insts), p, j) ==> code_offset(insts, j + 1) - code_offset(
            insts,
            p + 1,
        ) < 0x7fff_0000
}

/// `t` is the syntax tree that `build_ast` reads from the tokens `ts`.
pub open spec fn parsed(ts: Seq<Token>, t: TreeView) -> bool {
    &&& well_formed(t)
    &&& no_loop_end(t)
    &&& (exists|e: int| block_closed(ts, 0, e, t)) || block_open(ts, 0, t)
}

/// The stage at which turning a text into machine code stops.
#[derive(Debug, Clone, Copy, PartialEq, Eq, Structural)]
pub enum JitError {
    /// The text holds a run longer than 255 where it is read.
    Parse,
    /// A loop's code is too long for its jumps (see `loops_fit`), or the
    /// whole code does not fit in memory.
    Compile,
}

/// What turning the tree `t` into machine code gives.
pub open spec fn jit_outcome(t: TreeView, r: Result<Vec<u8>, JitError>) -> bool {
    if !(loops_fit(tree_tokens(optimised(t))) && code_offset(
        tree_tokens(optimised(t)),
        tree_tokens(optimised(t)).len() as int,
    ) <= usize::MAX) {
        r == Err::<Vec<u8>, JitError>(JitError::Compile)
    } else {
        r matches Ok(v) && v@ == program_code(tree_tokens(optimised(t)))
    }
}

/// The machine code for a text: its syntax tree, optimised, flattened and
/// compiled; or the stage at which that stops.
pub fn jit_code(src: Vec<char>) -> (r: Result<Vec<u8>, JitError>)
    ensures
        r == Err::<Vec<u8>, JitError>(JitError::Parse) <==> !buildable_from(tokens_of(src@), 0),
        buildable_from(tokens_of(src@), 0) ==> exists|t: TreeView|
            parsed(tokens_of(src@), t) && jit_outcome(t, r),
        buildable_from(tokens_of(src@), 0) ==> forall|t: TreeView|
            parsed(tokens_of(src@), t) ==> jit_outcome(t, r),
{
    let tokens = tokenize(src);
    if !can_build(&tokens) {
        return Err(JitError::Parse);
    }
    let mut iter: usize = 0;
    let mut ast = build_ast_recursive(&tokens, &mut iter);
    let ghost t = ast.view_tree();
    proof {
        assert(parsed(tokens@, t));
        assert forall|t2: TreeView| parsed(tokens@, t2) implies t2 == t by {
            law_parse_unique(tokens@, t, t2);
        }
    }
    proof {
        lemma_wf_optimisable(t);
    }
    optimise(&mut ast);
    proof {
        lemma_opt_wf(t);
        lemma_opt_no_loop_end(t);
        lemma_wf_flattenable(optimised(t));
        lemma_tree_balanced(optimised(t));
    }
    let instructions = flatten_ast(&ast);
    if !can_compile(&instructions) {
        assert(jit_outcome(t, Err::<Vec<u8>, JitError>(JitError::Compile)));
        return Err(JitError::Compile);
    }
    let code = compile(instructions);
    assert(jit_outcome(t, Ok::<Vec<u8>, JitError>(code)));
    Ok(code)
}


/// `p` is a power of two.
pub open spec fn is_power_of_two(p: usize) -> bool {
    p != 0 && p & sub_one(p) == 0
}

pub open spec fn sub_one(p: usize) -> usize {
    (p - 1) as usize
}

/// The size of the mapping that holds `size` bytes of code:
/// `(size + pagesize - 1) & !(pagesize - 1)`. For a power-of-two page size
/// this is the smallest multiple of the page size (its bits below the page
/// size are clear) that is not below `size`.
pub fn round_to_pages(size: usize, pagesize: usize) -> (r: usize)
    requires
        0 < pagesize,
        size + pagesize <= usize::MAX,
    ensures
        r == ((size + pagesize - 1) as usize) & !sub_one(pagesize),
        is_power_of_two(pagesize) ==> r & sub_one(pagesize) == 0 && size <= r && r < size
            + pagesize,
{
    let r = (size + pagesize - 1) & !(pagesize - 1);
    proof {
        let x = (size + pagesize - 1) as usize;
        let m = sub_one(pagesize);
        if is_power_of_two(pagesize) {
            assert(size <= r && r < size + pagesize && r & m == 0) by (bit_vector)
                requires
                    pagesize != 0,
                    pagesize & m == 0,
                    m == pagesize - 1,
                    x == size + pagesize - 1,
                    r == x & !m,
            ;

        }
    }
    r
}


/// In the generated program the `je` of a matched `Loop` lands just after
/// the `jmp` of its `LoopEnd`, and that `jmp` lands on the `Loop`'s compare.
pub proof fn law_loop_jumps(insts: Seq<SyntaxTreeInst>, p: int, j: int)
    requires
        never_below_zero(inst_steps(insts)),
        loops_fit(insts),
        closes(inst_steps(insts), p, j),
    ensures
        ({
            let disp = (code_offset(insts, j + 1) - code_offset(insts, p + 1)) as u32;
            &&& inst_code(insts, p) == loop_head_code(disp)
            &&& jump_target(code_offset(insts, p + 1), disp) == code_offset(insts, j + 1)
        }),
        ({
            let back = (code_offset(insts, p) - code_offset(insts, j + 1)) as u32;
            &&& inst_code(insts, j) == end_loop_code(back)
            &&& jump_target(code_offset(insts, j + 1), back) == code_offset(insts, p)
        }),
{
    let d = inst_steps(insts);
    let n = insts.len() as int;
    lemma_partners(d, p, j);
    lemma_sizes_nonneg(insts);
    lemma_sum_monotone(inst_sizes(insts), 0, p);
    lemma_sum_monotone(inst_sizes(insts), p + 1, j);
    lemma_sum_monotone(inst_sizes(insts), j + 1, n);
    assert(d[p] == inst_step(insts[p]));
    assert(d[j] == inst_step(insts[j]));
    assert(insts[p] == SyntaxTreeInst::Loop);
    assert(insts[j] == SyntaxTreeInst::LoopEnd);
    assert(code_offset(insts, p + 1) == code_offset(insts, p) + 11);
    assert(code_offset(insts, j + 1) == code_offset(insts, j) + 5);
    lemma_disp_roundtrip(code_offset(insts, j + 1) - code_offset(insts, p + 1));
    lemma_disp_roundtrip(code_offset(insts, p) - code_offset(insts, j + 1));
}

proof fn lemma_inst_code_len(insts: Seq<SyntaxTreeInst>)
    ensures
        forall|k: int| 0 <= k < insts.len() ==> #[trigger] inst_codes(insts)(k).len() == inst_sizes(insts)(k),
{
    assert forall|k: int| 0 <= k < insts.len() implies #[trigger] inst_codes(insts)(k).len()
        == inst_sizes(insts)(k) by {
        match insts[k] {
            SyntaxTreeInst::Loop => {},
            _ => {},
        }
    }
}

proof fn lemma_le32_of_byte(n: u8)
    ensures
        le32(n as u32) == seq![n, 0u8, 0u8, 0u8],
{
    assert((n as u32) as u8 == n) by (bit_vector);
    assert(((n as u32) >> 8u32) as u8 == 0) by (bit_vector);
    assert(((n as u32) >> 16u32) as u8 == 0) by (bit_vector);
    assert(((n as u32) >> 24u32) as u8 == 0) by (bit_vector);
    assert(le32(n as u32) =~= seq![n, 0u8, 0u8, 0u8]);
}

/// In the generated program the code of each instruction stands at its
/// offset and starts with the machine instructions that do its work:
/// `Shiftup(n)` adds `n` to the tape index (`add rcx, n`), `ShiftDown(n)`
/// subtracts it (`sub rcx, n`), `Add(n)` and `Sub(n)` add to and subtract
/// from the current cell (`add`/`sub byte [rcx + r12], n`), `Clear` stores 0
/// in it, and `Print`/`Read` make the `write`/`read` system call (`rax` 1 or
/// 0) on descriptor 1 for one byte at `rcx + r12`, the current cell
/// (`mov rsi, rcx; add rsi, r12`). `AddRelative(o, c, per)` copies the
/// current cell into `al` and, until `al` is zero, adds `c` to the cell at
/// offset `o` and `per` to `al`; `Loop` compares the current cell with 0 and
/// jumps (`je`) when it is.
pub proof fn law_instruction_code(insts: Seq<SyntaxTreeInst>, k: int)
    requires
        0 <= k < insts.len(),
    ensures
        insts[k] matches SyntaxTreeInst::Shiftup(n) ==> code_at(
            program_code(insts),
            code_offset(insts, k),
            seq![0x48u8, 0x81u8, 0xc1u8, n, 0u8, 0u8, 0u8],
        ),
        insts[k] matches SyntaxTreeInst::ShiftDown(n) ==> code_at(
            program_code(insts),
            code_offset(insts, k),
            seq![0x48u8, 0x81u8, 0xe9u8, n, 0u8, 0u8, 0u8],
        ),
        insts[k] matches SyntaxTreeInst::Add(n) ==> code_at(
            program_code(insts),
            code_offset(insts, k),
            seq![0x42u8, 0x80u8, 0x04u8, 0x21u8, n],
        ),
        insts[k] matches SyntaxTreeInst::Sub(n) ==> code_at(
            program_code(insts),
            code_offset(insts, k),
            seq![0x42u8, 0x80u8, 0x2cu8, 0x21u8, n],
        ),
        insts[k] == SyntaxTreeInst::Clear ==> code_at(
            program_code(insts),
            code_offset(insts, k),
            seq![0x42u8, 0xc6u8, 0x04u8, 0x21u8, 0u8],
        ),
        insts[k] matches SyntaxTreeInst::AddRelative(o, c, per) ==> code_at(
            program_code(insts),
            code_offset(insts, k),
            seq![0x42u8, 0x8au8, 0x04u8, 0x21u8, 0x84u8, 0xc0u8, 0x74u8, 0x0du8, 0x42u8, 0x80u8, 0x84u8,
                0x21u8] + le32((o as i32) as u32) + seq![c as u8, 0x04u8, per as u8, 0xebu8, 0xefu8],
        ),
        insts[k] == SyntaxTreeInst::Loop ==> code_at(
            program_code(insts),
            code_offset(insts, k),
            seq![0x42u8, 0x80u8, 0x3cu8, 0x21u8, 0u8, 0x0fu8, 0x84u8],
        ),
        insts[k] == SyntaxTreeInst::Print ==> code_at(
            program_code(insts),
            code_offset(insts, k) + 3,
            seq![0x48u8, 0xc7u8, 0xc0u8, 1u8, 0u8, 0u8, 0u8, 0x48u8, 0xc7u8, 0xc7u8, 1u8, 0u8, 0u8, 0u8,
                0x48u8, 0x89u8, 0xceu8, 0x4cu8, 0x01u8, 0xe6u8, 0x48u8, 0xc7u8, 0xc2u8, 1u8, 0u8, 0u8, 0u8,
                0x0fu8, 0x05u8],
        ),
        insts[k] == SyntaxTreeInst::Read ==> code_at(
            program_code(insts),
            code_offset(insts, k) + 3,
            seq![0x48u8, 0xc7u8, 0xc0u8, 0u8, 0u8, 0u8, 0u8, 0x48u8, 0xc7u8, 0xc7u8, 1u8, 0u8, 0u8, 0u8,
                0x48u8, 0x89u8, 0xceu8, 0x4cu8, 0x01u8, 0xe6u8, 0x48u8, 0xc7u8, 0xc2u8, 1u8, 0u8, 0u8, 0u8,
                0x0fu8, 0x05u8],
        ),
{
    let n = insts.len() as int;
    let f = inst_codes(insts);
    lemma_inst_code_len(insts);
    lemma_piece_at(f, inst_sizes(insts), k, n);
    let code = program_code(insts);
    let base = code_offset(insts, k);
    assert(setup_pointer_code().len() == 13);
    assert forall|x: int| 0 <= x < f(k).len() implies #[trigger] code[base + x] == f(k)[x] by {
        assert(code[base + x] == concat(f, n)[sum(inst_sizes(insts), k) + x]);
    }
    match insts[k] {
        SyntaxTreeInst::Shiftup(m) => {
            lemma_le32_of_byte(m);
            let want = seq![0x48u8, 0x81u8, 0xc1u8, m, 0u8, 0u8, 0u8];
            assert forall|x: int| 0 <= x < want.len() implies #[trigger] code[base + x] == want[x] by {
                assert(code[base + x] == f(k)[x]);
            }
        },
        SyntaxTreeInst::ShiftDown(m) => {
            lemma_le32_of_byte(m);
            let want = seq![0x48u8, 0x81u8, 0xe9u8, m, 0u8, 0u8, 0u8];
            assert forall|x: int| 0 <= x < want.len() implies #[trigger] code[base + x] == want[x] by {
                assert(code[base + x] == f(k)[x]);
            }
        },
        SyntaxTreeInst::Add(m) => {
            let want = seq![0x42u8, 0x80u8, 0x04u8, 0x21u8, m];
            assert forall|x: int| 0 <= x < want.len() implies #[trigger] code[base + x] == want[x] by {
                assert(code[base + x] == f(k)[x]);
            }
        },
        SyntaxTreeInst::Sub(m) => {
            let want = seq![0x42u8, 0x80u8, 0x2cu8, 0x21u8, m];
            assert forall|x: int| 0 <= x < want.len() implies #[trigger] code[base + x] == want[x] by {
                assert(code[base + x] == f(k)[x]);
            }
        },
        SyntaxTreeInst::Clear => {
            let want = seq![0x42u8, 0xc6u8, 0x04u8, 0x21u8, 0u8];
            assert forall|x: int| 0 <= x < want.len() implies #[trigger] code[base + x] == want[x] by {
                assert(code[base + x] == f(k)[x]);
            }
        },
        SyntaxTreeInst::AddRelative(o, c, per) => {
            let want = seq![0x42u8, 0x8au8, 0x04u8, 0x21u8, 0x84u8, 0xc0u8, 0x74u8, 0x0du8, 0x42u8, 0x80u8,
                0x84u8, 0x21u8] + le32((o as i32) as u32) + seq![c as u8, 0x04u8, per as u8, 0xebu8, 0xefu8];
            assert(f(k) =~= want);
            assert forall|x: int| 0 <= x < want.len() implies #[trigger] code[base + x] == want[x] by {
                assert(code[base + x] == f(k)[x]);
            }
        },
        SyntaxTreeInst::Loop => {
            let want = seq![0x42u8, 0x80u8, 0x3cu8, 0x21u8, 0u8, 0x0fu8, 0x84u8];
            assert forall|x: int| 0 <= x < want.len() implies #[trigger] code[base + x] == want[x] by {
                assert(code[base + x] == f(k)[x]);
            }
        },
        SyntaxTreeInst::Print => {
            let want = seq![0x48u8, 0xc7u8, 0xc0u8, 1u8, 0u8, 0u8, 0u8, 0x48u8, 0xc7u8, 0xc7u8, 1u8, 0u8, 0u8, 0u8,
                0x48u8, 0x89u8, 0xceu8, 0x4cu8, 0x01u8, 0xe6u8, 0x48u8, 0xc7u8, 0xc2u8, 1u8, 0u8, 0u8, 0u8,
                0x0fu8, 0x05u8];
            assert(f(k) =~= seq![0x49u8, 0x89u8, 0xcdu8] + want + seq![0x4cu8, 0x89u8, 0xe9u8]);
            assert forall|x: int| 0 <= x < want.len() implies #[trigger] code[base + 3 + x] == want[x] by {
                assert(code[base + (3 + x)] == f(k)[3 + x]);
            }
        },
        SyntaxTreeInst::Read => {
            let want = seq![0x48u8, 0xc7u8, 0xc0u8, 0u8, 0u8, 0u8, 0u8, 0x48u8, 0xc7u8, 0xc7u8, 1u8, 0u8, 0u8, 0u8,
                0x48u8, 0x89u8, 0xceu8, 0x4cu8, 0x01u8, 0xe6u8, 0x48u8, 0xc7u8, 0xc2u8, 1u8, 0u8, 0u8, 0u8,
                0x0fu8, 0x05u8];
            assert(f(k) =~= seq![0x49u8, 0x89u8, 0xcdu8] + want + seq![0x4cu8, 0x89u8, 0xe9u8]);
            assert forall|x: int| 0 <= x < want.len() implies #[trigger] code[base + 3 + x] == want[x] by {
                assert(code[base + (3 + x)] == f(k)[3 + x]);
            }
        },
        _ => {},
    }
}

} // verus!
