//! The first code generator: run-length tokens straight to x86-64, with the
//! tape address kept in `rcx`.
use vstd::prelude::*;
use crate::backends::x64::le32;
use crate::brackets::{
    closes, depth, has_match, lemma_balanced_concat, lemma_balanced_matches, lemma_closes_left,
    lemma_closes_left_back, lemma_closes_right, lemma_closes_right_back, unit_steps, lemma_match_unique, lemma_opener_unique, lemma_partners, lemma_scan_close,
    lemma_scan_neutral, lemma_scan_open, lemma_scan_start, lemma_scan_underflow, match_of,
    never_below_zero, opener_of, scan_state,
};
use crate::layout::{
    code_at, lemma_piece_at,
    concat, jump_target, lemma_disp_roundtrip, lemma_concat_at, lemma_concat_ext, lemma_concat_len, lemma_concat_replace,
    lemma_sum_monotone, sum, lemma_concat_split, lemma_sum_ext, lemma_sum_split,
};
use crate::sanitize::is_command;

verus! {

/// A command, with the length of its run for the repeatable ones.
#[derive(Debug, Clone, Copy, PartialEq, Eq, Structural)]
pub enum Tokens {
    Inc(u8),
    Dec(u8),
    MovUp(u8),
    MovDown(u8),
    LoopStart,
    LoopEnd,
    Print,
    Read,
}

/// `+`, `-`, `>` and `<` are collapsed into runs.
pub open spec fn is_repeatable(c: char) -> bool {
    c == '+' || c == '-' || c == '>' || c == '<'
}

/// The length of the run of equal characters that ends at position `i`.
pub open spec fn run_len(code: Seq<char>, i: int) -> int
    decreases i,
{
    if i > 0 && code[i - 1] == code[i] {
        run_len(code, i - 1) + 1
    } else {
        1
    }
}

/// The token of a repeatable command repeated `n` times.
pub open spec fn run_token(c: char, n: u8) -> Tokens {
    if c == '+' {
        Tokens::Inc(n)
    } else if c == '-' {
        Tokens::Dec(n)
    } else if c == '>' {
        Tokens::MovUp(n)
    } else {
        Tokens::MovDown(n)
    }
}

/// The tokens produced at position `i`: brackets and input/output give their
/// token; a repeatable command gives one token for its whole run, at the
/// run's last character.
pub open spec fn emitted(code: Seq<char>, i: int) -> Seq<Tokens> {
    let c = code[i];
    if c == '[' {
        seq![Tokens::LoopStart]
    } else if c == ']' {
        seq![Tokens::LoopEnd]
    } else if c == '.' {
        seq![Tokens::Print]
    } else if c == ',' {
        seq![Tokens::Read]
    } else if i + 1 < code.len() && code[i + 1] == c {
        Seq::empty()
    } else {
        seq![run_token(c, run_len(code, i) as u8)]
    }
}

/// The tokens produced by the first `n` characters.
pub open spec fn tokens_upto(code: Seq<char>, n: int) -> Seq<Tokens>
    decreases n,
{
    if n <= 0 {
        Seq::empty()
    } else {
        tokens_upto(code, n - 1) + emitted(code, n - 1)
    }
}

/// The text holds only commands, and no run of a repeatable command is longer
/// than 255.
pub open spec fn tokenizable(code: Seq<char>) -> bool {
    &&& forall|i: int| 0 <= i < code.len() ==> is_command(#[trigger] code[i])
    &&& forall|i: int| 0 <= i < code.len() && is_repeatable(code[i]) ==> #[trigger] run_len(code, i) <= 255
}

/// Whether `tokenize` accepts `code` (see `tokenizable`).
pub fn can_tokenize(code: &Vec<char>) -> (r: bool)
    ensures
        r == tokenizable(code@),
{
    let mut run: usize = 0;
    for i in 0..code.len()
        invariant
            run <= i,
            i > 0 ==> run == run_len(code@, i - 1),
            forall|j: int| 0 <= j < i ==> is_command(#[trigger] code@[j]),
            forall|j: int| 0 <= j < i && is_repeatable(code@[j]) ==> #[trigger] run_len(code@, j) <= 255,
    {
        let c = code[i];
        if i > 0 && code[i - 1] == c {
            run = run + 1;
        } else {
            run = 1;
        }
        if !(c == '+' || c == '-' || c == '>' || c == '<' || c == ',' || c == '.' || c == '['
            || c == ']') {
            assert(!is_command(code@[i as int]));
            return false;
        }
        if (c == '+' || c == '-' || c == '>' || c == '<') && run > 255 {
            assert(run_len(code@, i as int) > 255);
            return false;
        }
    }
    true
}

/// Turns a text of commands into tokens, collapsing each run of a repeatable
/// command into one token that carries the run's length.
pub fn tokenize(code: Vec<char>) -> (tokens: Vec<Tokens>)
    requires
        tokenizable(code@),
    ensures
        tokens@ == tokens_upto(code@, code@.len() as int),
{
    let mut tokens: Vec<Tokens> = Vec::new();
    let mut repeat_count: u8 = 0;
    for i in 0..code.len()
        invariant
            tokenizable(code@),
            tokens@ == tokens_upto(code@, i as int),
            repeat_count == if i < code.len() && is_repeatable(code@[i as int]) {
                run_len(code@, i as int) - 1
            } else {
                0
            },
    {
        let keyword = code[i];
        if keyword == '[' {
            tokens.push(Tokens::LoopStart);
        } else if keyword == ']' {
            tokens.push(Tokens::LoopEnd);
        } else if keyword == '.' {
            tokens.push(Tokens::Print);
        } else if keyword == ',' {
            tokens.push(Tokens::Read);
        }
        if keyword == ']' || keyword == '[' || keyword == '.' || keyword == ',' {
            // handled: the next character starts a new run
            repeat_count = 0;
        } else if i != code.len() - 1 && keyword == code[i + 1] {
            // the run goes on
            repeat_count += 1;
        } else {
            // the last character of a run
            repeat_count += 1;
            if keyword == '+' {
                tokens.push(Tokens::Inc(repeat_count));
            } else if keyword == '-' {
                tokens.push(Tokens::Dec(repeat_count));
            } else if keyword == '>' {
                tokens.push(Tokens::MovUp(repeat_count));
            } else {
                tokens.push(Tokens::MovDown(repeat_count));
            }
            repeat_count = 0;
        }
        proof {
            if i + 1 < code.len() && is_repeatable(code@[i + 1]) && code@[i + 1] != keyword {
                assert(run_len(code@, i + 1) == 1);
            }
        }
    }
    tokens
}


/// The nesting step of a token.
pub open spec fn token_step(t: Tokens) -> int {
    match t {
        Tokens::LoopStart => 1,
        Tokens::LoopEnd => -1,
        _ => 0,
    }
}

/// The nesting steps of a token stream.
pub open spec fn token_steps(tokens: Seq<Tokens>) -> Seq<int> {
    Seq::new(tokens.len(), |k: int| token_step(tokens[k]))
}

/// The number of bytes generated for a token.
pub open spec fn token_size(t: Tokens) -> int {
    match t {
        Tokens::Inc(_) => 3,
        Tokens::Dec(_) => 3,
        Tokens::MovUp(_) => 7,
        Tokens::MovDown(_) => 7,
        Tokens::LoopStart => 9,
        Tokens::LoopEnd => 5,
        Tokens::Print => 32,
        Tokens::Read => 32,
    }
}

pub open spec fn token_sizes(tokens: Seq<Tokens>) -> spec_fn(int) -> int {
    |k: int| token_size(tokens[k])
}

/// Prologue: `mov rcx, rdi`.
pub open spec fn prologue_code() -> Seq<u8> {
    seq![0x48u8, 0x89u8, 0xf9u8]
}

/// Epilogue: `mov rax, rcx; ret`.
pub open spec fn epilogue_code() -> Seq<u8> {
    seq![0x48u8, 0x89u8, 0xc8u8, 0xc3u8]
}

/// Where the code of token `k` starts.
pub open spec fn token_offset(tokens: Seq<Tokens>, k: int) -> int {
    prologue_code().len() + sum(token_sizes(tokens), k)
}

/// `cmp byte [rcx], 0; je rel32`
pub open spec fn loop_head_code(disp: u32) -> Seq<u8> {
    seq![0x80u8, 0x39u8, 0x00u8, 0x0fu8, 0x84u8] + le32(disp)
}

/// `jmp rel32`
pub open spec fn loop_tail_code(disp: u32) -> Seq<u8> {
    seq![0xe9u8] + le32(disp)
}

/// The output system call on the cell at `rcx`, saving `rcx` in `r13`.
pub open spec fn print_code() -> Seq<u8> {
    seq![0x49u8, 0x89u8, 0xcdu8] + seq![0x48u8, 0xc7u8, 0xc0u8, 0x01u8, 0x00u8, 0x00u8, 0x00u8]
        + seq![0x48u8, 0xc7u8, 0xc7u8, 0x01u8, 0x00u8, 0x00u8, 0x00u8] + seq![0x48u8, 0x89u8, 0xceu8]
        + seq![0x48u8, 0xc7u8, 0xc2u8, 0x01u8, 0x00u8, 0x00u8, 0x00u8] + seq![0x0fu8, 0x05u8]
        + seq![0x4cu8, 0x89u8, 0xe9u8]
}

/// The input system call on the cell at `rcx`, saving `rcx` in `r13`.
pub open spec fn read_code() -> Seq<u8> {
    seq![0x49u8, 0x89u8, 0xcdu8] + seq![0x48u8, 0xc7u8, 0xc0u8, 0x00u8, 0x00u8, 0x00u8, 0x00u8]
        + seq![0x48u8, 0xc7u8, 0xc7u8, 0x01u8, 0x00u8, 0x00u8, 0x00u8] + seq![0x48u8, 0x89u8, 0xceu8]
        + seq![0x48u8, 0xc7u8, 0xc2u8, 0x01u8, 0x00u8, 0x00u8, 0x00u8] + seq![0x0fu8, 0x05u8]
        + seq![0x4cu8, 0x89u8, 0xe9u8]
}

/// The code of token `k` in the finished program. A matched `[` jumps to
/// just after the `jmp` of its `]`; an unmatched one keeps a zero
/// displacement. A `]` jumps back to the compare of its `[`.
pub open spec fn token_code(tokens: Seq<Tokens>, k: int) -> Seq<u8> {
    let d = token_steps(tokens);
    match tokens[k] {
        Tokens::MovUp(i) => seq![0x48u8, 0x81u8, 0xc1u8, i, 0x00u8, 0x00u8, 0x00u8],
        Tokens::MovDown(i) => seq![0x48u8, 0x81u8, 0xe9u8, i, 0x00u8, 0x00u8, 0x00u8],
        Tokens::Inc(i) => seq![0x80u8, 0x01u8, i],
        Tokens::Dec(i) => seq![0x80u8, 0x29u8, i],
        Tokens::LoopStart => loop_head_code(
            if has_match(d, k) {
                (token_offset(tokens, match_of(d, k) + 1) - token_offset(tokens, k + 1)) as u32
            } else {
                0
            },
        ),
        Tokens::LoopEnd => loop_tail_code(
            (token_offset(tokens, opener_of(d, k) + 1) - token_offset(tokens, k) - 14) as u32,
        ),
        Tokens::Print => print_code(),
        Tokens::Read => read_code(),
    }
}

pub open spec fn token_codes(tokens: Seq<Tokens>) -> spec_fn(int) -> Seq<u8> {
    |k: int| token_code(tokens, k)
}

/// The generated program: prologue, the code of each token, epilogue.
pub open spec fn tokens_program(tokens: Seq<Tokens>) -> Seq<u8> {
    prologue_code() + concat(token_codes(tokens), tokens.len() as int) + epilogue_code()
}

/// The code of token `k` once the first `i` tokens are emitted.
pub open spec fn partial_code(tokens: Seq<Tokens>, k: int, i: int) -> Seq<u8> {
    if tokens[k] == Tokens::LoopStart && !(exists|j: int|
        j < i && #[trigger] closes(token_steps(tokens), k, j)) {
        loop_head_code(0)
    } else {
        token_code(tokens, k)
    }
}

pub open spec fn partial_codes(tokens: Seq<Tokens>, i: int) -> spec_fn(int) -> Seq<u8> {
    |k: int| partial_code(tokens, k, i)
}

proof fn lemma_partial_sizes(tokens: Seq<Tokens>, i: int)
    ensures
        forall|k: int|
            0 <= k < tokens.len() ==> #[trigger] partial_codes(tokens, i)(k).len() == token_sizes(
                tokens,
            )(k),
        forall|k: int| 0 <= k < tokens.len() ==> #[trigger] token_sizes(tokens)(k) >= 0,
{
}

proof fn lemma_append_step(tokens: Seq<Tokens>, i: int)
    requires
        0 <= i < tokens.len(),
        tokens[i] != Tokens::LoopEnd,
    ensures
        concat(partial_codes(tokens, i + 1), i + 1) == concat(partial_codes(tokens, i), i)
            + partial_code(tokens, i, i + 1),
        partial_code(tokens, i, i + 1) == if tokens[i] == Tokens::LoopStart {
            loop_head_code(0)
        } else {
            token_code(tokens, i)
        },
{
    let d = token_steps(tokens);
    let f = partial_codes(tokens, i);
    let g = partial_codes(tokens, i + 1);
    assert forall|k: int| 0 <= k < i implies #[trigger] f(k) == g(k) by {
        if exists|j: int| j < i + 1 && #[trigger] closes(d, k, j) {
            let j = choose|j: int| j < i + 1 && #[trigger] closes(d, k, j);
            assert(j != i);
        }
    }
    lemma_concat_ext(f, g, i);
    if tokens[i] == Tokens::LoopStart {
        if exists|j: int| j < i + 1 && #[trigger] closes(d, i, j) {
            let j = choose|j: int| j < i + 1 && #[trigger] closes(d, i, j);
        }
    }
}

proof fn lemma_close_step(tokens: Seq<Tokens>, i: int, p: int)
    requires
        0 <= p < i < tokens.len(),
        closes(token_steps(tokens), p, i),
    ensures
        forall|k: int|
            0 <= k < i && k != p ==> #[trigger] partial_codes(tokens, i)(k) == partial_codes(
                tokens,
                i + 1,
            )(k),
        partial_code(tokens, p, i) == loop_head_code(0),
        partial_code(tokens, p, i + 1) == loop_head_code(
            (token_offset(tokens, i + 1) - token_offset(tokens, p + 1)) as u32,
        ),
        partial_code(tokens, i, i + 1) == loop_tail_code(
            (token_offset(tokens, p + 1) - token_offset(tokens, i) - 14) as u32,
        ),
{
    let d = token_steps(tokens);
    lemma_partners(d, p, i);
    assert(tokens[p] == Tokens::LoopStart);
    assert(tokens[i] == Tokens::LoopEnd);
    assert forall|k: int| 0 <= k < i && k != p implies #[trigger] partial_codes(tokens, i)(k)
        == partial_codes(tokens, i + 1)(k) by {
        if exists|j: int| j < i + 1 && #[trigger] closes(d, k, j) {
            let j = choose|j: int| j < i + 1 && #[trigger] closes(d, k, j);
            if j == i {
                lemma_opener_unique(d, p, k, i);
            }
        }
    }
    if exists|j: int| j < i && #[trigger] closes(d, p, j) {
        let j = choose|j: int| j < i && #[trigger] closes(d, p, j);
        lemma_match_unique(d, p, i, j);
    }
    assert(closes(d, p, i));
}

proof fn lemma_patched_image(
    tokens: Seq<Tokens>,
    i: int,
    p: int,
    old_out: Seq<u8>,
    new_out: Seq<u8>,
    disp: u32,
    back: u32,
)
    requires
        0 <= p < i < tokens.len(),
        closes(token_steps(tokens), p, i),
        old_out == prologue_code() + concat(partial_codes(tokens, i), i),
        old_out.len() == token_offset(tokens, i),
        new_out.len() == old_out.len() + 5,
        forall|x: int|
            0 <= x < old_out.len() && !(token_offset(tokens, p + 1) - 4 <= x < token_offset(
                tokens,
                p + 1,
            )) ==> #[trigger] new_out[x] == old_out[x],
        forall|k: int|
            0 <= k < 4 ==> #[trigger] new_out[token_offset(tokens, p + 1) - 4 + k] == le32(disp)[k],
        forall|k: int|
            0 <= k < 5 ==> #[trigger] new_out[old_out.len() + k] == loop_tail_code(back)[k],
        disp == (token_offset(tokens, i + 1) - token_offset(tokens, p + 1)) as u32,
        back == (token_offset(tokens, p + 1) - token_offset(tokens, i) - 14) as u32,
    ensures
        new_out == prologue_code() + concat(partial_codes(tokens, i + 1), i + 1),
{
    let f = partial_codes(tokens, i);
    let g = partial_codes(tokens, i + 1);
    lemma_close_step(tokens, i, p);
    lemma_partial_sizes(tokens, i);
    lemma_partial_sizes(tokens, i + 1);
    lemma_concat_len(f, token_sizes(tokens), i);
    lemma_concat_len(f, token_sizes(tokens), p);
    lemma_concat_replace(f, g, i, p);
    lemma_concat_at(f, p, i);
    let base = prologue_code().len();
    let off_p = concat(f, p).len();
    assert(token_offset(tokens, p + 1) == base + off_p + 9);
    let target = prologue_code() + concat(g, i + 1);
    assert(concat(g, i + 1) == concat(g, i) + g(i));
    assert(g(p) == loop_head_code(disp));
    assert(f(p) == loop_head_code(0));
    assert(g(i) == loop_tail_code(back));
    assert forall|x: int| 0 <= x < new_out.len() implies #[trigger] new_out[x] == target[x] by {
        if x < base {
        } else if x < base + concat(f, i).len() {
            let y = x - base;
            assert(target[x] == concat(g, i)[y]);
            if off_p <= y < off_p + 9 {
                assert(concat(g, i)[y] == g(p)[y - off_p]);
                assert(concat(f, i)[off_p + (y - off_p)] == f(p)[y - off_p]);
                if y - off_p < 5 {
                    assert(loop_head_code(0)[y - off_p] == loop_head_code(disp)[y - off_p]);
                } else {
                    let k = y - off_p - 5;
                    assert(x == token_offset(tokens, p + 1) - 4 + k);
                    assert(loop_head_code(disp)[y - off_p] == le32(disp)[k]);
                }
            } else {
                assert(old_out[x] == concat(f, i)[y]);
            }
        } else {
            let k = x - old_out.len();
            assert(new_out[old_out.len() + k] == loop_tail_code(back)[k]);
            assert(target[x] == g(i)[x - base - concat(g, i).len()]);
        }
    }
    assert(new_out =~= target);
}

proof fn lemma_le32_zero()
    ensures
        le32(0) == seq![0u8, 0u8, 0u8, 0u8],
{
    assert((0u32 >> 8u32) as u8 == 0) by (bit_vector);
    assert((0u32 >> 16u32) as u8 == 0) by (bit_vector);
    assert((0u32 >> 24u32) as u8 == 0) by (bit_vector);
    assert(le32(0) =~= seq![0u8, 0u8, 0u8, 0u8]);
}

proof fn lemma_bytes_of_usize(x: usize)
    requires
        x < 0x1_0000_0000,
    ensures
        (x >> 24usize) as u8 == ((x as u32) >> 24u32) as u8,
        (x >> 16usize) as u8 == ((x as u32) >> 16u32) as u8,
        (x >> 8usize) as u8 == ((x as u32) >> 8u32) as u8,
        x as u8 == (x as u32) as u8,
{
    assert((x >> 24usize) as u8 == ((x as u32) >> 24u32) as u8) by (bit_vector)
        requires
            x < 0x1_0000_0000,
    ;
    assert((x >> 16usize) as u8 == ((x as u32) >> 16u32) as u8) by (bit_vector)
        requires
            x < 0x1_0000_0000,
    ;
    assert((x >> 8usize) as u8 == ((x as u32) >> 8u32) as u8) by (bit_vector)
        requires
            x < 0x1_0000_0000,
    ;
    assert(x as u8 == (x as u32) as u8) by (bit_vector)
        requires
            x < 0x1_0000_0000,
    ;
}

proof fn lemma_bytes_of_i32(x: i32)
    ensures
        (x >> 24i32) as u8 == ((x as u32) >> 24u32) as u8,
        (x >> 16i32) as u8 == ((x as u32) >> 16u32) as u8,
        (x >> 8i32) as u8 == ((x as u32) >> 8u32) as u8,
        x as u8 == (x as u32) as u8,
{
    assert((x >> 24i32) as u8 == ((x as u32) >> 24u32) as u8) by (bit_vector);
    assert((x >> 16i32) as u8 == ((x as u32) >> 16u32) as u8) by (bit_vector);
    assert((x >> 8i32) as u8 == ((x as u32) >> 8u32) as u8) by (bit_vector);
    assert(x as u8 == (x as u32) as u8) by (bit_vector);
}

fn token_size_exec(t: Tokens) -> (r: usize)
    ensures
        r == token_size(t),
{
    match t {
        Tokens::Inc(_) => 3,
        Tokens::Dec(_) => 3,
        Tokens::MovUp(_) => 7,
        Tokens::MovDown(_) => 7,
        Tokens::LoopStart => 9,
        Tokens::LoopEnd => 5,
        Tokens::Print => 32,
        Tokens::Read => 32,
    }
}

/// The code of every loop, from just after its head to the end of its tail,
/// is shorter than `0x7fff_0000` bytes, so both of its jump displacements fit
/// in 32 bits.
pub open spec fn token_loops_fit(tokens: Seq<Tokens>) -> bool {
    forall|p: int, j: int|
        #[trigger] closes(token_steps(tokens), p, j) ==> token_offset(tokens, j + 1) - token_offset(
            tokens,
            p + 1,
        ) < 0x7fff_0000
}

/// Whether `compile` accepts the stream: it never closes more loops than it
/// opened, each loop's jumps fit in 32 bits (see `token_loops_fit`), and the
/// code fits in memory (`usize`).
pub fn can_compile(tokens: &Vec<Tokens>) -> (r: bool)
    ensures
        r == (never_below_zero(token_steps(tokens@)) && token_loops_fit(tokens@) && token_offset(
            tokens@,
            tokens.len() as int,
        ) <= usize::MAX),
{
    let ghost d = token_steps(tokens@);
    let ghost n = tokens.len() as int;
    let mut stack: Vec<usize> = Vec::new();
    let ghost mut gst: Seq<int> = Seq::empty();
    let mut size: usize = 3;
    proof {
        lemma_partial_sizes(tokens@, 0);
        lemma_scan_start(d);
    }
    for j in 0..tokens.len()
        invariant
            d == token_steps(tokens@),
            n == tokens.len(),
            forall|k: int| 0 <= k < n ==> #[trigger] token_sizes(tokens@)(k) >= 0,
            forall|k: int| 0 <= k <= j ==> #[trigger] depth(d, 0, k) >= 0,
            scan_state(d, j as int, gst),
            stack.len() == gst.len(),
            forall|t: int| 0 <= t < gst.len() ==> #[trigger] stack@[t] == token_offset(tokens@, gst[t] + 1),
            size == token_offset(tokens@, j as int),
            forall|p: int, q: int|
                q < j && #[trigger] closes(d, p, q) ==> token_offset(tokens@, q + 1) - token_offset(
                    tokens@,
                    p + 1,
                ) < 0x7fff_0000,
    {
        let t = tokens[j];
        let s = token_size_exec(t);
        if size > usize::MAX - s {
            proof {
                lemma_sum_monotone(token_sizes(tokens@), j + 1, n);
            }
            return false;
        }
        size = size + s;
        proof {
            assert(depth(d, 0, j + 1) == depth(d, 0, j as int) + d[j as int]);
        }
        if t == Tokens::LoopStart {
            proof {
                lemma_scan_open(d, j as int, gst);
                gst = gst.push(j as int);
            }
            stack.push(size);
        } else if t == Tokens::LoopEnd {
            if stack.len() == 0 {
                proof {
                    lemma_scan_underflow(d, j as int, gst);
                }
                return false;
            }
            let ghost p = gst.last();
            proof {
                lemma_scan_close(d, j as int, gst);
                lemma_sum_monotone(token_sizes(tokens@), p + 1, j + 1);
            }
            let start = stack.pop().unwrap();
            proof {
                gst = gst.drop_last();
            }
            if size - start >= 0x7fff_0000 {
                proof {
                    assert(closes(d, p, j as int));
                }
                return false;
            }
            proof {
                assert forall|p2: int, q: int|
                    q < j + 1 && #[trigger] closes(d, p2, q) implies token_offset(tokens@, q + 1)
                    - token_offset(tokens@, p2 + 1) < 0x7fff_0000 by {
                    if q == j {
                        lemma_opener_unique(d, p, p2, q);
                    }
                }
            }
        } else {
            proof {
                lemma_scan_neutral(d, j as int, gst);
            }
        }
    }
    true
}

/// Generates x86-64 code for a token stream, one instruction sequence per
/// token, with the `[` jumps patched once their `]` is reached. The stream
/// must never close more loops than it opened, and each loop's code must stay
/// well below 2 GiB so that its jump displacements fit in 32 bits.
#[verifier::rlimit(40)]
pub fn compile(tokens: Vec<Tokens>) -> (code: Vec<u8>)
    requires
        never_below_zero(token_steps(tokens@)),
        token_loops_fit(tokens@),
    ensures
        code@ == tokens_program(tokens@),
{
    let ghost d = token_steps(tokens@);
    let ghost n = tokens.len() as int;
    let mut out: Vec<u8> = Vec::new();
    out.push(0x48);
    out.push(0x89);
    out.push(0xf9);
    let mut stack: Vec<usize> = Vec::new();
    let ghost mut gst: Seq<int> = Seq::empty();
    proof {
        lemma_scan_start(d);
        lemma_partial_sizes(tokens@, 0);
        assert(out@ =~= prologue_code() + concat(partial_codes(tokens@, 0), 0));
    }
    for idx in 0..tokens.len()
        invariant
            d == token_steps(tokens@),
            n == tokens.len(),
            never_below_zero(d),
            token_loops_fit(tokens@),
            out@ == prologue_code() + concat(partial_codes(tokens@, idx as int), idx as int),
            out.len() == token_offset(tokens@, idx as int),
            scan_state(d, idx as int, gst),
            stack.len() == gst.len(),
            forall|t: int| 0 <= t < gst.len() ==> #[trigger] stack@[t] == token_offset(tokens@, gst[t] + 1),
    {
        let ghost i = idx as int;
        let ghost old_out = out@;
        proof {
            lemma_partial_sizes(tokens@, i);
            lemma_concat_len(partial_codes(tokens@, i), token_sizes(tokens@), i);
            lemma_sum_monotone(token_sizes(tokens@), i + 1, n);
        }
        let token = tokens[idx];
        match token {
            Tokens::LoopEnd => {
                if stack.len() == 0 {
                    proof {
                        lemma_scan_underflow(d, i, gst);
                    }
                }
                let ghost p = gst.last();
                proof {
                    lemma_scan_close(d, i, gst);
                    lemma_sum_monotone(token_sizes(tokens@), p + 1, i);
                    lemma_sum_monotone(token_sizes(tokens@), 0, p);
                    assert(sum(token_sizes(tokens@), p + 1) == sum(token_sizes(tokens@), p) + 9);
                }
                let beginning = stack.pop().unwrap();
                proof {
                    gst = gst.drop_last();
                }
                // jump back to the compare of the matching `[`
                let offset: i32 = -((out.len() - beginning) as i32) - 14;
                let (a, b, c, d) = (
                    (offset >> 24) as u8,
                    (offset >> 16) as u8,
                    (offset >> 8) as u8,
                    offset as u8,
                );
                out.push(0xE9);
                out.push(d);
                out.push(c);
                out.push(b);
                out.push(a);
                // patch the `je` of the matching `[`
                let jump_to = out.len();
                let offset2 = jump_to - beginning;
                let replace_addr = beginning - 4;
                out.set(replace_addr + 3, (offset2 >> 24) as u8);
                out.set(replace_addr + 2, (offset2 >> 16) as u8);
                out.set(replace_addr + 1, (offset2 >> 8) as u8);
                out.set(replace_addr + 0, offset2 as u8);
                proof {
                    lemma_bytes_of_i32(offset);
                    lemma_bytes_of_usize(offset2);
                    let disp = (token_offset(tokens@, i + 1) - token_offset(tokens@, p + 1)) as u32;
                    let back = (token_offset(tokens@, p + 1) - token_offset(tokens@, i) - 14) as u32;
                    assert(jump_to == token_offset(tokens@, i + 1));
                    assert(offset2 as u32 == disp);
                    assert(offset as u32 == back);
                    assert(out@[replace_addr as int] == le32(disp)[0]);
                    assert(out@[replace_addr + 1] == le32(disp)[1]);
                    assert(out@[replace_addr + 2] == le32(disp)[2]);
                    assert(out@[replace_addr + 3] == le32(disp)[3]);
                    assert(out@[old_out.len() as int + 1] == le32(back)[0]);
                    assert(out@[old_out.len() as int + 2] == le32(back)[1]);
                    assert(out@[old_out.len() as int + 3] == le32(back)[2]);
                    assert(out@[old_out.len() as int + 4] == le32(back)[3]);
                    lemma_patched_image(tokens@, i, p, old_out, out@, disp, back);
                }
            },
            _ => {
                proof {
                    lemma_append_step(tokens@, i);
                }
                match token {
                    Tokens::MovUp(i) => {
                        let mut ext = vec![0x48, 0x81, 0xc1, i, 0x00, 0x00, 0x00];
                        out.append(&mut ext);
                    },
                    Tokens::MovDown(i) => {
                        let mut ext = vec![0x48, 0x81, 0xe9, i, 0x00, 0x00, 0x00];
                        out.append(&mut ext);
                    },
                    Tokens::Inc(i) => {
                        let mut ext = vec![0x80, 0x01, i];
                        out.append(&mut ext);
                    },
                    Tokens::Dec(i) => {
                        let mut ext = vec![0x80, 0x29, i];
                        out.append(&mut ext);
                    },
                    Tokens::LoopStart => {
                        let mut ext = vec![0x80, 0x39, 0x00, 0x0f, 0x84, 0x00, 0x00, 0x00, 0x00];
                        out.append(&mut ext);
                        proof {
                            lemma_le32_zero();
                        }
                        proof {
                            lemma_scan_open(d, i, gst);
                            gst = gst.push(i);
                        }
                        stack.push(out.len());
                    },
                    Tokens::Print => {
                        let mut ext = vec![
                            0x49, 0x89, 0xcd, 0x48, 0xc7, 0xc0, 0x01, 0x00, 0x00, 0x00, 0x48, 0xc7,
                            0xc7, 0x01, 0x00, 0x00, 0x00, 0x48, 0x89, 0xce, 0x48, 0xc7, 0xc2, 0x01,
                            0x00, 0x00, 0x00, 0x0f, 0x05, 0x4c, 0x89, 0xe9,
                        ];
                        out.append(&mut ext);
                    },
                    Tokens::Read => {
                        let mut ext = vec![
                            0x49, 0x89, 0xcd, 0x48, 0xc7, 0xc0, 0x00, 0x00, 0x00, 0x00, 0x48, 0xc7,
                            0xc7, 0x01, 0x00, 0x00, 0x00, 0x48, 0x89, 0xce, 0x48, 0xc7, 0xc2, 0x01,
                            0x00, 0x00, 0x00, 0x0f, 0x05, 0x4c, 0x89, 0xe9,
                        ];
                        out.append(&mut ext);
                    },
                    Tokens::LoopEnd => {},
                }
                proof {
                    if token != Tokens::LoopStart {
                        lemma_scan_neutral(d, i, gst);
                    }
                    assert(out@ =~= prologue_code() + concat(partial_codes(tokens@, i + 1), i + 1));
                }
            },
        }
    }
    out.push(0x48);
    out.push(0x89);
    out.push(0xc8);
    out.push(0xc3);
    proof {
        let f = partial_codes(tokens@, n);
        let g = token_codes(tokens@);
        assert forall|k: int| 0 <= k < n implies #[trigger] f(k) == g(k) by {
            if tokens@[k] == Tokens::LoopStart {
                if has_match(d, k) {
                    let j = choose|j: int| closes(d, k, j);
                    assert(j < n && closes(d, k, j));
                } else {
                    if exists|j: int| j < n && #[trigger] closes(d, k, j) {
                        let j = choose|j: int| j < n && #[trigger] closes(d, k, j);
                        assert(has_match(d, k));
                    }
                }
            }
        }
        lemma_concat_ext(f, g, n);
        assert(out@ =~= tokens_program(tokens@));
    }
    out
}


/// In the generated program the `je` of a matched `[` lands just after the
/// `jmp` of its `]`, and that `jmp` lands on the `[`'s compare.
pub proof fn law_loop_jumps(tokens: Seq<Tokens>, p: int, j: int)
    requires
        token_loops_fit(tokens),
        closes(token_steps(tokens), p, j),
    ensures
        ({
            let disp = (token_offset(tokens, j + 1) - token_offset(tokens, p + 1)) as u32;
            &&& token_code(tokens, p) == loop_head_code(disp)
            &&& jump_target(token_offset(tokens, p + 1), disp) == token_offset(tokens, j + 1)
        }),
        ({
            let back = (token_offset(tokens, p) - token_offset(tokens, j + 1)) as u32;
            &&& token_code(tokens, j) == loop_tail_code(back)
            &&& jump_target(token_offset(tokens, j + 1), back) == token_offset(tokens, p)
        }),
{
    let d = token_steps(tokens);
    let n = tokens.len() as int;
    lemma_partners(d, p, j);
    lemma_partial_sizes(tokens, 0);
    lemma_sum_monotone(token_sizes(tokens), 0, p);
    lemma_sum_monotone(token_sizes(tokens), p + 1, j);
    lemma_sum_monotone(token_sizes(tokens), j + 1, n);
    assert(d[p] == token_step(tokens[p]));
    assert(d[j] == token_step(tokens[j]));
    assert(tokens[p] == Tokens::LoopStart);
    assert(tokens[j] == Tokens::LoopEnd);
    assert(token_offset(tokens, p + 1) == token_offset(tokens, p) + 9);
    assert(token_offset(tokens, j + 1) == token_offset(tokens, j) + 5);
    lemma_disp_roundtrip(token_offset(tokens, j + 1) - token_offset(tokens, p + 1));
    lemma_disp_roundtrip(token_offset(tokens, p) - token_offset(tokens, j + 1));
}


/// The text a token stands for.
pub open spec fn token_text(t: Tokens) -> Seq<char> {
    match t {
        Tokens::Inc(n) => Seq::new(n as nat, |i: int| '+'),
        Tokens::Dec(n) => Seq::new(n as nat, |i: int| '-'),
        Tokens::MovUp(n) => Seq::new(n as nat, |i: int| '>'),
        Tokens::MovDown(n) => Seq::new(n as nat, |i: int| '<'),
        Tokens::LoopStart => seq!['['],
        Tokens::LoopEnd => seq![']'],
        Tokens::Print => seq!['.'],
        Tokens::Read => seq![','],
    }
}

/// The text a token stream stands for.
pub open spec fn expand(ts: Seq<Tokens>) -> Seq<char>
    decreases ts.len(),
{
    if ts.len() == 0 {
        Seq::empty()
    } else {
        expand(ts.drop_last()) + token_text(ts.last())
    }
}

proof fn lemma_expand_concat(a: Seq<Tokens>, b: Seq<Tokens>)
    ensures
        expand(a + b) == expand(a) + expand(b),
    decreases b.len(),
{
    if b.len() == 0 {
        assert(a + b =~= a);
        assert(expand(a) + expand(b) =~= expand(a));
    } else {
        lemma_expand_concat(a, b.drop_last());
        assert((a + b).drop_last() =~= a + b.drop_last());
        assert(expand(a + b) =~= expand(a) + expand(b));
    }
}

proof fn lemma_expand_single(t: Tokens)
    ensures
        expand(seq![t]) == token_text(t),
{
    assert(seq![t].drop_last() =~= Seq::<Tokens>::empty());
    assert(expand(Seq::<Tokens>::empty()) == Seq::<char>::empty());
    assert(expand(seq![t]) =~= token_text(t));
}

proof fn lemma_run(code: Seq<char>, k: int)
    requires
        0 <= k < code.len(),
    ensures
        1 <= run_len(code, k) <= k + 1,
        forall|m: int| k - run_len(code, k) < m <= k ==> #[trigger] code[m] == code[k],
    decreases k,
{
    if k > 0 {
        lemma_run(code, k - 1);
    }
}

/// How many characters of an unfinished run lie just before position `i`.
pub open spec fn pending(code: Seq<char>, i: int) -> int {
    if 0 < i < code.len() && is_repeatable(code[i - 1]) && code[i] == code[i - 1] {
        run_len(code, i - 1)
    } else {
        0
    }
}

proof fn lemma_expand_upto(code: Seq<char>, i: int)
    requires
        tokenizable(code),
        0 <= i <= code.len(),
    ensures
        0 <= pending(code, i) <= i,
        expand(tokens_upto(code, i)) == code.take(i - pending(code, i)),
    decreases i,
{
    if i == 0 {
        assert(code.take(0) =~= Seq::<char>::empty());
    } else {
        let k = i - 1;
        let c = code[k];
        lemma_expand_upto(code, k);
        lemma_run(code, k);
        lemma_expand_concat(tokens_upto(code, k), emitted(code, k));
        assert(is_command(code[k]));
        if k > 0 {
            lemma_run(code, k - 1);
        }
        if !is_repeatable(c) {
            assert(pending(code, k) == 0);
            lemma_expand_single(emitted(code, k)[0]);
            assert(emitted(code, k) == seq![emitted(code, k)[0]]);
            assert(expand(emitted(code, k)) =~= seq![c]);
            assert(code.take(i) =~= code.take(k) + seq![c]);
        } else if i < code.len() && code[i] == c {
            assert(emitted(code, k) =~= Seq::<Tokens>::empty());
            assert(expand(emitted(code, k)) =~= Seq::<char>::empty());
            assert(run_len(code, k) == pending(code, k) + 1);
        } else {
            let r = run_len(code, k);
            assert(r <= 255);
            assert(r == pending(code, k) + 1);
            assert(emitted(code, k) == seq![run_token(c, r as u8)]);
            lemma_expand_single(run_token(c, r as u8));
            assert(token_text(run_token(c, r as u8)) =~= Seq::new(r as nat, |m: int| c));
            assert(code.take(i) =~= code.take(k - pending(code, k)) + Seq::new(r as nat, |m: int| c));
        }
    }
}

/// Tokenizing loses nothing: the tokens of a text stand for exactly that
/// text.
pub proof fn law_tokens_expand_to_text(code: Seq<char>)
    requires
        tokenizable(code),
    ensures
        expand(tokens_upto(code, code.len() as int)) == code,
{
    lemma_expand_upto(code, code.len() as int);
    assert(code.take(code.len() as int) =~= code);
}

/// The code of a token stream without its prologue and epilogue.
pub open spec fn tokens_body(tokens: Seq<Tokens>) -> Seq<u8> {
    concat(token_codes(tokens), tokens.len() as int)
}

/// The stream never closes more loops than it opened, and closes all it
/// opened.
pub open spec fn tokens_balanced(tokens: Seq<Tokens>) -> bool {
    &&& never_below_zero(token_steps(tokens))
    &&& depth(token_steps(tokens), 0, tokens.len() as int) == 0
}

proof fn lemma_token_offsets_concat(a: Seq<Tokens>, b: Seq<Tokens>)
    ensures
        forall|x: int| 0 <= x <= a.len() ==> #[trigger] token_offset(a + b, x) == token_offset(a, x),
        forall|x: int|
            0 <= x <= b.len() ==> #[trigger] token_offset(a + b, a.len() + x) == token_offset(
                a,
                a.len() as int,
            ) + token_offset(b, x) - prologue_code().len(),
{
    let ab = a + b;
    assert forall|x: int| 0 <= x <= a.len() implies #[trigger] token_offset(ab, x) == token_offset(a, x) by {
        assert forall|k: int| 0 <= k < x implies #[trigger] token_sizes(ab)(k) == token_sizes(a)(k) by {
            assert(ab[k] == a[k]);
        }
        lemma_sum_ext(token_sizes(ab), token_sizes(a), x);
    }
    assert forall|x: int| 0 <= x <= b.len() implies #[trigger] token_offset(ab, a.len() + x)
        == token_offset(a, a.len() as int) + token_offset(b, x) - prologue_code().len() by {
        assert forall|k: int| 0 <= k < x implies #[trigger] token_sizes(b)(k) == token_sizes(ab)(
            a.len() + k,
        ) by {
            assert(ab[a.len() + k] == b[k]);
        }
        lemma_sum_split(token_sizes(ab), token_sizes(b), a.len() as int, x);
        assert forall|k: int| 0 <= k < a.len() implies #[trigger] token_sizes(ab)(k) == token_sizes(a)(k) by {
            assert(ab[k] == a[k]);
        }
        lemma_sum_ext(token_sizes(ab), token_sizes(a), a.len() as int);
    }
}

proof fn lemma_token_unit_steps(ts: Seq<Tokens>)
    ensures
        unit_steps(token_steps(ts)),
{
}

/// Each token of a concatenation of balanced streams has the code it has in
/// its own stream.
proof fn lemma_token_code_concat(a: Seq<Tokens>, b: Seq<Tokens>, k: int)
    requires
        tokens_balanced(a),
        tokens_balanced(b),
        0 <= k < a.len() + b.len(),
    ensures
        k < a.len() ==> token_code(a + b, k) == token_code(a, k),
        k >= a.len() ==> token_code(a + b, k) == token_code(b, k - a.len()),
{
    let ab = a + b;
    let da = token_steps(a);
    let db = token_steps(b);
    let d = token_steps(ab);
    assert(d =~= da + db);
    lemma_token_offsets_concat(a, b);
    lemma_token_unit_steps(a);
    lemma_token_unit_steps(b);
    if k < a.len() {
        assert(ab[k] == a[k]);
        assert(da[k] == token_step(a[k]));
        lemma_balanced_matches(da, k);
        if a[k] == Tokens::LoopStart {
            let j = choose|j: int| closes(da, k, j);
            lemma_closes_left(da, db, k, j);
            lemma_partners(da, k, j);
            lemma_partners(d, k, j);
        } else if a[k] == Tokens::LoopEnd {
            let p = choose|p: int| closes(da, p, k);
            lemma_closes_left(da, db, p, k);
            lemma_partners(da, p, k);
            lemma_partners(d, p, k);
        }
    } else {
        let k2 = k - a.len();
        assert(ab[k] == b[k2]);
        assert(db[k2] == token_step(b[k2]));
        lemma_balanced_matches(db, k2);
        if b[k2] == Tokens::LoopStart {
            let j = choose|j: int| closes(db, k2, j);
            lemma_closes_right(da, db, k2, j);
            lemma_partners(db, k2, j);
            lemma_partners(d, k, a.len() + j);
            assert(token_offset(ab, a.len() + (j + 1)) - token_offset(ab, a.len() + (k2 + 1))
                == token_offset(b, j + 1) - token_offset(b, k2 + 1));
        } else if b[k2] == Tokens::LoopEnd {
            let p = choose|p: int| closes(db, p, k2);
            lemma_closes_right(da, db, p, k2);
            lemma_partners(db, p, k2);
            lemma_partners(d, a.len() + p, k);
            assert(token_offset(ab, a.len() + (p + 1)) - token_offset(ab, a.len() + k2)
                == token_offset(b, p + 1) - token_offset(b, k2));
        }
    }
}

/// Jumps are relative, so the code of two balanced token streams run one
/// after the other is the code of the first followed by that of the second.
pub proof fn law_body_of_concat(a: Seq<Tokens>, b: Seq<Tokens>)
    requires
        tokens_balanced(a),
        tokens_balanced(b),
    ensures
        tokens_balanced(a + b),
        token_loops_fit(a) && token_loops_fit(b) ==> token_loops_fit(a + b),
        tokens_body(a + b) == tokens_body(a) + tokens_body(b),
        tokens_program(a + b) == prologue_code() + tokens_body(a) + tokens_body(b) + epilogue_code(),
{
    let ab = a + b;
    let da = token_steps(a);
    let db = token_steps(b);
    assert(token_steps(ab) =~= da + db);
    lemma_balanced_concat(da, db);
    lemma_token_offsets_concat(a, b);
    if token_loops_fit(a) && token_loops_fit(b) {
        assert forall|p: int, j: int| #[trigger] closes(token_steps(ab), p, j) implies token_offset(
            ab,
            j + 1,
        ) - token_offset(ab, p + 1) < 0x7fff_0000 by {
            if j < a.len() {
                lemma_closes_left_back(da, db, p, j);
                assert(closes(da, p, j));
            } else {
                assert(p >= a.len());
                let p2 = p - a.len();
                let j2 = j - a.len();
                assert(closes(da + db, a.len() + p2, a.len() + j2));
                lemma_closes_right_back(da, db, p2, j2);
                assert(closes(db, p2, j2));
                assert(token_offset(ab, a.len() + (j2 + 1)) - token_offset(ab, a.len() + (p2 + 1))
                    == token_offset(b, j2 + 1) - token_offset(b, p2 + 1));
            }
        }
    }
    let g = |k: int| token_code(ab, a.len() + k);
    assert forall|k: int| 0 <= k < b.len() implies #[trigger] g(k) == token_codes(ab)(a.len() + k) by {}
    lemma_concat_split(token_codes(ab), g, a.len() as int, b.len() as int);
    assert forall|k: int| 0 <= k < a.len() implies #[trigger] token_codes(ab)(k) == token_codes(a)(k) by {
        lemma_token_code_concat(a, b, k);
    }
    lemma_concat_ext(token_codes(ab), token_codes(a), a.len() as int);
    assert forall|k: int| 0 <= k < b.len() implies #[trigger] g(k) == token_codes(b)(k) by {
        lemma_token_code_concat(a, b, a.len() + k);
    }
    lemma_concat_ext(g, token_codes(b), b.len() as int);
    assert(ab.len() == a.len() + b.len());
}

proof fn lemma_token_code_len(tokens: Seq<Tokens>)
    ensures
        forall|k: int| 0 <= k < tokens.len() ==> #[trigger] token_codes(tokens)(k).len() == token_sizes(tokens)(k),
{
}

/// In the generated program the code of each token stands at its offset and
/// does its work on the cell at `rcx`: `Inc(n)` adds `n` to it
/// (`add byte [rcx], n`), `Dec(n)` subtracts `n` (`sub byte [rcx], n`),
/// `MovUp(n)` adds `n` to `rcx`, `MovDown(n)` subtracts it, and
/// `Print`/`Read` make the `write`/`read` system call (`rax` 1 or 0) on
/// descriptor 1 for one byte at `rcx` (`mov rsi, rcx`).
pub proof fn law_token_instruction_code(tokens: Seq<Tokens>, k: int)
    requires
        0 <= k < tokens.len(),
    ensures
        tokens[k] matches Tokens::Inc(n) ==> code_at(
            tokens_program(tokens),
            token_offset(tokens, k),
            seq![0x80u8, 0x01u8, n],
        ),
        tokens[k] matches Tokens::Dec(n) ==> code_at(
            tokens_program(tokens),
            token_offset(tokens, k),
            seq![0x80u8, 0x29u8, n],
        ),
        tokens[k] matches Tokens::MovUp(n) ==> code_at(
            tokens_program(tokens),
            token_offset(tokens, k),
            seq![0x48u8, 0x81u8, 0xc1u8, n, 0u8, 0u8, 0u8],
        ),
        tokens[k] matches Tokens::MovDown(n) ==> code_at(
            tokens_program(tokens),
            token_offset(tokens, k),
            seq![0x48u8, 0x81u8, 0xe9u8, n, 0u8, 0u8, 0u8],
        ),
        tokens[k] == Tokens::Print ==> code_at(
            tokens_program(tokens),
            token_offset(tokens, k) + 3,
            seq![0x48u8, 0xc7u8, 0xc0u8, 1u8, 0u8, 0u8, 0u8, 0x48u8, 0xc7u8, 0xc7u8, 1u8, 0u8, 0u8, 0u8,
                0x48u8, 0x89u8, 0xceu8, 0x48u8, 0xc7u8, 0xc2u8, 1u8, 0u8, 0u8, 0u8, 0x0fu8, 0x05u8],
        ),
        tokens[k] == Tokens::Read ==> code_at(
            tokens_program(tokens),
            token_offset(tokens, k) + 3,
            seq![0x48u8, 0xc7u8, 0xc0u8, 0u8, 0u8, 0u8, 0u8, 0x48u8, 0xc7u8, 0xc7u8, 1u8, 0u8, 0u8, 0u8,
                0x48u8, 0x89u8, 0xceu8, 0x48u8, 0xc7u8, 0xc2u8, 1u8, 0u8, 0u8, 0u8, 0x0fu8, 0x05u8],
        ),
{
    let n = tokens.len() as int;
    let f = token_codes(tokens);
    lemma_token_code_len(tokens);
    lemma_piece_at(f, token_sizes(tokens), k, n);
    let code = tokens_program(tokens);
    let base = token_offset(tokens, k);
    assert(prologue_code().len() == 3);
    assert forall|x: int| 0 <= x < f(k).len() implies #[trigger] code[base + x] == f(k)[x] by {
        assert(code[base + x] == concat(f, n)[sum(token_sizes(tokens), k) + x]);
    }
    match tokens[k] {
        Tokens::Print => {
            let want = seq![0x48u8, 0xc7u8, 0xc0u8, 1u8, 0u8, 0u8, 0u8, 0x48u8, 0xc7u8, 0xc7u8, 1u8, 0u8, 0u8, 0u8,
                0x48u8, 0x89u8, 0xceu8, 0x48u8, 0xc7u8, 0xc2u8, 1u8, 0u8, 0u8, 0u8, 0x0fu8, 0x05u8];
            assert(f(k) =~= seq![0x49u8, 0x89u8, 0xcdu8] + want + seq![0x4cu8, 0x89u8, 0xe9u8]);
            assert forall|x: int| 0 <= x < want.len() implies #[trigger] code[base + 3 + x] == want[x] by {
                assert(code[base + (3 + x)] == f(k)[3 + x]);
            }
        },
        Tokens::Read => {
            let want = seq![0x48u8, 0xc7u8, 0xc0u8, 0u8, 0u8, 0u8, 0u8, 0x48u8, 0xc7u8, 0xc7u8, 1u8, 0u8, 0u8, 0u8,
                0x48u8, 0x89u8, 0xceu8, 0x48u8, 0xc7u8, 0xc2u8, 1u8, 0u8, 0u8, 0u8, 0x0fu8, 0x05u8];
            assert(f(k) =~= seq![0x49u8, 0x89u8, 0xcdu8] + want + seq![0x4cu8, 0x89u8, 0xe9u8]);
            assert forall|x: int| 0 <= x < want.len() implies #[trigger] code[base + 3 + x] == want[x] by {
                assert(code[base + (3 + x)] == f(k)[3 + x]);
            }
        },
        _ => {},
    }
}

} // verus!
