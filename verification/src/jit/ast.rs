//! Tokens and the syntax tree of a Brainfuck program.
use vstd::prelude::*;
use crate::brackets::{depth, lemma_depth_split};

verus! {

/// One Brainfuck command.
#[derive(Debug, Clone, PartialEq, Eq, Copy, Structural)]
pub enum Token {
    Inc,
    Dec,
    MovUp,
    MovDown,
    LoopStart,
    LoopEnd,
    Print,
    Read,
}

/// The token of a command character; other characters have none.
pub open spec fn token_of(c: char) -> Option<Token> {
    if c == '[' {
        Some(Token::LoopStart)
    } else if c == ']' {
        Some(Token::LoopEnd)
    } else if c == '.' {
        Some(Token::Print)
    } else if c == ',' {
        Some(Token::Read)
    } else if c == '+' {
        Some(Token::Inc)
    } else if c == '-' {
        Some(Token::Dec)
    } else if c == '>' {
        Some(Token::MovUp)
    } else if c == '<' {
        Some(Token::MovDown)
    } else {
        None
    }
}

/// The tokens of a text: one per command character, in order.
pub open spec fn tokens_of(code: Seq<char>) -> Seq<Token> {
    code.filter_map(|c: char| token_of(c))
}

/// The command character a token is written as.
pub open spec fn token_char(t: Token) -> char {
    match t {
        Token::Inc => '+',
        Token::Dec => '-',
        Token::MovUp => '>',
        Token::MovDown => '<',
        Token::LoopStart => '[',
        Token::LoopEnd => ']',
        Token::Print => '.',
        Token::Read => ',',
    }
}

/// Exactly the eight command characters have a token, and each token is
/// written as the character it was read from.
pub proof fn law_token_of_reads_commands(c: char)
    ensures
        token_of(c) is Some <==> (c == '+' || c == '-' || c == '>' || c == '<' || c == '['
            || c == ']' || c == '.' || c == ','),
        token_of(c) matches Some(t) ==> token_char(t) == c,
{
}

/// Turns each command character into its token and drops every other
/// character.
pub fn tokenize(code: Vec<char>) -> (tokens: Vec<Token>)
    ensures
        tokens@ == tokens_of(code@),
{
    let mut tokens: Vec<Token> = Vec::new();
    for i in 0..code.len()
        invariant
            tokens@ == tokens_of(code@.take(i as int)),
    {
        let keyword = code[i];
        proof {
            assert(code@.take(i + 1).drop_last() =~= code@.take(i as int));
            assert(code@.take(i + 1).last() == code@[i as int]);
        }
        if keyword == '[' {
            tokens.push(Token::LoopStart);
        } else if keyword == ']' {
            tokens.push(Token::LoopEnd);
        } else if keyword == '.' {
            tokens.push(Token::Print);
        } else if keyword == ',' {
            tokens.push(Token::Read);
        } else if keyword == '+' {
            tokens.push(Token::Inc);
        } else if keyword == '-' {
            tokens.push(Token::Dec);
        } else if keyword == '>' {
            tokens.push(Token::MovUp);
        } else if keyword == '<' {
            tokens.push(Token::MovDown);
        }
    }
    assert(code@.take(code.len() as int) =~= code@);
    tokens
}

/// One instruction of the syntax tree.
#[derive(Debug, Clone, Copy, PartialEq, Eq, Structural)]
pub enum SyntaxTreeInst {
    /// Add to the current cell.
    Add(u8),
    /// Add `change * per` to the cell at the given offset.
    AddRelative(i16, i8, i8),
    /// Subtract from the current cell.
    Sub(u8),
    /// Move the tape index up.
    Shiftup(u8),
    /// Move the tape index down.
    ShiftDown(u8),
    /// Run the next nested tree while the current cell is not zero.
    Loop,
    Print,
    Read,
    /// The end of a loop body, in flattened instruction streams.
    LoopEnd,
    /// Set the current cell to zero.
    Clear,
}

/// A block of instructions; each `Loop` instruction owns, in order, one of
/// the nested trees in `loops`.
#[derive(Debug)]
pub struct SyntaxTree {
    pub instructions: Vec<SyntaxTreeInst>,
    pub loops: Vec<SyntaxTree>,
}


/// The abstract value of a syntax tree.
pub struct TreeView {
    pub instructions: Seq<SyntaxTreeInst>,
    pub loops: Seq<TreeView>,
}

/// The abstract values of the first `n` trees of `ts`.
pub open spec fn tree_views(ts: Seq<SyntaxTree>, n: int) -> Seq<TreeView>
    decreases ts, n,
{
    if n <= 0 || n > ts.len() {
        Seq::empty()
    } else {
        tree_views(ts, n - 1).push(ts[n - 1].view_tree())
    }
}

impl SyntaxTree {
    /// The abstract value of this tree.
    pub open spec fn view_tree(&self) -> TreeView
        decreases self, 0int,
    {
        TreeView { instructions: self.instructions@, loops: tree_views(self.loops@, self.loops@.len() as int) }
    }
}


/// The number of `Loop` instructions among the first `n`.
pub open spec fn loops_before(insts: Seq<SyntaxTreeInst>, n: int) -> int
    decreases n,
{
    if n <= 0 {
        0
    } else {
        loops_before(insts, n - 1) + if insts[n - 1] == SyntaxTreeInst::Loop {
            1int
        } else {
            0int
        }
    }
}

/// Every `Loop` instruction owns exactly one nested tree, at every level.
pub open spec fn well_formed(t: TreeView) -> bool
    decreases t,
{
    &&& loops_before(t.instructions, t.instructions.len() as int) == t.loops.len()
    &&& forall|i: int| 0 <= i < t.loops.len() ==> well_formed(#[trigger] t.loops[i])
}

/// No instruction is `LoopEnd`, at any level: a tree ends its loops only
/// through the nesting of `loops`.
pub open spec fn no_loop_end(t: TreeView) -> bool
    decreases t,
{
    &&& forall|i: int| 0 <= i < t.instructions.len() ==> #[trigger] t.instructions[i] != SyntaxTreeInst::LoopEnd
    &&& forall|i: int| 0 <= i < t.loops.len() ==> no_loop_end(#[trigger] t.loops[i])
}

/// An instruction that reading a text produces: a run, a loop, an output or
/// an input (never `LoopEnd`, `Clear` or `AddRelative`).
pub open spec fn is_read_inst(i: SyntaxTreeInst) -> bool {
    match i {
        SyntaxTreeInst::Add(_) | SyntaxTreeInst::Sub(_) | SyntaxTreeInst::Shiftup(_)
        | SyntaxTreeInst::ShiftDown(_) | SyntaxTreeInst::Loop | SyntaxTreeInst::Print
        | SyntaxTreeInst::Read => true,
        _ => false,
    }
}

/// Every instruction, at every level, is one that reading a text produces.
pub open spec fn only_read_insts(t: TreeView) -> bool
    decreases t,
{
    &&& forall|i: int| 0 <= i < t.instructions.len() ==> is_read_inst(#[trigger] t.instructions[i])
    &&& forall|i: int| 0 <= i < t.loops.len() ==> only_read_insts(#[trigger] t.loops[i])
}

/// The instructions of a tree in order, each nested tree between the `Loop`
/// that owns it and a closing `LoopEnd`; first `n` instructions only.
pub open spec fn item_tokens(t: TreeView, n: int) -> Seq<SyntaxTreeInst>
    decreases t, n,
{
    if n <= 0 || n > t.instructions.len() {
        Seq::empty()
    } else {
        let prev = item_tokens(t, n - 1);
        let inst = t.instructions[n - 1];
        let k = loops_before(t.instructions, n - 1);
        if inst == SyntaxTreeInst::Loop {
            if 0 <= k < t.loops.len() {
                prev + seq![SyntaxTreeInst::Loop] + tree_tokens(t.loops[k]) + seq![
                    SyntaxTreeInst::LoopEnd,
                ]
            } else {
                prev + seq![SyntaxTreeInst::Loop, SyntaxTreeInst::LoopEnd]
            }
        } else {
            prev.push(inst)
        }
    }
}

/// The instructions of a tree in order, each nested tree between the `Loop`
/// that owns it and a closing `LoopEnd`.
pub open spec fn tree_tokens(t: TreeView) -> Seq<SyntaxTreeInst>
    decreases t, t.instructions.len() + 1,
{
    item_tokens(t, t.instructions.len() as int)
}

pub proof fn lemma_loops_before_prefix(a: Seq<SyntaxTreeInst>, b: Seq<SyntaxTreeInst>, n: int)
    requires
        0 <= n <= a.len() <= b.len(),
        a == b.subrange(0, a.len() as int),
    ensures
        loops_before(a, n) == loops_before(b, n),
    decreases n,
{
    if n > 0 {
        lemma_loops_before_prefix(a, b, n - 1);
        assert(a[n - 1] == b[n - 1]);
    }
}

pub proof fn lemma_loops_before_monotone(a: Seq<SyntaxTreeInst>, m: int, n: int)
    requires
        0 <= m <= n <= a.len(),
    ensures
        loops_before(a, m) <= loops_before(a, n),
        m < n && a[m] == SyntaxTreeInst::Loop ==> loops_before(a, m) < loops_before(a, n),
    decreases n - m,
{
    if m < n {
        lemma_loops_before_monotone(a, m, n - 1);
        if m < n - 1 {
            lemma_loops_before_monotone(a, m + 1, n - 1);
        }
    }
}

pub proof fn lemma_loops_before_concat(a: Seq<SyntaxTreeInst>, b: Seq<SyntaxTreeInst>, n: int)
    requires
        0 <= n <= b.len(),
    ensures
        loops_before(a + b, a.len() + n) == loops_before(a, a.len() as int) + loops_before(b, n),
    decreases n,
{
    if n > 0 {
        lemma_loops_before_concat(a, b, n - 1);
        assert((a + b)[a.len() + n - 1] == b[n - 1]);
    } else {
        assert(a == (a + b).subrange(0, a.len() as int));
        lemma_loops_before_prefix(a, a + b, a.len() as int);
    }
}

/// Extending a tree's lists leaves the tokens of its first instructions as
/// they were.
pub proof fn lemma_item_tokens_extend(t: TreeView, t2: TreeView, n: int)
    requires
        0 <= n <= t.instructions.len() <= t2.instructions.len(),
        t.instructions == t2.instructions.subrange(0, t.instructions.len() as int),
        t.loops.len() <= t2.loops.len(),
        t.loops == t2.loops.subrange(0, t.loops.len() as int),
        loops_before(t.instructions, t.instructions.len() as int) <= t.loops.len(),
    ensures
        item_tokens(t2, n) == item_tokens(t, n),
    decreases n,
{
    if n > 0 {
        lemma_item_tokens_extend(t, t2, n - 1);
        lemma_loops_before_prefix(t.instructions, t2.instructions, n - 1);
        lemma_loops_before_monotone(t.instructions, n - 1, t.instructions.len() as int);
        lemma_loops_before_monotone(t.instructions, 0, n - 1);
        let k = loops_before(t.instructions, n - 1);
        assert(t.instructions[n - 1] == t2.instructions[n - 1]);
        if t.instructions[n - 1] == SyntaxTreeInst::Loop {
            assert(t.loops[k] == t2.loops[k]);
        }
    }
}

/// Appending an instruction other than `Loop` appends it to the tokens.
pub proof fn lemma_push_inst(t: TreeView, x: SyntaxTreeInst)
    requires
        well_formed(t),
        x != SyntaxTreeInst::Loop,
    ensures
        well_formed(TreeView { instructions: t.instructions.push(x), loops: t.loops }),
        tree_tokens(TreeView { instructions: t.instructions.push(x), loops: t.loops })
            == tree_tokens(t).push(x),
{
    let t2 = TreeView { instructions: t.instructions.push(x), loops: t.loops };
    let n = t.instructions.len() as int;
    assert(t.instructions == t2.instructions.subrange(0, n));
    assert(t.loops == t2.loops.subrange(0, t.loops.len() as int));
    lemma_item_tokens_extend(t, t2, n);
    lemma_loops_before_prefix(t.instructions, t2.instructions, n);
    assert forall|i: int| 0 <= i < t2.loops.len() implies well_formed(#[trigger] t2.loops[i]) by {
        assert(t2.loops[i] == t.loops[i]);
    }
}

/// Appending a `Loop` that owns `c` appends `Loop`, the tokens of `c` and
/// `LoopEnd`.
pub proof fn lemma_push_loop(t: TreeView, c: TreeView)
    requires
        well_formed(t),
        well_formed(c),
    ensures
        well_formed(
            TreeView {
                instructions: t.instructions.push(SyntaxTreeInst::Loop),
                loops: t.loops.push(c),
            },
        ),
        tree_tokens(
            TreeView {
                instructions: t.instructions.push(SyntaxTreeInst::Loop),
                loops: t.loops.push(c),
            },
        ) == tree_tokens(t) + seq![SyntaxTreeInst::Loop] + tree_tokens(c) + seq![
            SyntaxTreeInst::LoopEnd,
        ],
{
    let t2 = TreeView {
        instructions: t.instructions.push(SyntaxTreeInst::Loop),
        loops: t.loops.push(c),
    };
    let n = t.instructions.len() as int;
    assert(t.instructions == t2.instructions.subrange(0, n));
    assert(t.loops == t2.loops.subrange(0, t.loops.len() as int));
    lemma_item_tokens_extend(t, t2, n);
    lemma_loops_before_prefix(t.instructions, t2.instructions, n);
    assert(t2.loops[t.loops.len() as int] == c);
    assert forall|i: int| 0 <= i < t2.loops.len() implies well_formed(#[trigger] t2.loops[i]) by {
        if i < t.loops.len() {
            assert(t2.loops[i] == t.loops[i]);
        }
    }
}

/// Appending an instruction other than `LoopEnd`, and possibly a nested tree
/// without one, keeps a tree free of `LoopEnd`.
pub proof fn lemma_push_no_loop_end(t: TreeView, x: SyntaxTreeInst, extra: Seq<TreeView>)
    requires
        no_loop_end(t),
        x != SyntaxTreeInst::LoopEnd,
        extra.len() <= 1,
        forall|i: int| 0 <= i < extra.len() ==> no_loop_end(#[trigger] extra[i]),
    ensures
        no_loop_end(TreeView { instructions: t.instructions.push(x), loops: t.loops + extra }),
{
    let t2 = TreeView { instructions: t.instructions.push(x), loops: t.loops + extra };
    assert forall|i: int| 0 <= i < t2.instructions.len() implies #[trigger] t2.instructions[i]
        != SyntaxTreeInst::LoopEnd by {
        if i < t.instructions.len() {
            assert(t2.instructions[i] == t.instructions[i]);
        }
    }
    assert forall|i: int| 0 <= i < t2.loops.len() implies no_loop_end(#[trigger] t2.loops[i]) by {
        if i < t.loops.len() {
            assert(t2.loops[i] == t.loops[i]);
        } else {
            assert(t2.loops[i] == extra[i - t.loops.len()]);
        }
    }
}

/// Appending an instruction that reading produces, and possibly a nested
/// tree made of such instructions, keeps a tree made of them.
pub proof fn lemma_push_read_inst(t: TreeView, x: SyntaxTreeInst, extra: Seq<TreeView>)
    requires
        only_read_insts(t),
        is_read_inst(x),
        extra.len() <= 1,
        forall|i: int| 0 <= i < extra.len() ==> only_read_insts(#[trigger] extra[i]),
    ensures
        only_read_insts(TreeView { instructions: t.instructions.push(x), loops: t.loops + extra }),
{
    let t2 = TreeView { instructions: t.instructions.push(x), loops: t.loops + extra };
    assert forall|i: int| 0 <= i < t2.instructions.len() implies is_read_inst(
        #[trigger] t2.instructions[i],
    ) by {
        if i < t.instructions.len() {
            assert(t2.instructions[i] == t.instructions[i]);
        }
    }
    assert forall|i: int| 0 <= i < t2.loops.len() implies only_read_insts(#[trigger] t2.loops[i]) by {
        if i < t.loops.len() {
            assert(t2.loops[i] == t.loops[i]);
        } else {
            assert(t2.loops[i] == extra[i - t.loops.len()]);
        }
    }
}

pub proof fn lemma_tree_views_push(ts: Seq<SyntaxTree>, c: SyntaxTree, n: int)
    requires
        0 <= n <= ts.len(),
    ensures
        tree_views(ts.push(c), n) == tree_views(ts, n),
    decreases n,
{
    if n > 0 {
        lemma_tree_views_push(ts, c, n - 1);
        assert(ts.push(c)[n - 1] == ts[n - 1]);
    }
}

pub proof fn lemma_tree_views_len(ts: Seq<SyntaxTree>, n: int)
    requires
        0 <= n <= ts.len(),
    ensures
        tree_views(ts, n).len() == n,
        forall|i: int| 0 <= i < n ==> #[trigger] tree_views(ts, n)[i] == ts[i].view_tree(),
    decreases n,
{
    if n > 0 {
        lemma_tree_views_len(ts, n - 1);
    }
}


/// The nesting step of a token.
pub open spec fn ast_step(t: Token) -> int {
    match t {
        Token::LoopStart => 1,
        Token::LoopEnd => -1,
        _ => 0,
    }
}

/// The nesting steps of a token stream.
pub open spec fn ast_steps(ts: Seq<Token>) -> Seq<int> {
    Seq::new(ts.len(), |k: int| ast_step(ts[k]))
}

/// `+`, `-`, `>` and `<` are collapsed into runs.
pub open spec fn is_run_token(t: Token) -> bool {
    t == Token::Inc || t == Token::Dec || t == Token::MovUp || t == Token::MovDown
}

/// The length of the run of equal tokens that ends at position `j`.
pub open spec fn token_run(ts: Seq<Token>, j: int) -> int
    decreases j,
{
    if j > 0 && ts[j - 1] == ts[j] {
        token_run(ts, j - 1) + 1
    } else {
        1
    }
}

/// The instruction for a run of `n` equal tokens.
pub open spec fn run_inst(t: Token, n: u8) -> SyntaxTreeInst {
    match t {
        Token::Inc => SyntaxTreeInst::Add(n),
        Token::Dec => SyntaxTreeInst::Sub(n),
        Token::MovUp => SyntaxTreeInst::Shiftup(n),
        _ => SyntaxTreeInst::ShiftDown(n),
    }
}

/// The instructions read at position `j`: a bracket or an input gives its
/// instruction; a run of equal `+`, `-`, `>` or `<` gives one instruction
/// carrying the run's length, at the run's last token.
pub open spec fn emit(ts: Seq<Token>, j: int) -> Seq<SyntaxTreeInst> {
    match ts[j] {
        Token::LoopStart => seq![SyntaxTreeInst::Loop],
        Token::LoopEnd => seq![SyntaxTreeInst::LoopEnd],
        Token::Read => seq![SyntaxTreeInst::Read],
        Token::Print => seq![SyntaxTreeInst::Print],
        _ => if j + 1 < ts.len() && ts[j + 1] == ts[j] {
            Seq::empty()
        } else {
            seq![run_inst(ts[j], token_run(ts, j) as u8)]
        },
    }
}

/// The instructions read from the tokens at positions `a` to `b - 1`.
pub open spec fn collapse(ts: Seq<Token>, a: int, b: int) -> Seq<SyntaxTreeInst>
    decreases b - a,
{
    if b <= a {
        Seq::empty()
    } else {
        collapse(ts, a, b - 1) + emit(ts, b - 1)
    }
}

/// `n` closing `LoopEnd`s.
pub open spec fn loop_ends(n: int) -> Seq<SyntaxTreeInst> {
    Seq::new(n as nat, |i: int| SyntaxTreeInst::LoopEnd)
}

/// A block that starts at `s` is still open at every position up to `j`.
pub open spec fn reached_from(d: Seq<int>, s: int, j: int) -> bool {
    forall|k: int| s <= k <= j ==> #[trigger] depth(d, s, k) >= 0
}

/// No run that a block starting at `s` reads is longer than 255.
pub open spec fn buildable_from(ts: Seq<Token>, s: int) -> bool {
    forall|j: int|
        s <= j < ts.len() && reached_from(ast_steps(ts), s, j) ==> (is_run_token(#[trigger] ts[j])
            ==> token_run(ts, j) <= 255)
}

/// The block starting at `s` ends with the `]` at `e - 1`, which closes it,
/// and `t` holds the instructions read in between.
pub open spec fn block_closed(ts: Seq<Token>, s: int, e: int, t: TreeView) -> bool {
    let d = ast_steps(ts);
    &&& s < e <= ts.len()
    &&& ts[e - 1] == Token::LoopEnd
    &&& depth(d, s, e) == -1
    &&& forall|k: int| s <= k < e ==> #[trigger] depth(d, s, k) >= 0
    &&& tree_tokens(t) == collapse(ts, s, e - 1)
}

/// The block starting at `s` runs to the end of the tokens without being
/// closed, and `t` holds the instructions read, followed by one `LoopEnd`
/// for each loop left open.
pub open spec fn block_open(ts: Seq<Token>, s: int, t: TreeView) -> bool {
    let d = ast_steps(ts);
    &&& reached_from(d, s, ts.len() as int)
    &&& tree_tokens(t) == collapse(ts, s, ts.len() as int) + loop_ends(depth(d, s, ts.len() as int))
}

pub proof fn lemma_collapse_split(ts: Seq<Token>, a: int, b: int, c: int)
    requires
        a <= b <= c,
    ensures
        collapse(ts, a, c) == collapse(ts, a, b) + collapse(ts, b, c),
    decreases c - b,
{
    if b < c {
        lemma_collapse_split(ts, a, b, c - 1);
        assert(collapse(ts, a, c) =~= collapse(ts, a, b) + collapse(ts, b, c));
    } else {
        assert(collapse(ts, a, c) =~= collapse(ts, a, b) + collapse(ts, b, c));
    }
}

proof fn lemma_child_buildable(ts: Seq<Token>, s: int, p: int)
    requires
        buildable_from(ts, s),
        reached_from(ast_steps(ts), s, p),
        depth(ast_steps(ts), s, p) == 0,
        0 <= s <= p < ts.len(),
        ts[p] == Token::LoopStart,
    ensures
        buildable_from(ts, p + 1),
{
    let d = ast_steps(ts);
    assert(d[p] == 1);
    assert(depth(d, s, p + 1) == depth(d, s, p) + d[p]);
    assert forall|j: int|
        p + 1 <= j < ts.len() && reached_from(d, p + 1, j) && is_run_token(#[trigger] ts[j]) implies
        token_run(ts, j) <= 255 by {
        assert forall|k: int| s <= k <= j implies #[trigger] depth(d, s, k) >= 0 by {
            if k > p {
                lemma_depth_split(d, s, p + 1, k);
                assert(depth(d, p + 1, k) >= 0);
            } else {
                assert(reached_from(d, s, p));
            }
        }
        assert(reached_from(d, s, j));
    }
}

proof fn lemma_after_child(
    ts: Seq<Token>,
    s: int,
    p: int,
    e: int,
    before: TreeView,
    cv: TreeView,
    after: TreeView,
)
    requires
        0 <= s <= p < e <= ts.len(),
        ts[p] == Token::LoopStart,
        reached_from(ast_steps(ts), s, p),
        depth(ast_steps(ts), s, p) == 0,
        tree_tokens(before) == collapse(ts, s, p),
        block_closed(ts, p + 1, e, cv) || (e == ts.len() && block_open(ts, p + 1, cv)),
        tree_tokens(after) == tree_tokens(before) + seq![SyntaxTreeInst::Loop] + tree_tokens(cv)
            + seq![SyntaxTreeInst::LoopEnd],
    ensures
        reached_from(ast_steps(ts), s, e),
        (depth(ast_steps(ts), s, e) == 0 && tree_tokens(after) == collapse(ts, s, e) && (e
            < ts.len() && is_run_token(ts[e]) ==> token_run(ts, e) == 1)) || (e == ts.len()
            && block_open(ts, s, after)),
{
    let d = ast_steps(ts);
    let n = ts.len() as int;
    assert(d[p] == 1);
    assert(depth(d, s, p + 1) == depth(d, s, p) + d[p]);
    assert forall|k: int| s <= k <= e implies #[trigger] depth(d, s, k) >= 0 by {
        if k > p {
            lemma_depth_split(d, s, p + 1, k);
            if k < e || !block_closed(ts, p + 1, e, cv) {
                assert(depth(d, p + 1, k) >= 0);
            }
        } else {
            assert(reached_from(d, s, p));
        }
    }
    lemma_depth_split(d, s, p + 1, e);
    assert(collapse(ts, p, p) =~= Seq::<SyntaxTreeInst>::empty());
    assert(collapse(ts, p, p + 1) =~= seq![SyntaxTreeInst::Loop]);
    if block_closed(ts, p + 1, e, cv) {
        lemma_collapse_split(ts, s, p, e);
        lemma_collapse_split(ts, p, p + 1, e - 1);
        assert(collapse(ts, p, e) == collapse(ts, p, e - 1) + emit(ts, e - 1));
        assert(tree_tokens(after) =~= collapse(ts, s, e));
        if e < n && is_run_token(ts[e]) {
            assert(token_run(ts, e) == 1);
        }
    } else {
        lemma_collapse_split(ts, s, p, n);
        lemma_collapse_split(ts, p, p + 1, n);
        assert(loop_ends(depth(d, p + 1, n)) + seq![SyntaxTreeInst::LoopEnd] =~= loop_ends(
            depth(d, s, n),
        ));
        assert(tree_tokens(after) =~= collapse(ts, s, n) + loop_ends(depth(d, s, n)));
    }
}

/// Whether `build_ast` can read these tokens: `buildable_from(tokens, 0)`.
#[verifier::rlimit(50)]
pub fn can_build(tokens: &Vec<Token>) -> (r: bool)
    ensures
        r == buildable_from(tokens@, 0),
{
    let ghost ts = tokens@;
    let ghost d = ast_steps(ts);
    let mut level: usize = 0;
    let mut run: usize = 0;
    for j in 0..tokens.len()
        invariant
            ts == tokens@,
            d == ast_steps(ts),
            level == depth(d, 0, j as int),
            level <= j,
            reached_from(d, 0, j as int),
            run <= j,
            j > 0 ==> run == token_run(ts, j - 1),
            forall|i: int|
                0 <= i < j ==> (is_run_token(#[trigger] ts[i]) ==> token_run(ts, i) <= 255),
    {
        let t = tokens[j];
        if j > 0 && tokens[j - 1] == t {
            run = run + 1;
        } else {
            run = 1;
        }
        if is_run_token_exec(t) && run > 255 {
            proof {
                assert(!(is_run_token(ts[j as int]) ==> token_run(ts, j as int) <= 255));
            }
            return false;
        }
        proof {
            assert(depth(d, 0, j + 1) == depth(d, 0, j as int) + d[j as int]);
        }
        if t == Token::LoopStart {
            level = level + 1;
        } else if t == Token::LoopEnd {
            if level == 0 {
                // the first `]` that closes more than was opened: nothing after it is read
                proof {
                    assert forall|j2: int|
                        0 <= j2 < ts.len() && reached_from(d, 0, j2) && is_run_token(#[trigger] ts[j2])
                        implies token_run(ts, j2) <= 255 by {
                        if j2 > j {
                            assert(depth(d, 0, j + 1) < 0);
                        }
                    }
                }
                return true;
            }
            level = level - 1;
        }
        proof {
            assert forall|k: int| 0 <= k <= j + 1 implies #[trigger] depth(d, 0, k) >= 0 by {
                if k <= j {
                    assert(reached_from(d, 0, j as int));
                }
            }
        }
    }
    true
}

fn is_run_token_exec(t: Token) -> (r: bool)
    ensures
        r == is_run_token(t),
{
    t == Token::Inc || t == Token::Dec || t == Token::MovUp || t == Token::MovDown
}

/// Reads one block from `*pos`: up to and including the `]` that closes it,
/// or to the end of the tokens.
pub(crate) fn build_ast_recursive(src: &Vec<Token>, pos: &mut usize) -> (root: SyntaxTree)
    requires
        *old(pos) <= src.len(),
        *old(pos) == 0 || src@[*old(pos) - 1] == Token::LoopStart,
        buildable_from(src@, *old(pos) as int),
    ensures
        well_formed(root.view_tree()),
        no_loop_end(root.view_tree()),
        only_read_insts(root.view_tree()),
        *old(pos) <= *final(pos) <= src.len(),
        block_closed(src@, *old(pos) as int, *final(pos) as int, root.view_tree()) || (*final(pos)
            == src.len() && block_open(src@, *old(pos) as int, root.view_tree())),
    decreases src.len() - *old(pos),
{
    let ghost s = *pos as int;
    let ghost ts = src@;
    let ghost d = ast_steps(ts);
    let ghost n = ts.len() as int;
    let mut root = SyntaxTree { instructions: Vec::new(), loops: Vec::new() };
    let mut repeats: u8 = 1;
    proof {
        assert(root.view_tree().instructions =~= Seq::<SyntaxTreeInst>::empty());
        assert(root.view_tree().loops =~= Seq::<TreeView>::empty());
        assert(tree_tokens(root.view_tree()) =~= collapse(ts, s, s));
        if s < n && is_run_token(ts[s]) {
            assert(token_run(ts, s) == 1);
        }
    }
    while *pos < src.len()
        invariant_except_break
            0 <= s <= *pos <= n,
            s == *old(pos),
            ts == src@,
            n == src.len(),
            d == ast_steps(ts),
            s == 0 || ts[s - 1] == Token::LoopStart,
            buildable_from(ts, s),
            well_formed(root.view_tree()),
            no_loop_end(root.view_tree()),
            only_read_insts(root.view_tree()),
            reached_from(d, s, *pos as int),
            (depth(d, s, *pos as int) == 0 && tree_tokens(root.view_tree()) == collapse(ts, s, *pos as int)
                && repeats == if *pos < n && is_run_token(ts[*pos as int]) {
                token_run(ts, *pos as int)
            } else {
                1
            }) || (*pos == n && block_open(ts, s, root.view_tree())),
        ensures
            s <= *pos <= n,
            well_formed(root.view_tree()),
            no_loop_end(root.view_tree()),
            only_read_insts(root.view_tree()),
            block_closed(ts, s, *pos as int, root.view_tree()) || (*pos == n && block_open(
                ts,
                s,
                root.view_tree(),
            )),
        decreases n - *pos,
    {
        let ghost p = *pos as int;
        let ghost before = root.view_tree();
        let code = src[*pos];
        *pos = *pos + 1;
        proof {
            assert(depth(d, s, p + 1) == depth(d, s, p) + d[p]);
            assert(collapse(ts, s, p + 1) == collapse(ts, s, p) + emit(ts, p));
        }
        match code {
            Token::LoopStart => {
                proof {
                    lemma_child_buildable(ts, s, p);
                }
                let child = build_ast_recursive(src, pos);
                let ghost e = *pos as int;
                let ghost cv = child.view_tree();
                proof {
                    lemma_tree_views_push(root.loops@, child, root.loops@.len() as int);
                    lemma_push_loop(before, cv);
                    lemma_push_no_loop_end(before, SyntaxTreeInst::Loop, seq![cv]);
                    lemma_push_read_inst(before, SyntaxTreeInst::Loop, seq![cv]);
                    assert(before.loops + seq![cv] =~= before.loops.push(cv));
                }
                root.loops.push(child);
                root.instructions.push(SyntaxTreeInst::Loop);
                proof {
                    assert(root.view_tree() == TreeView {
                        instructions: before.instructions.push(SyntaxTreeInst::Loop),
                        loops: before.loops.push(cv),
                    });
                    lemma_after_child(ts, s, p, e, before, cv, root.view_tree());
                }
                continue ;
            },
            Token::LoopEnd => {
                break ;
            },
            Token::Read => {
                proof {
                    lemma_push_inst(before, SyntaxTreeInst::Read);
                    lemma_push_no_loop_end(before, SyntaxTreeInst::Read, Seq::empty());
                    lemma_push_read_inst(before, SyntaxTreeInst::Read, Seq::empty());
                    assert(before.loops + Seq::<TreeView>::empty() =~= before.loops);
                }
                root.instructions.push(SyntaxTreeInst::Read);
                proof {
                    assert(root.view_tree() == TreeView {
                        instructions: before.instructions.push(SyntaxTreeInst::Read),
                        loops: before.loops,
                    });
                    if p + 1 < n && is_run_token(ts[p + 1]) {
                        assert(token_run(ts, p + 1) == 1);
                    }
                }
                continue ;
            },
            Token::Print => {
                proof {
                    lemma_push_inst(before, SyntaxTreeInst::Print);
                    lemma_push_no_loop_end(before, SyntaxTreeInst::Print, Seq::empty());
                    lemma_push_read_inst(before, SyntaxTreeInst::Print, Seq::empty());
                    assert(before.loops + Seq::<TreeView>::empty() =~= before.loops);
                }
                root.instructions.push(SyntaxTreeInst::Print);
                proof {
                    assert(root.view_tree() == TreeView {
                        instructions: before.instructions.push(SyntaxTreeInst::Print),
                        loops: before.loops,
                    });
                    if p + 1 < n && is_run_token(ts[p + 1]) {
                        assert(token_run(ts, p + 1) == 1);
                    }
                }
                continue ;
            },
            _ => {},
        }
        if *pos < src.len() && src[*pos] == code {
            repeats += 1;
            continue ;
        }
        let inst = match code {
            Token::Inc => SyntaxTreeInst::Add(repeats),
            Token::Dec => SyntaxTreeInst::Sub(repeats),
            Token::MovUp => SyntaxTreeInst::Shiftup(repeats),
            _ => SyntaxTreeInst::ShiftDown(repeats),
        };
        proof {
            lemma_push_inst(before, inst);
            lemma_push_no_loop_end(before, inst, Seq::empty());
                    lemma_push_read_inst(before, inst, Seq::empty());
            assert(before.loops + Seq::<TreeView>::empty() =~= before.loops);
        }
        root.instructions.push(inst);
        repeats = 1;
        proof {
            assert(root.view_tree() == TreeView {
                instructions: before.instructions.push(inst),
                loops: before.loops,
            });
            if p + 1 < n && is_run_token(ts[p + 1]) {
                assert(token_run(ts, p + 1) == 1);
            }
        }
    }
    proof {
        if *pos == n && depth(d, s, n) == 0 && tree_tokens(root.view_tree()) == collapse(ts, s, n) {
            assert(loop_ends(0) =~= Seq::<SyntaxTreeInst>::empty());
            assert(tree_tokens(root.view_tree()) =~= collapse(ts, s, n) + loop_ends(depth(d, s, n)));
        }
    }
    root
}

/// Builds the syntax tree of a text: loops become nested trees and each run
/// of equal `+`, `-`, `>` or `<` becomes one instruction. Reading stops at the
/// first `]` that closes more loops than were opened; loops still open at
/// the end are closed there. No run read may be longer than 255.
pub fn build_ast(code: Vec<char>) -> (tree: SyntaxTree)
    requires
        buildable_from(tokens_of(code@), 0),
    ensures
        well_formed(tree.view_tree()),
        no_loop_end(tree.view_tree()),
        only_read_insts(tree.view_tree()),
        (exists|e: int| block_closed(tokens_of(code@), 0, e, tree.view_tree())) || block_open(
            tokens_of(code@),
            0,
            tree.view_tree(),
        ),
{
    let tokens = tokenize(code);
    let mut iter: usize = 0;
    build_ast_recursive(&tokens, &mut iter)
}


/// The tokens an instruction stands for.
pub open spec fn inst_text(i: SyntaxTreeInst) -> Seq<Token> {
    match i {
        SyntaxTreeInst::Add(n) => Seq::new(n as nat, |k: int| Token::Inc),
        SyntaxTreeInst::Sub(n) => Seq::new(n as nat, |k: int| Token::Dec),
        SyntaxTreeInst::Shiftup(n) => Seq::new(n as nat, |k: int| Token::MovUp),
        SyntaxTreeInst::ShiftDown(n) => Seq::new(n as nat, |k: int| Token::MovDown),
        SyntaxTreeInst::Loop => seq![Token::LoopStart],
        SyntaxTreeInst::LoopEnd => seq![Token::LoopEnd],
        SyntaxTreeInst::Print => seq![Token::Print],
        SyntaxTreeInst::Read => seq![Token::Read],
        SyntaxTreeInst::AddRelative(_, _, _) => Seq::empty(),
        SyntaxTreeInst::Clear => Seq::empty(),
    }
}

/// The tokens an instruction stream stands for.
pub open spec fn insts_text(s: Seq<SyntaxTreeInst>) -> Seq<Token>
    decreases s.len(),
{
    if s.len() == 0 {
        Seq::empty()
    } else {
        insts_text(s.drop_last()) + inst_text(s.last())
    }
}

proof fn lemma_insts_text_concat(a: Seq<SyntaxTreeInst>, b: Seq<SyntaxTreeInst>)
    ensures
        insts_text(a + b) == insts_text(a) + insts_text(b),
    decreases b.len(),
{
    if b.len() == 0 {
        assert(a + b =~= a);
        assert(insts_text(a) + insts_text(b) =~= insts_text(a));
    } else {
        lemma_insts_text_concat(a, b.drop_last());
        assert((a + b).drop_last() =~= a + b.drop_last());
        assert(insts_text(a + b) =~= insts_text(a) + insts_text(b));
    }
}

proof fn lemma_insts_text_single(i: SyntaxTreeInst)
    ensures
        insts_text(seq![i]) == inst_text(i),
{
    assert(seq![i].drop_last() =~= Seq::<SyntaxTreeInst>::empty());
    assert(seq![i].last() == i);
    assert(insts_text(Seq::<SyntaxTreeInst>::empty()) == Seq::<Token>::empty());
    assert(Seq::<Token>::empty() + inst_text(i) =~= inst_text(i));
}

proof fn lemma_loop_ends_text(k: int)
    requires
        k >= 0,
    ensures
        insts_text(loop_ends(k)) == Seq::new(k as nat, |m: int| Token::LoopEnd),
    decreases k,
{
    if k > 0 {
        lemma_loop_ends_text(k - 1);
        assert(loop_ends(k).drop_last() =~= loop_ends(k - 1));
        assert(insts_text(loop_ends(k)) =~= Seq::new(k as nat, |m: int| Token::LoopEnd));
    } else {
        assert(loop_ends(k) =~= Seq::<SyntaxTreeInst>::empty());
    }
}

proof fn lemma_token_run(ts: Seq<Token>, k: int)
    requires
        0 <= k < ts.len(),
    ensures
        1 <= token_run(ts, k) <= k + 1,
        forall|m: int| k - token_run(ts, k) < m <= k ==> #[trigger] ts[m] == ts[k],
    decreases k,
{
    if k > 0 {
        lemma_token_run(ts, k - 1);
    }
}

/// How many tokens of an unfinished run lie just before position `i`.
pub open spec fn pending_run(ts: Seq<Token>, i: int) -> int {
    if 0 < i < ts.len() && is_run_token(ts[i - 1]) && ts[i] == ts[i - 1] {
        token_run(ts, i - 1)
    } else {
        0
    }
}

proof fn lemma_collapse_text(ts: Seq<Token>, i: int)
    requires
        0 <= i <= ts.len(),
        forall|j: int|
            0 <= j < i && is_run_token(ts[j]) ==> #[trigger] token_run(ts, j) <= 255,
    ensures
        0 <= pending_run(ts, i) <= i,
        insts_text(collapse(ts, 0, i)) == ts.take(i - pending_run(ts, i)),
    decreases i,
{
    if i == 0 {
        assert(ts.take(0) =~= Seq::<Token>::empty());
    } else {
        let k = i - 1;
        let c = ts[k];
        lemma_collapse_text(ts, k);
        lemma_token_run(ts, k);
        lemma_insts_text_concat(collapse(ts, 0, k), emit(ts, k));
        if k > 0 {
            lemma_token_run(ts, k - 1);
        }
        if !is_run_token(c) {
            assert(pending_run(ts, k) == 0);
            lemma_insts_text_single(emit(ts, k)[0]);
            assert(emit(ts, k) == seq![emit(ts, k)[0]]);
            assert(insts_text(emit(ts, k)) =~= seq![c]);
            assert(ts.take(i) =~= ts.take(k) + seq![c]);
        } else if i < ts.len() && ts[i] == c {
            assert(emit(ts, k) =~= Seq::<SyntaxTreeInst>::empty());
            assert(insts_text(emit(ts, k)) =~= Seq::<Token>::empty());
            assert(token_run(ts, k) == pending_run(ts, k) + 1);
        } else {
            let r = token_run(ts, k);
            assert(r <= 255);
            assert(r == pending_run(ts, k) + 1);
            assert(emit(ts, k) == seq![run_inst(c, r as u8)]);
            lemma_insts_text_single(run_inst(c, r as u8));
            assert(inst_text(run_inst(c, r as u8)) =~= Seq::new(r as nat, |m: int| c));
            assert(ts.take(i) =~= ts.take(k - pending_run(ts, k)) + Seq::new(r as nat, |m: int| c));
        }
    }
}

/// The tree stands for the tokens it was read from: closed at `e`, its
/// instructions spell the tokens before the `]` at `e - 1`; left open, they
/// spell all the tokens followed by one `]` per loop still open.
pub proof fn law_tree_reads_back(ts: Seq<Token>, t: TreeView)
    requires
        buildable_from(ts, 0),
    ensures
        forall|e: int|
            #[trigger] block_closed(ts, 0, e, t) ==> insts_text(tree_tokens(t)) == ts.take(e - 1),
        block_open(ts, 0, t) ==> insts_text(tree_tokens(t)) == ts + Seq::new(
            depth(ast_steps(ts), 0, ts.len() as int) as nat,
            |m: int| Token::LoopEnd,
        ),
{
    let d = ast_steps(ts);
    assert forall|e: int| #[trigger] block_closed(ts, 0, e, t) implies insts_text(tree_tokens(t))
        == ts.take(e - 1) by {
        assert forall|j: int| 0 <= j < e - 1 && is_run_token(ts[j]) implies #[trigger] token_run(
            ts,
            j,
        ) <= 255 by {
            assert(reached_from(d, 0, j));
        }
        lemma_collapse_text(ts, e - 1);
        assert(pending_run(ts, e - 1) == 0);
        assert(ts.take(e - 1) =~= ts.take(e - 1));
    }
    if block_open(ts, 0, t) {
        let n = ts.len() as int;
        assert forall|j: int| 0 <= j < n && is_run_token(ts[j]) implies #[trigger] token_run(
            ts,
            j,
        ) <= 255 by {
            assert(reached_from(d, 0, j));
        }
        lemma_collapse_text(ts, n);
        assert(ts.take(n) =~= ts);
        assert(depth(d, 0, n) >= 0);
        lemma_insts_text_concat(collapse(ts, 0, n), loop_ends(depth(d, 0, n)));
        lemma_loop_ends_text(depth(d, 0, n));
    }
}

} // verus!
