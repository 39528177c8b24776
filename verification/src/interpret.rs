//! A step-by-step Brainfuck interpreter. The library decides what each
//! command does; the caller performs the input and output that a step asks
//! for and drives the loop.
use std::collections::HashMap;
use vstd::prelude::*;
use crate::sanitize::is_command;
use crate::brackets::{
    closes, depth, has_match, lemma_scan_back, lemma_scan_skip, opener_of, unit_steps, lemma_opener_unique, lemma_partners, lemma_scan_close, lemma_scan_neutral,
    lemma_scan_open, lemma_scan_start, lemma_scan_underflow, match_of, never_below_zero, scan_state,
};

verus! {

broadcast use vstd::std_specs::hash::group_hash_axioms;

/// The nesting step of one source character.
pub open spec fn char_step(c: char) -> int {
    if c == '[' {
        1
    } else if c == ']' {
        -1
    } else {
        0
    }
}

/// The nesting steps of a source text.
pub open spec fn char_steps(code: Seq<char>) -> Seq<int> {
    Seq::new(code.len(), |i: int| char_step(code[i]))
}

/// The positions of a stack, as integers.
pub open spec fn positions(s: Seq<usize>) -> Seq<int> {
    s.map_values(|x: usize| x as int)
}

/// Whether no prefix of `code` closes more loops than it opened, which
/// `get_jump_table` needs.
pub fn can_build_jump_table(code: &Vec<char>) -> (r: bool)
    ensures
        r == never_below_zero(char_steps(code@)),
{
    let ghost d = char_steps(code@);
    let mut level: usize = 0;
    for j in 0..code.len()
        invariant
            d == char_steps(code@),
            level == depth(d, 0, j as int),
            level <= j,
            forall|k: int| 0 <= k <= j ==> #[trigger] depth(d, 0, k) >= 0,
    {
        proof {
            assert(depth(d, 0, j + 1) == depth(d, 0, j as int) + d[j as int]);
        }
        if code[j] == '[' {
            level = level + 1;
        } else if code[j] == ']' {
            if level == 0 {
                proof {
                    assert(depth(d, 0, j + 1) < 0);
                }
                return false;
            }
            level = level - 1;
        }
    }
    true
}

/// `table` maps the position of every matched `[` of `code` to the position
/// just after its `]`, and has no other key.
pub open spec fn is_jump_table(code: Seq<char>, table: Map<usize, usize>) -> bool {
    &&& forall|p: usize| #[trigger] table.contains_key(p) <==> has_match(char_steps(code), p as int)
    &&& forall|p: usize| #[trigger]
        table.contains_key(p) ==> table[p] == match_of(char_steps(code), p as int) + 1
}

/// Maps the position of every matched `[` to the position just after its `]`.
/// The text must never close more loops than it has opened.
pub fn get_jump_table(code: &Vec<char>) -> (table: HashMap<usize, usize>)
    requires
        never_below_zero(char_steps(code@)),
    ensures
        is_jump_table(code@, table@),
{
    let ghost d = char_steps(code@);
    let mut jump_table: HashMap<usize, usize> = HashMap::new();
    let mut starts: Vec<usize> = Vec::new();
    proof {
        lemma_scan_start(d);
        assert(positions(starts@) =~= Seq::<int>::empty());
    }
    for i in 0..code.len()
        invariant
            d == char_steps(code@),
            never_below_zero(d),
            scan_state(d, i as int, positions(starts@)),
            forall|p: usize| #[trigger]
                jump_table@.contains_key(p) <==> exists|j: int| j < i && closes(d, p as int, j),
            forall|p: usize| #[trigger]
                jump_table@.contains_key(p) ==> jump_table@[p] == match_of(d, p as int) + 1,
    {
        let ghost st = positions(starts@);
        let ghost old_table = jump_table@;
        if code[i] == '[' {
            proof {
                lemma_scan_open(d, i as int, st);
            }
            starts.push(i);
            assert(positions(starts@) =~= st.push(i as int));
        } else if code[i] == ']' {
            if starts.len() == 0 {
                proof {
                    lemma_scan_underflow(d, i as int, st);
                }
            }
            proof {
                lemma_scan_close(d, i as int, st);
            }
            let p = starts.pop().unwrap();
            assert(positions(starts@) =~= st.drop_last());
            proof {
                lemma_partners(d, p as int, i as int);
            }
            jump_table.insert(p, i + 1);
            assert forall|q: usize| #[trigger]
                jump_table@.contains_key(q) <==> exists|j: int|
                    j < i + 1 && closes(d, q as int, j) by {
                if q != p && exists|j: int| j < i + 1 && closes(d, q as int, j) {
                    let j = choose|j: int| j < i + 1 && closes(d, q as int, j);
                    if j == i {
                        lemma_opener_unique(d, p as int, q as int, j);
                    }
                }
            }
        } else {
            proof {
                lemma_scan_neutral(d, i as int, st);
            }
        }
    }
    jump_table
}


/// What the caller has to do after a step.
#[derive(Debug, Clone, Copy, PartialEq, Eq)]
pub enum Action {
    /// Nothing: take the next step.
    Continue,
    /// Write this byte to the output.
    Output(u8),
    /// Read a byte and hand it to `store_input`.
    Input,
    /// The program has ended.
    Halt,
}

/// The interpreter's state: the tape, the tape index, the index of the next
/// command and the positions just after the `[` of each loop being run.
pub struct Interpreter {
    pub tape: Vec<u8>,
    pub tape_ptr: usize,
    pub code_ptr: usize,
    pub stack: Vec<usize>,
}

/// The abstract state of an `Interpreter`.
pub struct MachineState {
    pub tape: Seq<u8>,
    pub tape_ptr: usize,
    pub code_ptr: usize,
    pub stack: Seq<usize>,
}

impl View for Interpreter {
    type V = MachineState;

    open spec fn view(&self) -> MachineState {
        MachineState {
            tape: self.tape@,
            tape_ptr: self.tape_ptr,
            code_ptr: self.code_ptr,
            stack: self.stack@,
        }
    }
}

/// Adding one to a cell, modulo 256.
pub open spec fn inc_cell(x: u8) -> u8 {
    if x == 255 {
        0
    } else {
        (x + 1) as u8
    }
}

/// Subtracting one from a cell, modulo 256.
pub open spec fn dec_cell(x: u8) -> u8 {
    if x == 0 {
        255
    } else {
        (x - 1) as u8
    }
}

/// The number of cells on a fresh tape.
pub const TAPE_LEN: usize = 30000;

/// A step from `s` is defined: the next command exists or the program has
/// ended, it is a Brainfuck command, the cell it reads is on the tape, a
/// skipped loop has a known end, and a repeated loop has a known start.
pub open spec fn can_step(s: MachineState, code: Seq<char>, table: Map<usize, usize>) -> bool {
    &&& s.code_ptr <= code.len()
    &&& s.code_ptr < code.len() ==> {
        let c = code[s.code_ptr as int];
        &&& is_command(c)
        &&& (c != '>' && c != '<') ==> s.tape_ptr < s.tape.len()
        &&& (c == '[' && s.tape[s.tape_ptr as int] == 0) ==> table.contains_key(s.code_ptr)
        &&& (c == ']' && s.tape[s.tape_ptr as int] != 0) ==> s.stack.len() > 0
    }
}

/// The state after one step from `s`, and what the caller must do.
pub open spec fn step_result(s: MachineState, code: Seq<char>, table: Map<usize, usize>) -> (
    MachineState,
    Action,
) {
    if s.code_ptr >= code.len() {
        (s, Action::Halt)
    } else {
        let c = code[s.code_ptr as int];
        let next = (s.code_ptr + 1) as usize;
        let cell = s.tape[s.tape_ptr as int];
        let moved = MachineState { code_ptr: next, ..s };
        if c == '+' {
            (MachineState { tape: s.tape.update(s.tape_ptr as int, inc_cell(cell)), ..moved }, Action::Continue)
        } else if c == '-' {
            (MachineState { tape: s.tape.update(s.tape_ptr as int, dec_cell(cell)), ..moved }, Action::Continue)
        } else if c == '>' {
            let p = if s.tape_ptr == usize::MAX { 0 } else { (s.tape_ptr + 1) as usize };
            (MachineState { tape_ptr: p, ..moved }, Action::Continue)
        } else if c == '<' {
            let p = if s.tape_ptr == 0 { usize::MAX } else { (s.tape_ptr - 1) as usize };
            (MachineState { tape_ptr: p, ..moved }, Action::Continue)
        } else if c == ',' {
            (moved, Action::Input)
        } else if c == '.' {
            (moved, Action::Output(cell))
        } else if c == '[' {
            if cell != 0 {
                (MachineState { stack: s.stack.push(next), ..moved }, Action::Continue)
            } else {
                (MachineState { code_ptr: table[s.code_ptr], ..moved }, Action::Continue)
            }
        } else {
            if cell != 0 {
                (MachineState { code_ptr: s.stack.last(), ..moved }, Action::Continue)
            } else {
                let popped = if s.stack.len() > 0 { s.stack.drop_last() } else { s.stack };
                (MachineState { stack: popped, ..moved }, Action::Continue)
            }
        }
    }
}

impl Interpreter {
    /// A fresh interpreter: a tape of `TAPE_LEN` zero cells, both indices at
    /// zero and no loop being run.
    pub fn new() -> (r: Interpreter)
        ensures
            r@.tape == Seq::new(TAPE_LEN as nat, |i: int| 0u8),
            r@.tape_ptr == 0,
            r@.code_ptr == 0,
            r@.stack == Seq::<usize>::empty(),
    {
        let mut tape: Vec<u8> = Vec::new();
        while tape.len() < TAPE_LEN
            invariant
                tape.len() <= TAPE_LEN,
                forall|i: int| 0 <= i < tape.len() ==> tape@[i] == 0u8,
            decreases TAPE_LEN - tape.len(),
        {
            tape.push(0);
        }
        assert(tape@ =~= Seq::new(TAPE_LEN as nat, |i: int| 0u8));
        Interpreter { tape, tape_ptr: 0, code_ptr: 0, stack: Vec::new() }
    }

    /// Whether the next step is defined (see `can_step`).
    pub fn step_is_defined(&self, code: &Vec<char>, jump_table: &HashMap<usize, usize>) -> (r: bool)
        ensures
            r == can_step(self@, code@, jump_table@),
    {
        if self.code_ptr > code.len() {
            return false;
        }
        if self.code_ptr == code.len() {
            return true;
        }
        let c = code[self.code_ptr];
        if !(c == '+' || c == '-' || c == '>' || c == '<' || c == ',' || c == '.' || c == '['
            || c == ']') {
            return false;
        }
        if c == '>' || c == '<' {
            return true;
        }
        if self.tape_ptr >= self.tape.len() {
            return false;
        }
        let cell = self.tape[self.tape_ptr];
        if c == '[' && cell == 0 {
            return jump_table.contains_key(&self.code_ptr);
        }
        if c == ']' && cell != 0 {
            return self.stack.len() > 0;
        }
        true
    }

    /// Runs the command at `code_ptr`, or reports that the program has ended.
    pub fn step(&mut self, code: &Vec<char>, jump_table: &HashMap<usize, usize>) -> (action: Action)
        requires
            can_step(old(self)@, code@, jump_table@),
        ensures
            (final(self)@, action) == step_result(old(self)@, code@, jump_table@),
    {
        if self.code_ptr == code.len() {
            return Action::Halt;
        }
        let keyword = code[self.code_ptr];
        self.code_ptr += 1;
        if keyword == '+' {
            let v = self.tape[self.tape_ptr].wrapping_add(1);
            self.tape.set(self.tape_ptr, v);
            assert(self@.tape =~= step_result(old(self)@, code@, jump_table@).0.tape);
            Action::Continue
        } else if keyword == '-' {
            let v = self.tape[self.tape_ptr].wrapping_sub(1);
            self.tape.set(self.tape_ptr, v);
            assert(self@.tape =~= step_result(old(self)@, code@, jump_table@).0.tape);
            Action::Continue
        } else if keyword == '>' {
            self.tape_ptr = self.tape_ptr.wrapping_add(1);
            Action::Continue
        } else if keyword == '<' {
            self.tape_ptr = self.tape_ptr.wrapping_sub(1);
            Action::Continue
        } else if keyword == ',' {
            Action::Input
        } else if keyword == '.' {
            Action::Output(self.tape[self.tape_ptr])
        } else if keyword == '[' {
            if self.tape[self.tape_ptr] != 0 {
                self.stack.push(self.code_ptr);
                return Action::Continue;
            }
            self.code_ptr = *jump_table.get(&(self.code_ptr - 1)).unwrap();
            Action::Continue
        } else {
            if self.tape[self.tape_ptr] != 0 {
                self.code_ptr = *self.stack.last().unwrap();
                return Action::Continue;
            }
            self.stack.pop();
            assert(self@.stack =~= step_result(old(self)@, code@, jump_table@).0.stack);
            Action::Continue
        }
    }

    /// Stores a byte that was read for an `Input` action in the current cell.
    pub fn store_input(&mut self, byte: u8)
        requires
            old(self).tape_ptr < old(self).tape.len(),
        ensures
            final(self)@ == (MachineState {
                tape: old(self)@.tape.update(old(self).tape_ptr as int, byte),
                ..old(self)@
            }),
    {
        self.tape.set(self.tape_ptr, byte);
    }
}


/// A `[` on a zero cell is left for the position just after its matching
/// `]`; the tape and the loop stack stay as they are.
pub proof fn law_zero_cell_skips_loop(code: Seq<char>, table: Map<usize, usize>, s: MachineState)
    requires
        is_jump_table(code, table),
        s.code_ptr < code.len(),
        code[s.code_ptr as int] == '[',
        s.tape_ptr < s.tape.len(),
        s.tape[s.tape_ptr as int] == 0,
        has_match(char_steps(code), s.code_ptr as int),
    ensures
        ({
            let (n, a) = step_result(s, code, table);
            &&& n.code_ptr == match_of(char_steps(code), s.code_ptr as int) + 1
            &&& code[n.code_ptr - 1] == ']'
            &&& n.tape == s.tape
            &&& n.stack == s.stack
            &&& a == Action::Continue
        }),
{
    let d = char_steps(code);
    let j = match_of(d, s.code_ptr as int);
    assert(table.contains_key(s.code_ptr));
    assert(closes(d, s.code_ptr as int, j));
    assert(d[j] == char_step(code[j]));
}

/// Cells count modulo 256: `-` undoes `+` and `+` undoes `-`.
pub proof fn law_cells_wrap(x: u8)
    ensures
        dec_cell(inc_cell(x)) == x,
        inc_cell(dec_cell(x)) == x,
{
}


/// The positions of the `[`s whose loops are being run, read off a stack of
/// positions just after them.
pub open spec fn open_loops(stack: Seq<usize>) -> Seq<int> {
    stack.map_values(|x: usize| x as int - 1)
}

/// The loop stack of `s` holds, innermost last, exactly the `[`s before the
/// next command that are not closed before it.
pub open spec fn loop_stack_matches(code: Seq<char>, s: MachineState) -> bool {
    scan_state(char_steps(code), s.code_ptr as int, open_loops(s.stack))
}

proof fn lemma_char_unit_steps(code: Seq<char>)
    ensures
        unit_steps(char_steps(code)),
{
}

/// A fresh interpreter's empty stack matches the loops around the first
/// command.
pub proof fn law_start_matches(code: Seq<char>, tape: Seq<u8>)
    ensures
        loop_stack_matches(
            code,
            MachineState { tape, tape_ptr: 0, code_ptr: 0, stack: Seq::empty() },
        ),
{
    crate::brackets::lemma_scan_start(char_steps(code));
    assert(open_loops(Seq::<usize>::empty()) =~= Seq::<int>::empty());
}

/// Every step keeps the loop stack matched to the loops around the next
/// command.
pub proof fn law_step_keeps_loop_stack(code: Seq<char>, table: Map<usize, usize>, s: MachineState)
    requires
        code.len() <= usize::MAX,
        never_below_zero(char_steps(code)),
        is_jump_table(code, table),
        can_step(s, code, table),
        loop_stack_matches(code, s),
    ensures
        loop_stack_matches(code, step_result(s, code, table).0),
{
    let d = char_steps(code);
    let st = open_loops(s.stack);
    let n = step_result(s, code, table).0;
    lemma_char_unit_steps(code);
    if s.code_ptr < code.len() {
        let i = s.code_ptr as int;
        let c = code[i];
        let cell = s.tape[s.tape_ptr as int];
        let next = (s.code_ptr + 1) as usize;
        assert(d[i] == char_step(c));
        if c == '[' {
            if cell != 0 {
                lemma_scan_open(d, i, st);
                assert(n.stack == s.stack.push(next));
                assert(n.code_ptr == next);
                assert(open_loops(n.stack) =~= st.push(i));
            } else {
                assert(table.contains_key(s.code_ptr));
                let m = match_of(d, i);
                assert(closes(d, i, m));
                lemma_scan_skip(d, i, m, st);
                assert(n.stack == s.stack);
                assert(n.code_ptr == table[s.code_ptr]);
            }
        } else if c == ']' {
            if s.stack.len() == 0 {
                assert(st.len() == 0);
                lemma_scan_underflow(d, i, st);
            }
            if cell != 0 {
                lemma_scan_back(d, i, st);
                assert(st.last() + 1 == s.stack.last());
                assert(n.stack == s.stack);
                assert(n.code_ptr == s.stack.last());
            } else {
                lemma_scan_close(d, i, st);
                assert(n.stack == s.stack.drop_last());
                assert(n.code_ptr == next);
                assert(open_loops(n.stack) =~= st.drop_last());
            }
        } else {
            lemma_scan_neutral(d, i, st);
            assert(n.stack == s.stack);
            assert(n.code_ptr == next);
        }
    }
}

/// A `]` on a non-zero cell goes back to just after its own `[`.
pub proof fn law_loop_end_returns_to_its_start(
    code: Seq<char>,
    table: Map<usize, usize>,
    s: MachineState,
)
    requires
        never_below_zero(char_steps(code)),
        is_jump_table(code, table),
        can_step(s, code, table),
        loop_stack_matches(code, s),
        s.code_ptr < code.len(),
        code[s.code_ptr as int] == ']',
        s.tape[s.tape_ptr as int] != 0,
    ensures
        closes(char_steps(code), opener_of(char_steps(code), s.code_ptr as int), s.code_ptr as int),
        step_result(s, code, table).0.code_ptr == opener_of(char_steps(code), s.code_ptr as int) + 1,
{
    let d = char_steps(code);
    let st = open_loops(s.stack);
    let i = s.code_ptr as int;
    assert(d[i] == char_step(code[i]));
    lemma_scan_close(d, i, st);
    lemma_partners(d, st.last(), i);
    assert(st.last() + 1 == s.stack.last());
}

/// What one step from `s` does, command by command: `+` and `-` add and
/// subtract one, modulo 256, in the current cell and change no other cell;
/// `>` and `<` move the tape index by one; `.` asks for the current cell to
/// be written and `,` for a byte to be read, and neither changes the tape,
/// the tape index or the loop stack; every command but a jumping `[` or `]`
/// goes on with the next command, and only `.` and `,` ask the caller for
/// anything.
pub proof fn law_step_effects(code: Seq<char>, table: Map<usize, usize>, s: MachineState)
    requires
        code.len() <= usize::MAX,
        can_step(s, code, table),
        s.code_ptr < code.len(),
    ensures
        (code[s.code_ptr as int] == '.' || code[s.code_ptr as int] == ',') ==> {
            let n = step_result(s, code, table).0;
            n.tape == s.tape && n.tape_ptr == s.tape_ptr && n.stack == s.stack && n.code_ptr
                == s.code_ptr + 1
        },
        code[s.code_ptr as int] == '.' ==> step_result(s, code, table).1 == Action::Output(
            s.tape[s.tape_ptr as int],
        ),
        code[s.code_ptr as int] == ',' ==> step_result(s, code, table).1 == Action::Input,
        (code[s.code_ptr as int] != '.' && code[s.code_ptr as int] != ',') ==> step_result(
            s,
            code,
            table,
        ).1 == Action::Continue,
        (code[s.code_ptr as int] != '+' && code[s.code_ptr as int] != '-') ==> step_result(
            s,
            code,
            table,
        ).0.tape == s.tape,
        (code[s.code_ptr as int] == '+' || code[s.code_ptr as int] == '-') ==> {
            let n = step_result(s, code, table).0;
            &&& n.tape.len() == s.tape.len()
            &&& forall|i: int|
                0 <= i < s.tape.len() && i != s.tape_ptr ==> #[trigger] n.tape[i] == s.tape[i]
            &&& n.tape_ptr == s.tape_ptr && n.stack == s.stack && n.code_ptr == s.code_ptr + 1
        },
        code[s.code_ptr as int] == '+' ==> step_result(s, code, table).0.tape[s.tape_ptr as int] as int
            == (s.tape[s.tape_ptr as int] + 1) % 256,
        code[s.code_ptr as int] == '-' ==> step_result(s, code, table).0.tape[s.tape_ptr as int] as int
            == (s.tape[s.tape_ptr as int] + 255) % 256,
        code[s.code_ptr as int] == '>' ==> step_result(s, code, table).0.tape_ptr as int == (s.tape_ptr
            + 1) % (usize::MAX + 1) && step_result(s, code, table).0.code_ptr == s.code_ptr + 1,
        code[s.code_ptr as int] == '<' ==> step_result(s, code, table).0.tape_ptr as int == (s.tape_ptr
            + usize::MAX) % (usize::MAX + 1) && step_result(s, code, table).0.code_ptr == s.code_ptr
            + 1,
{
    let c = code[s.code_ptr as int];
    let p = s.tape_ptr as int;
    if c == '+' || c == '-' {
        let x = s.tape[p];
        if x == 255 {
            assert((x + 1) % 256 == 0);
        } else {
            assert((x + 1) % 256 == x + 1);
        }
        if x == 0 {
            assert((x + 255) % 256 == 255);
        } else {
            assert((x + 255) % 256 == x - 1);
        }
    }
    let big = usize::MAX + 1;
    if c == '>' {
        if s.tape_ptr == usize::MAX {
            vstd::arithmetic::div_mod::lemma_mod_self_0(big);
        } else {
            vstd::arithmetic::div_mod::lemma_small_mod((s.tape_ptr + 1) as nat, big as nat);
        }
    }
    if c == '<' {
        if s.tape_ptr == 0 {
            vstd::arithmetic::div_mod::lemma_small_mod(usize::MAX as nat, big as nat);
        } else {
            vstd::arithmetic::div_mod::lemma_mod_add_multiples_vanish(s.tape_ptr - 1, big);
            vstd::arithmetic::div_mod::lemma_small_mod((s.tape_ptr - 1) as nat, big as nat);
            assert(s.tape_ptr + usize::MAX == big + (s.tape_ptr - 1));
        }
    }
}

} // verus!
