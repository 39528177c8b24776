use std::collections::HashMap;

use bfjit::interpret::{can_build_jump_table, get_jump_table, Action, Interpreter, TAPE_LEN};

fn chars(s: &str) -> Vec<char> {
    s.chars().collect()
}

/// Runs a program to its end, feeding `input` to `,`, and returns the output.
fn run(code: &str, input: &[u8]) -> Vec<u8> {
    let code = chars(code);
    assert!(can_build_jump_table(&code));
    let table = get_jump_table(&code);
    let mut m = Interpreter::new();
    let mut out = Vec::new();
    let mut input = input.iter();
    loop {
        assert!(m.step_is_defined(&code, &table));
        match m.step(&code, &table) {
            Action::Continue => {}
            Action::Output(b) => out.push(b),
            Action::Input => m.store_input(*input.next().unwrap()),
            Action::Halt => return out,
        }
    }
}

#[test]
fn jump_table_maps_each_open_to_after_its_close() {
    let table = get_jump_table(&chars("[[]]"));
    let mut expected = HashMap::new();
    expected.insert(0, 4);
    expected.insert(1, 3);
    assert_eq!(table, expected);
}

#[test]
fn unmatched_open_has_no_entry() {
    let table = get_jump_table(&chars("[+[-]"));
    let mut expected = HashMap::new();
    expected.insert(2, 5);
    assert_eq!(table, expected);
}

#[test]
fn unopened_close_is_refused() {
    assert!(!can_build_jump_table(&chars("][")));
    assert!(can_build_jump_table(&chars("[[")));
}

#[test]
fn fresh_interpreter() {
    let m = Interpreter::new();
    assert_eq!(m.tape.len(), TAPE_LEN);
    assert!(m.tape.iter().all(|&c| c == 0));
    assert_eq!((m.tape_ptr, m.code_ptr), (0, 0));
    assert!(m.stack.is_empty());
}

#[test]
fn moving_a_cell() {
    assert_eq!(run("++[->+<]>.", &[]), vec![2]);
}

#[test]
fn echo_input() {
    assert_eq!(run(",.", &[65]), vec![65]);
}

#[test]
fn cells_wrap() {
    assert_eq!(run("-.", &[]), vec![255]);
    assert_eq!(run("-+.", &[]), vec![0]);
}

#[test]
fn zero_cell_skips_the_loop() {
    let code = chars("[+].");
    let table = get_jump_table(&code);
    let mut m = Interpreter::new();
    assert_eq!(m.step(&code, &table), Action::Continue);
    assert_eq!(m.code_ptr, 3);
    assert_eq!(m.step(&code, &table), Action::Output(0));
    assert_eq!(m.step(&code, &table), Action::Halt);
    assert_eq!(m.step(&code, &table), Action::Halt);
}

#[test]
fn nonzero_cell_enters_and_repeats_the_loop() {
    let code = chars("+[-]");
    let table = get_jump_table(&code);
    let mut m = Interpreter::new();
    m.step(&code, &table);
    m.step(&code, &table);
    assert_eq!(m.stack, vec![2]);
    m.step(&code, &table);
    assert_eq!(m.tape[0], 0);
    m.step(&code, &table);
    assert!(m.stack.is_empty());
    assert_eq!(m.code_ptr, 4);
}

#[test]
fn moving_left_of_the_tape_start_wraps_the_index() {
    let code = chars("<+");
    let table = get_jump_table(&code);
    let mut m = Interpreter::new();
    m.step(&code, &table);
    assert_eq!(m.tape_ptr, usize::MAX);
    assert!(!m.step_is_defined(&code, &table));
}

#[test]
fn other_characters_cannot_be_run() {
    let code = chars("a");
    let table = get_jump_table(&code);
    let m = Interpreter::new();
    assert!(!m.step_is_defined(&code, &table));
}

#[test]
fn unmatched_open_with_zero_cell_cannot_be_run() {
    let code = chars("[");
    let table = get_jump_table(&code);
    let m = Interpreter::new();
    assert!(!m.step_is_defined(&code, &table));
}

#[test]
fn loop_end_on_nonzero_cell_returns_after_its_open() {
    let code = chars(">++[-]");
    let table = get_jump_table(&code);
    let mut m = Interpreter::new();
    for _ in 0..5 {
        m.step(&code, &table);
    }
    // `[` at 3 entered, `-` run once, now at `]` with the cell at 1
    assert_eq!(m.code_ptr, 5);
    assert_eq!(m.tape[1], 1);
    m.step(&code, &table);
    assert_eq!(m.code_ptr, 4);
    assert_eq!(m.stack, vec![4]);
}

#[test]
fn loop_stack_follows_nesting() {
    let code = chars("+[>+[-]<-]");
    let table = get_jump_table(&code);
    let mut m = Interpreter::new();
    let mut deepest = 0;
    loop {
        if m.step(&code, &table) == Action::Halt {
            break;
        }
        // every entry sits just after a `[`
        for &p in &m.stack {
            assert_eq!(code[p - 1], '[');
        }
        deepest = deepest.max(m.stack.len());
    }
    assert_eq!(deepest, 2);
    assert!(m.stack.is_empty());
    assert_eq!(&m.tape[0..2], &[0, 0]);
}
