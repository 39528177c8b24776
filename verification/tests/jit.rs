use bfjit::jit::ast::{build_ast, can_build, tokenize, SyntaxTree, SyntaxTreeInst, Token};
use bfjit::jit::optimiser::{optimise, try_optimise};
use bfjit::jit::{can_compile, compile, flatten_ast, jit_code, round_to_pages, JitError};


fn chars(s: &str) -> Vec<char> {
    s.chars().collect()
}

const SETUP: [u8; 13] = [0x48, 0x89, 0xf9, 0x49, 0x89, 0xcc, 0x48, 0xc7, 0xc1, 0x00, 0x00, 0x00, 0x00];

fn with_frame(body: &[u8]) -> Vec<u8> {
    let mut v = SETUP.to_vec();
    v.extend_from_slice(body);
    v.push(0xc3);
    v
}

#[test]
fn tokens_are_one_per_command() {
    assert_eq!(
        tokenize(chars("a+-<>[],.b")),
        vec![
            Token::Inc,
            Token::Dec,
            Token::MovDown,
            Token::MovUp,
            Token::LoopStart,
            Token::LoopEnd,
            Token::Read,
            Token::Print
        ]
    );
}

#[test]
fn tree_of_a_simple_program() {
    let tree = build_ast(chars("++>[-]<,"));
    assert_eq!(tree.instructions, vec![SyntaxTreeInst::Add(2), SyntaxTreeInst::Shiftup(1), SyntaxTreeInst::Loop, SyntaxTreeInst::ShiftDown(1), SyntaxTreeInst::Read]);
    assert_eq!(tree.loops.len(), 1);
    assert_eq!(tree.loops[0].instructions, vec![SyntaxTreeInst::Sub(1)]);
    assert!(tree.loops[0].loops.is_empty());
}

#[test]
fn nested_loops_nest_trees() {
    let tree = build_ast(chars("[[>]<]"));
    assert_eq!(tree.instructions, vec![SyntaxTreeInst::Loop]);
    assert_eq!(tree.loops[0].instructions, vec![SyntaxTreeInst::Loop, SyntaxTreeInst::ShiftDown(1)]);
    assert_eq!(tree.loops[0].loops[0].instructions, vec![SyntaxTreeInst::Shiftup(1)]);
}

#[test]
fn reading_stops_at_an_unopened_loop_end() {
    let tree = build_ast(chars("+]+"));
    assert_eq!(tree.instructions, vec![SyntaxTreeInst::Add(1)]);
    assert!(tree.loops.is_empty());
}

#[test]
fn an_open_loop_runs_to_the_end() {
    let tree = build_ast(chars("[++"));
    assert_eq!(tree.instructions, vec![SyntaxTreeInst::Loop]);
    assert_eq!(tree.loops[0].instructions, vec![SyntaxTreeInst::Add(2)]);
}

#[test]
fn each_print_becomes_one_instruction() {
    let tree = build_ast(chars("..+"));
    assert_eq!(tree.instructions, vec![SyntaxTreeInst::Print, SyntaxTreeInst::Print, SyntaxTreeInst::Add(1)]);
    assert!(tree.loops.is_empty());
    let looped = build_ast(chars("[.-]"));
    assert_eq!(looped.loops[0].instructions, vec![SyntaxTreeInst::Print, SyntaxTreeInst::Sub(1)]);
}

#[test]
fn long_runs_cannot_be_built() {
    assert!(can_build(&tokenize(chars("+."))));
    let after_end: Vec<char> = "+]".chars().chain(std::iter::repeat('>').take(300)).collect();
    assert!(can_build(&tokenize(after_end)));
    let long: Vec<char> = std::iter::repeat('>').take(256).collect();
    assert!(!can_build(&tokenize(long)));
    let ok: Vec<char> = std::iter::repeat('>').take(255).collect();
    assert!(can_build(&tokenize(ok.clone())));
    assert_eq!(build_ast(ok).instructions, vec![SyntaxTreeInst::Shiftup(255)]);
}

#[test]
fn clearing_loop_becomes_clear() {
    let mut tree = build_ast(chars("+[-]"));
    optimise(&mut tree);
    assert_eq!(tree.instructions, vec![SyntaxTreeInst::Add(1), SyntaxTreeInst::Clear]);
    assert!(tree.loops.is_empty());
}

#[test]
fn moving_loop_becomes_relative_add() {
    let mut tree = build_ast(chars("[->+<]"));
    assert!(try_optimise(&mut tree));
    assert_eq!(tree.instructions, vec![SyntaxTreeInst::AddRelative(1, 1, -1), SyntaxTreeInst::Clear]);
}

#[test]
fn relative_adds_follow_first_change_order() {
    let mut tree = build_ast(chars("[>>++<-<-]"));
    assert!(try_optimise(&mut tree));
    assert_eq!(tree.instructions, vec![SyntaxTreeInst::AddRelative(2, 2, -1), SyntaxTreeInst::AddRelative(1, -1, -1), SyntaxTreeInst::Clear]);
}

#[test]
fn loop_that_moves_stays() {
    let mut tree = build_ast(chars("[>]"));
    assert!(try_optimise(&mut tree));
    assert_eq!(tree.instructions, vec![SyntaxTreeInst::Loop]);
    assert_eq!(tree.loops[0].instructions, vec![SyntaxTreeInst::Shiftup(1)]);
}

#[test]
fn loop_with_input_stays() {
    let mut tree = build_ast(chars("[,]"));
    assert!(try_optimise(&mut tree));
    assert_eq!(tree.instructions, vec![SyntaxTreeInst::Loop]);
}

#[test]
fn inner_loops_are_optimised_first() {
    let mut tree = build_ast(chars("[[-]>]"));
    assert!(try_optimise(&mut tree));
    assert_eq!(tree.instructions, vec![SyntaxTreeInst::Loop]);
    assert_eq!(tree.loops[0].instructions, vec![SyntaxTreeInst::Clear, SyntaxTreeInst::Shiftup(1)]);
    assert!(tree.loops[0].loops.is_empty());
}

#[test]
fn loop_that_never_changes_its_cell_stays() {
    let mut tree = build_ast(chars("[>+<]"));
    assert!(try_optimise(&mut tree));
    assert_eq!(tree.instructions, vec![SyntaxTreeInst::Loop]);
    assert_eq!(tree.loops[0].instructions, vec![SyntaxTreeInst::Shiftup(1), SyntaxTreeInst::Add(1), SyntaxTreeInst::ShiftDown(1)]);
    let mut empty = build_ast(chars("[]"));
    assert!(try_optimise(&mut empty));
    assert_eq!(empty.instructions, vec![SyntaxTreeInst::Loop]);
    assert!(empty.loops[0].instructions.is_empty());
}

#[test]
fn first_change_of_minus_128_wraps() {
    let mut code = String::from("[>");
    code.push_str(&"-".repeat(128));
    code.push_str("<-]");
    let mut tree = build_ast(chars(&code));
    assert!(try_optimise(&mut tree));
    assert_eq!(tree.instructions, vec![SyntaxTreeInst::AddRelative(1, -128, -1), SyntaxTreeInst::Clear]);
    let mut own = String::from("[");
    own.push_str(&"-".repeat(128));
    own.push(']');
    let mut own_tree = build_ast(chars(&own));
    assert!(try_optimise(&mut own_tree));
    assert_eq!(own_tree.instructions, vec![SyntaxTreeInst::Clear]);
    let mut plus = String::from("[");
    plus.push_str(&"+".repeat(128));
    plus.push(']');
    let mut tree2 = build_ast(chars(&plus));
    assert!(try_optimise(&mut tree2));
    assert_eq!(tree2.instructions, vec![SyntaxTreeInst::Clear]);
}

#[test]
fn flattening_brackets_each_loop_body() {
    let tree = SyntaxTree {
        instructions: vec![SyntaxTreeInst::Add(1), SyntaxTreeInst::Loop, SyntaxTreeInst::Read],
        loops: vec![SyntaxTree { instructions: vec![SyntaxTreeInst::Sub(1)], loops: vec![] }],
    };
    assert_eq!(
        flatten_ast(&tree),
        vec![SyntaxTreeInst::Add(1), SyntaxTreeInst::Loop, SyntaxTreeInst::Sub(1), SyntaxTreeInst::LoopEnd, SyntaxTreeInst::Read]
    );
    let nested = build_ast(chars("[[-]>,]"));
    assert_eq!(
        flatten_ast(&nested),
        vec![
            SyntaxTreeInst::Loop, SyntaxTreeInst::Loop, SyntaxTreeInst::Sub(1), SyntaxTreeInst::LoopEnd,
            SyntaxTreeInst::Shiftup(1), SyntaxTreeInst::Read, SyntaxTreeInst::LoopEnd
        ]
    );
}

#[test]
fn straight_line_compile() {
    assert_eq!(
        compile(vec![SyntaxTreeInst::Add(3), SyntaxTreeInst::Sub(1), SyntaxTreeInst::Clear]),
        with_frame(&[0x42, 0x80, 0x04, 0x21, 3, 0x42, 0x80, 0x2c, 0x21, 1, 0x42, 0xc6, 0x04, 0x21, 0])
    );
}

#[test]
fn compiled_loop_jumps() {
    // head at 13 (ends at 24), add at 24, tail at 29 (ends at 34):
    // `je` by 34 - 24 = 10, `jmp` by -(29 - 24) - 16 = -21, back to 13.
    assert_eq!(
        compile(vec![SyntaxTreeInst::Loop, SyntaxTreeInst::Add(1), SyntaxTreeInst::LoopEnd]),
        with_frame(&[
            0x42, 0x80, 0x3c, 0x21, 0x00, 0x0f, 0x84, 0x0a, 0x00, 0x00, 0x00, 0x42, 0x80, 0x04, 0x21,
            0x01, 0xe9, 0xeb, 0xff, 0xff, 0xff
        ])
    );
}

#[test]
fn compile_checks() {
    assert!(!can_compile(&vec![SyntaxTreeInst::LoopEnd]));
    assert!(can_compile(&vec![SyntaxTreeInst::Loop, SyntaxTreeInst::LoopEnd]));
    assert!(can_compile(&vec![]));
}

#[test]
fn code_of_programs() {
    assert_eq!(jit_code(chars("+++")), Ok(with_frame(&[0x42, 0x80, 0x04, 0x21, 3])));
    assert_eq!(jit_code(chars("[-]")), Ok(with_frame(&[0x42, 0xc6, 0x04, 0x21, 0])));
    assert_eq!(jit_code(chars("")), Ok(with_frame(&[])));
}

#[test]
fn code_errors() {
    let long: Vec<char> = std::iter::repeat('+').take(256).collect();
    assert_eq!(jit_code(long), Err(JitError::Parse));
}

#[test]
fn loops_left_after_optimising_are_compiled() {
    // head at 13 (ends at 24), `add rcx` block 24..45, tail 45..50:
    // `je` by 50 - 24 = 26, `jmp` by 24 - 45 - 16 = -37, back to 13.
    assert_eq!(
        jit_code(chars("[>]")),
        Ok(with_frame(&[
            0x42, 0x80, 0x3c, 0x21, 0x00, 0x0f, 0x84, 0x1a, 0x00, 0x00, 0x00, 0x48, 0x81, 0xc1, 0x01,
            0x00, 0x00, 0x00, 0x48, 0x81, 0xf9, 0x00, 0x00, 0x01, 0x00, 0x0f, 0x8c, 0x01, 0x00, 0x00,
            0x00, 0xc3, 0xe9, 0xdb, 0xff, 0xff, 0xff
        ]))
    );
    let kept = vec![
        SyntaxTreeInst::Loop,
        SyntaxTreeInst::Shiftup(1),
        SyntaxTreeInst::Add(1),
        SyntaxTreeInst::ShiftDown(1),
        SyntaxTreeInst::LoopEnd,
    ];
    assert_eq!(jit_code(chars("[>+<]")), Ok(compile(kept)));
}

#[test]
fn printing_programs_compile() {
    let code = jit_code(chars("+.")).unwrap();
    assert_eq!(code.len(), 13 + 5 + 35 + 1);
    let moved = jit_code(chars("[->+<]")).unwrap();
    assert_eq!(
        moved,
        with_frame(&[
            0x42, 0x8a, 0x04, 0x21, 0x84, 0xc0, 0x74, 0x0d, 0x42, 0x80, 0x84, 0x21, 0x01, 0x00, 0x00,
            0x00, 0x01, 0x04, 0xff, 0xeb, 0xef, 0x42, 0xc6, 0x04, 0x21, 0x00
        ])
    );
}

#[test]
fn page_rounding() {
    assert_eq!(round_to_pages(1, 4096), 4096);
    assert_eq!(round_to_pages(4096, 4096), 4096);
    assert_eq!(round_to_pages(4097, 4096), 8192);
    assert_eq!(round_to_pages(0, 4096), 0);
    assert_eq!(round_to_pages(5, 3), 5);
}

fn loops_counted(tree: &SyntaxTree) -> bool {
    let n = tree.instructions.iter().filter(|i| **i == SyntaxTreeInst::Loop).count();
    n == tree.loops.len() && tree.loops.iter().all(loops_counted)
}

#[test]
fn optimised_trees_stay_well_formed() {
    for text in ["[[-]>]", "+[->+<][>]", "[[[-]]]>[,[-]]", "[-][-]"] {
        let mut tree = build_ast(chars(text));
        assert!(loops_counted(&tree));
        assert!(try_optimise(&mut tree));
        assert!(loops_counted(&tree));
    }
}

fn spell(tree: &SyntaxTree, out: &mut String) {
    let mut next_loop = 0;
    for inst in &tree.instructions {
        match inst {
            SyntaxTreeInst::Add(n) => out.push_str(&"+".repeat(*n as usize)),
            SyntaxTreeInst::Sub(n) => out.push_str(&"-".repeat(*n as usize)),
            SyntaxTreeInst::Shiftup(n) => out.push_str(&">".repeat(*n as usize)),
            SyntaxTreeInst::ShiftDown(n) => out.push_str(&"<".repeat(*n as usize)),
            SyntaxTreeInst::Read => out.push(','),
            SyntaxTreeInst::Print => out.push('.'),
            SyntaxTreeInst::Loop => {
                out.push('[');
                spell(&tree.loops[next_loop], out);
                next_loop += 1;
                out.push(']');
            }
            other => panic!("unexpected instruction {:?}", other),
        }
    }
}

#[test]
fn closed_tree_spells_its_text() {
    let text = "+++[->>++<<]<<,[[-]>.]..";
    let tree = build_ast(chars(text));
    let mut spelled = String::new();
    spell(&tree, &mut spelled);
    assert_eq!(spelled, text);
}

#[test]
fn tree_spells_text_up_to_the_closing_bracket() {
    let tree = build_ast(chars("++[-]>]<<"));
    let mut spelled = String::new();
    spell(&tree, &mut spelled);
    assert_eq!(spelled, "++[-]>");
}

#[test]
fn open_tree_spells_text_and_closes_its_loops() {
    let tree = build_ast(chars("+[>[<"));
    let mut spelled = String::new();
    spell(&tree, &mut spelled);
    assert_eq!(spelled, "+[>[<]]");
}

#[test]
fn same_text_same_tree() {
    let a = build_ast(chars("[->+<]>>[[-],]"));
    let b = build_ast(chars("[->+<]>>[[-],]"));
    assert_eq!(format!("{:?}", a), format!("{:?}", b));
}

#[test]
fn relative_add_carries_the_net_change_of_one_pass() {
    let mut tree = build_ast(chars("[->+>-<+<]"));
    assert!(try_optimise(&mut tree));
    assert_eq!(
        tree.instructions,
        vec![SyntaxTreeInst::AddRelative(1, 2, -1), SyntaxTreeInst::AddRelative(2, -1, -1), SyntaxTreeInst::Clear]
    );
    assert!(tree.loops.is_empty());
}

#[test]
fn optimising_twice_changes_nothing() {
    for text in ["[[-]>]", "+[->+<][>]", "[[[-]]]>[,[-]]", "[>+<]", "[.[-]]"] {
        let mut once = build_ast(chars(text));
        optimise(&mut once);
        let first = format!("{:?}", once);
        optimise(&mut once);
        assert_eq!(format!("{:?}", once), first);
    }
}

#[test]
fn fresh_trees_hold_only_read_instructions() {
    let tree = build_ast(chars("+[->+<.,]<<[[]]"));
    let mut spelled = String::new();
    spell(&tree, &mut spelled);
    assert_eq!(spelled, "+[->+<.,]<<[[]]");
}

#[test]
fn loops_stepping_up_are_replaced_too() {
    let mut tree = build_ast(chars("[+>+<]"));
    assert!(try_optimise(&mut tree));
    assert_eq!(tree.instructions, vec![SyntaxTreeInst::AddRelative(1, 1, 1), SyntaxTreeInst::Clear]);
    let mut by_two = build_ast(chars("[-->+<]"));
    assert!(try_optimise(&mut by_two));
    assert_eq!(by_two.instructions, vec![SyntaxTreeInst::AddRelative(1, 1, -2), SyntaxTreeInst::Clear]);
    let mut drifting = build_ast(chars("[-->+<<]"));
    assert!(try_optimise(&mut drifting));
    assert_eq!(drifting.instructions, vec![SyntaxTreeInst::Loop]);
}

#[test]
fn kept_loops_stay_in_order() {
    let mut tree = build_ast(chars("[.-][->+<][,][>]"));
    optimise(&mut tree);
    assert_eq!(
        tree.instructions,
        vec![SyntaxTreeInst::Loop, SyntaxTreeInst::AddRelative(1, 1, -1), SyntaxTreeInst::Clear, SyntaxTreeInst::Loop, SyntaxTreeInst::Loop]
    );
    assert_eq!(tree.loops.len(), 3);
    assert_eq!(tree.loops[0].instructions, vec![SyntaxTreeInst::Print, SyntaxTreeInst::Sub(1)]);
    assert_eq!(tree.loops[1].instructions, vec![SyntaxTreeInst::Read]);
    assert_eq!(tree.loops[2].instructions, vec![SyntaxTreeInst::Shiftup(1)]);
}
