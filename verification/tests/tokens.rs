use bfjit::tokenize::{can_compile, can_tokenize, compile, tokenize, Tokens};

fn chars(s: &str) -> Vec<char> {
    s.chars().collect()
}

#[test]
fn runs_are_collapsed() {
    assert_eq!(
        tokenize(chars("+++>>-<.[,]")),
        vec![
            Tokens::Inc(3),
            Tokens::MovUp(2),
            Tokens::Dec(1),
            Tokens::MovDown(1),
            Tokens::Print,
            Tokens::LoopStart,
            Tokens::Read,
            Tokens::LoopEnd
        ]
    );
}

#[test]
fn brackets_and_io_are_never_collapsed() {
    assert_eq!(
        tokenize(chars("[[..,,]]")),
        vec![
            Tokens::LoopStart,
            Tokens::LoopStart,
            Tokens::Print,
            Tokens::Print,
            Tokens::Read,
            Tokens::Read,
            Tokens::LoopEnd,
            Tokens::LoopEnd
        ]
    );
}

#[test]
fn runs_stop_at_brackets() {
    assert_eq!(
        tokenize(chars("++[++")),
        vec![Tokens::Inc(2), Tokens::LoopStart, Tokens::Inc(2)]
    );
}

#[test]
fn empty_text_has_no_tokens() {
    assert_eq!(tokenize(vec![]), vec![]);
}

#[test]
fn longest_run() {
    let code: Vec<char> = std::iter::repeat('-').take(255).collect();
    assert!(can_tokenize(&code));
    assert_eq!(tokenize(code), vec![Tokens::Dec(255)]);
}

#[test]
fn too_long_a_run_is_refused() {
    let code: Vec<char> = std::iter::repeat('+').take(256).collect();
    assert!(!can_tokenize(&code));
}

#[test]
fn other_characters_are_refused() {
    assert!(!can_tokenize(&chars("+a")));
    assert!(can_tokenize(&chars("+-<>[],.")));
}

#[test]
fn straight_line_code() {
    assert_eq!(
        compile(vec![Tokens::Inc(1), Tokens::MovUp(2)]),
        vec![
            0x48, 0x89, 0xf9, 0x80, 0x01, 0x01, 0x48, 0x81, 0xc1, 0x02, 0x00, 0x00, 0x00, 0x48, 0x89,
            0xc8, 0xc3
        ]
    );
}

#[test]
fn loop_jumps_are_patched() {
    // `[` at 3 (ends at 12), `+` at 12, `]` at 15 (ends at 20):
    // the `je` jumps 20 - 12 = 8 forward, the `jmp` jumps 12 - 15 - 14 = -17 back to 3.
    assert_eq!(
        compile(vec![Tokens::LoopStart, Tokens::Inc(1), Tokens::LoopEnd]),
        vec![
            0x48, 0x89, 0xf9, 0x80, 0x39, 0x00, 0x0f, 0x84, 0x08, 0x00, 0x00, 0x00, 0x80, 0x01, 0x01,
            0xe9, 0xef, 0xff, 0xff, 0xff, 0x48, 0x89, 0xc8, 0xc3
        ]
    );
}

#[test]
fn unmatched_loop_keeps_zero_displacement() {
    assert_eq!(
        compile(vec![Tokens::LoopStart]),
        vec![0x48, 0x89, 0xf9, 0x80, 0x39, 0x00, 0x0f, 0x84, 0, 0, 0, 0, 0x48, 0x89, 0xc8, 0xc3]
    );
}

#[test]
fn io_tokens_have_fixed_code() {
    let out = compile(vec![Tokens::Print, Tokens::Read]);
    assert_eq!(out.len(), 3 + 32 + 32 + 4);
    assert_eq!(&out[3..13], &[0x49, 0x89, 0xcd, 0x48, 0xc7, 0xc0, 0x01, 0x00, 0x00, 0x00]);
    assert_eq!(&out[35..45], &[0x49, 0x89, 0xcd, 0x48, 0xc7, 0xc0, 0x00, 0x00, 0x00, 0x00]);
}

#[test]
fn unopened_loop_end_is_refused() {
    assert!(!can_compile(&vec![Tokens::LoopEnd]));
    assert!(can_compile(&vec![Tokens::LoopStart, Tokens::LoopEnd]));
    assert!(can_compile(&vec![Tokens::LoopStart]));
}

#[test]
fn nested_loops_patch_each_head() {
    let out = compile(vec![
        Tokens::LoopStart,
        Tokens::LoopStart,
        Tokens::LoopEnd,
        Tokens::LoopEnd,
    ]);
    // heads at 3 and 12, tails at 21 and 26, end at 31
    assert_eq!(&out[8..12], &[19, 0, 0, 0]);
    assert_eq!(&out[17..21], &[5, 0, 0, 0]);
    assert_eq!(&out[22..26], &(-14i32).to_le_bytes());
    assert_eq!(&out[27..31], &(-28i32).to_le_bytes());
}

fn expand(tokens: &[Tokens]) -> String {
    let mut s = String::new();
    for t in tokens {
        match *t {
            Tokens::Inc(n) => s.push_str(&"+".repeat(n as usize)),
            Tokens::Dec(n) => s.push_str(&"-".repeat(n as usize)),
            Tokens::MovUp(n) => s.push_str(&">".repeat(n as usize)),
            Tokens::MovDown(n) => s.push_str(&"<".repeat(n as usize)),
            Tokens::LoopStart => s.push('['),
            Tokens::LoopEnd => s.push(']'),
            Tokens::Print => s.push('.'),
            Tokens::Read => s.push(','),
        }
    }
    s
}

#[test]
fn tokens_stand_for_the_text() {
    for text in ["", "+", "++--<<>>", "[->+<]..,,", "+>+>+", "---[[]]>>>"] {
        assert_eq!(expand(&tokenize(chars(text))), text);
    }
}

fn body(code: &[u8]) -> &[u8] {
    &code[3..code.len() - 4]
}

#[test]
fn code_of_joined_streams_is_joined_code() {
    let a = vec![Tokens::LoopStart, Tokens::Inc(2), Tokens::LoopStart, Tokens::Dec(1), Tokens::LoopEnd, Tokens::LoopEnd];
    let b = vec![Tokens::MovUp(3), Tokens::LoopStart, Tokens::Print, Tokens::LoopEnd, Tokens::Read];
    let mut ab = a.clone();
    ab.extend(b.iter().cloned());
    let whole = compile(ab);
    let first = compile(a);
    let second = compile(b);
    assert_eq!(&whole[..3], &[0x48, 0x89, 0xf9]);
    assert_eq!(&whole[whole.len() - 4..], &[0x48, 0x89, 0xc8, 0xc3]);
    let mut joined = body(&first).to_vec();
    joined.extend_from_slice(body(&second));
    assert_eq!(body(&whole), &joined[..]);
}
