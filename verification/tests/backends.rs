use bfjit::backends::{arm, x64, x86};

#[test]
fn x64_shift_up_appends_add_compare_jump_and_ret() {
    let mut out = vec![0xaa];
    x64::shift_up(&mut out, 2);
    assert_eq!(
        out,
        vec![
            0xaa, 0x48, 0x81, 0xc1, 0x02, 0x00, 0x00, 0x00, 0x48, 0x81, 0xf9, 0x00, 0x00, 0x01, 0x00,
            0x0f, 0x8c, 0x01, 0x00, 0x00, 0x00, 0xc3
        ]
    );
}

#[test]
fn x64_shift_down_appends_sub_compare_jump_and_ret() {
    let mut out = Vec::new();
    x64::shift_down(&mut out, 0xff);
    assert_eq!(
        out,
        vec![
            0x48, 0x81, 0xe9, 0xff, 0x00, 0x00, 0x00, 0x48, 0x81, 0xf9, 0x00, 0x00, 0x01, 0x00, 0x0f,
            0x8c, 0x01, 0x00, 0x00, 0x00, 0xc3
        ]
    );
}

#[test]
fn x64_cell_updates() {
    let mut out = Vec::new();
    x64::mem_inc(&mut out, 7);
    x64::mem_dec(&mut out, 9);
    x64::mov_0_asm(&mut out);
    assert_eq!(
        out,
        vec![0x42, 0x80, 0x04, 0x21, 7, 0x42, 0x80, 0x2c, 0x21, 9, 0x42, 0xc6, 0x04, 0x21, 0x00]
    );
}

#[test]
fn x64_loop_head_and_tail() {
    let mut out = Vec::new();
    x64::start_loop(&mut out);
    x64::end_loop(&mut out, 0x1234_5678);
    assert_eq!(
        out,
        vec![0x42, 0x80, 0x3c, 0x21, 0x00, 0x0f, 0x84, 0, 0, 0, 0, 0xe9, 0x78, 0x56, 0x34, 0x12]
    );
}

#[test]
fn x64_negative_jump_is_twos_complement() {
    let mut out = Vec::new();
    x64::end_loop(&mut out, (-21i32) as u32);
    assert_eq!(out, vec![0xe9, 0xeb, 0xff, 0xff, 0xff]);
}

#[test]
fn x64_system_calls() {
    let mut out = Vec::new();
    x64::print_asm(&mut out);
    assert_eq!(out.len(), 35);
    assert_eq!(&out[0..3], &[0x49, 0x89, 0xcd]);
    assert_eq!(&out[3..10], &[0x48, 0xc7, 0xc0, 0x01, 0x00, 0x00, 0x00]);
    assert_eq!(&out[30..35], &[0x0f, 0x05, 0x4c, 0x89, 0xe9]);
    let mut inp = Vec::new();
    x64::read_asm(&mut inp);
    assert_eq!(inp.len(), 35);
    assert_eq!(&inp[3..10], &[0x48, 0xc7, 0xc0, 0x00, 0x00, 0x00, 0x00]);
    assert_eq!(&inp[10..], &out[10..]);
}

#[test]
fn x64_prologue_ret_and_relative_add() {
    let mut out = Vec::new();
    x64::setup_pointer(&mut out);
    x64::ret(&mut out);
    assert_eq!(
        out,
        vec![0x48, 0x89, 0xf9, 0x49, 0x89, 0xcc, 0x48, 0xc7, 0xc1, 0x00, 0x00, 0x00, 0x00, 0xc3]
    );
}

#[test]
fn x64_relative_add_runs_the_loop_on_a_copy() {
    let mut out = vec![0x90];
    x64::add_relative_asm(&mut out, 3, 1, -1);
    assert_eq!(
        out,
        vec![
            0x90, 0x42, 0x8a, 0x04, 0x21, 0x84, 0xc0, 0x74, 0x0d, 0x42, 0x80, 0x84, 0x21, 0x03, 0x00,
            0x00, 0x00, 0x01, 0x04, 0xff, 0xeb, 0xef
        ]
    );
    let mut back = Vec::new();
    x64::add_relative_asm(&mut back, -2, -128, 3);
    assert_eq!(back.len(), 21);
    assert_eq!(&back[12..19], &[0xfe, 0xff, 0xff, 0xff, 0x80, 0x04, 0x03]);
}

#[test]
fn x86_emitters() {
    let mut out = Vec::new();
    x86::shift_up(&mut out, 1);
    x86::shift_down(&mut out, 2);
    x86::mem_inc(&mut out, 3);
    x86::mem_dec(&mut out, 4);
    assert_eq!(
        out,
        vec![
            0x83, 0xc1, 1, 0, 0, 0, 0x81, 0xe9, 2, 0, 0, 0, 0x80, 0x01, 3, 0x80, 0x29, 4
        ]
    );
    let mut lp = Vec::new();
    x86::start_loop(&mut lp);
    x86::end_loop(&mut lp, 0x1234_5678);
    assert_eq!(
        lp,
        vec![
            0x80, 0x3d, 0, 0, 0, 0, 0, 0x0f, 0x84, 0, 0, 0, 0, 0xe9, 0x78, 0x56, 0x34, 0x12
        ]
    );
    let mut io = Vec::new();
    x86::print_asm(&mut io);
    x86::read_asm(&mut io);
    assert_eq!(io.len(), 34);
    assert_eq!(io[1], 0x04);
    assert_eq!(io[18], 0x03);
}

#[test]
fn arm_emitters() {
    let mut out = Vec::new();
    arm::shift_up(&mut out, 1);
    arm::shift_down(&mut out, 2);
    assert_eq!(out, vec![1, 0x10, 0x81, 0xe2, 2, 0x10, 0x41, 0xe2]);
    let mut cell = Vec::new();
    arm::mem_inc(&mut cell, 5);
    arm::mem_dec(&mut cell, 6);
    assert_eq!(
        cell,
        vec![
            0, 0, 0x91, 0xe5, 5, 0, 0x80, 0xe2, 0, 0, 0x81, 0xe5, 0, 0, 0x91, 0xe5, 6, 0, 0x40, 0xe2,
            0, 0, 0x81, 0xe5
        ]
    );
    let mut lp = Vec::new();
    arm::start_loop(&mut lp, vec![9, 9]);
    arm::end_loop(&mut lp, vec![9]);
    assert_eq!(lp, vec![0, 0, 0x91, 0xe5, 0, 0, 0x50, 0xe3, 0, 0, 0, 0x0a]);
    let mut io = Vec::new();
    arm::print_asm(&mut io);
    arm::read_asm(&mut io);
    assert_eq!(io.len(), 32);
    assert_eq!(&io[0..4], &[0x03, 0x70, 0xa0, 0xe3]);
    assert_eq!(&io[16..20], &[0x04, 0x70, 0xa0, 0xe3]);
    assert_eq!(&io[12..16], &[0, 0, 0, 0xef]);
}
