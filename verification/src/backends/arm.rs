//! 32-bit ARM emitter (little-endian instruction words). The tape pointer
//! lives in `r1`.
use vstd::prelude::*;

verus! {

fn asm_write(out: &mut Vec<u8>, ext: Vec<u8>)
    ensures
        final(out)@ == old(out)@ + ext@,
{
    let mut ext = ext;
    out.append(&mut ext);
}

/// `ldr r0, [r1]`
pub open spec fn load_code() -> Seq<u8> {
    seq![0x00u8, 0x00u8, 0x91u8, 0xe5u8]
}

/// `str r0, [r1]`
pub open spec fn store_code() -> Seq<u8> {
    seq![0x00u8, 0x00u8, 0x81u8, 0xe5u8]
}

/// `add r1, r1, #n`
pub open spec fn shift_up_code(n: u8) -> Seq<u8> {
    seq![n, 0x10u8, 0x81u8, 0xe2u8]
}

/// `sub r1, r1, #n`
pub open spec fn shift_down_code(n: u8) -> Seq<u8> {
    seq![n, 0x10u8, 0x41u8, 0xe2u8]
}

/// `ldr r0, [r1]; add r0, r0, #n; str r0, [r1]`
pub open spec fn mem_inc_code(n: u8) -> Seq<u8> {
    load_code() + seq![n, 0x00u8, 0x80u8, 0xe2u8] + store_code()
}

/// `ldr r0, [r1]; sub r0, r0, #n; str r0, [r1]`
pub open spec fn mem_dec_code(n: u8) -> Seq<u8> {
    load_code() + seq![n, 0x00u8, 0x40u8, 0xe2u8] + store_code()
}

/// `ldr r0, [r1]; cmp r0, #0; beq` with a zero branch offset.
pub open spec fn start_loop_code() -> Seq<u8> {
    load_code() + seq![0x00u8, 0x00u8, 0x50u8, 0xe3u8] + seq![0x00u8, 0x00u8, 0x00u8, 0x0au8]
}

/// The output system call sequence: `mov r7, #3; mov r0, #1; mov r2, #1; swi 0`.
pub open spec fn print_code() -> Seq<u8> {
    seq![0x03u8, 0x70u8, 0xa0u8, 0xe3u8] + seq![0x01u8, 0x00u8, 0xa0u8, 0xe3u8] + seq![
        0x01u8,
        0x20u8,
        0xa0u8,
        0xe3u8,
    ] + seq![0x00u8, 0x00u8, 0x00u8, 0xefu8]
}

/// The input system call sequence: `mov r7, #4; mov r0, #1; mov r2, #1; swi 0`.
pub open spec fn read_code() -> Seq<u8> {
    seq![0x04u8, 0x70u8, 0xa0u8, 0xe3u8] + seq![0x01u8, 0x00u8, 0xa0u8, 0xe3u8] + seq![
        0x01u8,
        0x20u8,
        0xa0u8,
        0xe3u8,
    ] + seq![0x00u8, 0x00u8, 0x00u8, 0xefu8]
}

/// Appends `add r1, r1, #add`.
pub fn shift_up(out: &mut Vec<u8>, add: u8)
    ensures
        final(out)@ == old(out)@ + shift_up_code(add),
{
    asm_write(out, vec![add, 0x10, 0x81, 0xe2]);
}

/// Appends `sub r1, r1, #sub`.
pub fn shift_down(out: &mut Vec<u8>, sub: u8)
    ensures
        final(out)@ == old(out)@ + shift_down_code(sub),
{
    asm_write(out, vec![sub, 0x10, 0x41, 0xe2]);
}

/// Appends code that adds `add` to the current cell.
pub fn mem_inc(out: &mut Vec<u8>, add: u8)
    ensures
        final(out)@ == old(out)@ + mem_inc_code(add),
{
    asm_write(out, vec![0x00, 0x00, 0x91, 0xe5]);
    asm_write(out, vec![add, 0x00, 0x80, 0xe2]);
    asm_write(out, vec![0x00, 0x00, 0x81, 0xe5]);
    assert(final(out)@ =~= old(out)@ + mem_inc_code(add));
}

/// Appends code that subtracts `sub` from the current cell.
pub fn mem_dec(out: &mut Vec<u8>, sub: u8)
    ensures
        final(out)@ == old(out)@ + mem_dec_code(sub),
{
    asm_write(out, vec![0x00, 0x00, 0x91, 0xe5]);
    asm_write(out, vec![sub, 0x00, 0x40, 0xe2]);
    asm_write(out, vec![0x00, 0x00, 0x81, 0xe5]);
    assert(final(out)@ =~= old(out)@ + mem_dec_code(sub));
}

/// Appends a loop head; `ext` is not used.
pub fn start_loop(out: &mut Vec<u8>, ext: Vec<u8>)
    ensures
        final(out)@ == old(out)@ + start_loop_code(),
{
    asm_write(out, vec![0x00, 0x00, 0x91, 0xe5]);
    asm_write(out, vec![0x00, 0x00, 0x50, 0xe3]);
    asm_write(out, vec![0x00, 0x00, 0x00, 0x0a]);
    assert(final(out)@ =~= old(out)@ + start_loop_code());
}

/// Loop tails emit nothing on this target: the buffer is left as it is.
pub fn end_loop(out: &mut Vec<u8>, ext: Vec<u8>)
    ensures
        final(out)@ == old(out)@,
{
}

/// Appends the output system call.
pub fn print_asm(out: &mut Vec<u8>)
    ensures
        final(out)@ == old(out)@ + print_code(),
{
    asm_write(out, vec![0x03, 0x70, 0xa0, 0xe3]);
    asm_write(out, vec![0x01, 0x00, 0xa0, 0xe3]);
    asm_write(out, vec![0x01, 0x20, 0xa0, 0xe3]);
    asm_write(out, vec![0x00, 0x00, 0x00, 0xef]);
    assert(final(out)@ =~= old(out)@ + print_code());
}

/// Appends the input system call.
pub fn read_asm(out: &mut Vec<u8>)
    ensures
        final(out)@ == old(out)@ + read_code(),
{
    asm_write(out, vec![0x04, 0x70, 0xa0, 0xe3]);
    asm_write(out, vec![0x01, 0x00, 0xa0, 0xe3]);
    asm_write(out, vec![0x01, 0x20, 0xa0, 0xe3]);
    asm_write(out, vec![0x00, 0x00, 0x00, 0xef]);
    assert(final(out)@ =~= old(out)@ + read_code());
}

} // verus!
