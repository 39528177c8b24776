//! 32-bit x86 emitter. The tape pointer lives in `ecx`.
use vstd::prelude::*;

verus! {

fn asm_write(out: &mut Vec<u8>, ext: Vec<u8>)
    ensures
        final(out)@ == old(out)@ + ext@,
{
    let mut ext = ext;
    out.append(&mut ext);
}

/// Moving the pointer up by `n`.
pub open spec fn shift_up_code(n: u8) -> Seq<u8> {
    seq![0x83u8, 0xc1u8, n, 0x00u8, 0x00u8, 0x00u8]
}

/// Moving the pointer down by `n`: `sub ecx, imm32`.
pub open spec fn shift_down_code(n: u8) -> Seq<u8> {
    seq![0x81u8, 0xe9u8, n, 0x00u8, 0x00u8, 0x00u8]
}

/// `add byte [ecx], n`
pub open spec fn mem_inc_code(n: u8) -> Seq<u8> {
    seq![0x80u8, 0x01u8, n]
}

/// `sub byte [ecx], n`
pub open spec fn mem_dec_code(n: u8) -> Seq<u8> {
    seq![0x80u8, 0x29u8, n]
}

/// Loop head: a compare followed by `je` with a zero displacement.
pub open spec fn start_loop_code() -> Seq<u8> {
    seq![0x80u8, 0x3du8, 0x00u8, 0x00u8, 0x00u8, 0x00u8, 0x00u8] + seq![
        0x0fu8,
        0x84u8,
        0x00u8,
        0x00u8,
        0x00u8,
        0x00u8,
    ]
}

/// Loop tail: `jmp rel32` with the displacement in little-endian order.
pub open spec fn end_loop_code(offset: u32) -> Seq<u8> {
    seq![
        0xe9u8,
        offset as u8,
        (offset >> 8u32) as u8,
        (offset >> 16u32) as u8,
        (offset >> 24u32) as u8,
    ]
}

/// Output system call: `mov eax, 4; mov ebx, 1; mov edx, 1; syscall`.
pub open spec fn print_code() -> Seq<u8> {
    seq![0xb8u8, 0x04u8, 0x00u8, 0x00u8, 0x00u8] + seq![0xbbu8, 0x01u8, 0x00u8, 0x00u8, 0x00u8]
        + seq![0xbau8, 0x01u8, 0x00u8, 0x00u8, 0x00u8] + seq![0x0fu8, 0x05u8]
}

/// Input system call: `mov eax, 3; mov ebx, 1; mov edx, 1; syscall`.
pub open spec fn read_code() -> Seq<u8> {
    seq![0xb8u8, 0x03u8, 0x00u8, 0x00u8, 0x00u8] + seq![0xbbu8, 0x01u8, 0x00u8, 0x00u8, 0x00u8]
        + seq![0xbau8, 0x01u8, 0x00u8, 0x00u8, 0x00u8] + seq![0x0fu8, 0x05u8]
}

/// Appends the pointer increment by `add`.
pub fn shift_up(out: &mut Vec<u8>, add: u8)
    ensures
        final(out)@ == old(out)@ + shift_up_code(add),
{
    asm_write(out, vec![0x83, 0xc1, add, 0x00, 0x00, 0x00])
}

/// Appends the pointer decrement by `sub`.
pub fn shift_down(out: &mut Vec<u8>, sub: u8)
    ensures
        final(out)@ == old(out)@ + shift_down_code(sub),
{
    asm_write(out, vec![0x81, 0xe9, sub, 0x00, 0x00, 0x00])
}

/// Appends code that adds `add` to the current cell.
pub fn mem_inc(out: &mut Vec<u8>, add: u8)
    ensures
        final(out)@ == old(out)@ + mem_inc_code(add),
{
    asm_write(out, vec![0x80, 0x01, add])
}

/// Appends code that subtracts `sub` from the current cell.
pub fn mem_dec(out: &mut Vec<u8>, sub: u8)
    ensures
        final(out)@ == old(out)@ + mem_dec_code(sub),
{
    asm_write(out, vec![0x80, 0x29, sub])
}

/// Appends a loop head with a zero displacement.
pub fn start_loop(out: &mut Vec<u8>)
    ensures
        final(out)@ == old(out)@ + start_loop_code(),
{
    asm_write(out, vec![0x80, 0x3d, 0x00, 0x00, 0x00, 0x00, 0x00]);
    asm_write(out, vec![0x0f, 0x84, 0x00, 0x00, 0x00, 0x00]);
}

/// Appends a relative jump by `offset`.
pub fn end_loop(out: &mut Vec<u8>, offset: u32)
    ensures
        final(out)@ == old(out)@ + end_loop_code(offset),
{
    let (a, b, c, d) = (
        (offset >> 24) as u8,
        (offset >> 16) as u8,
        (offset >> 8) as u8,
        offset as u8,
    );
    asm_write(out, vec![0xe9, d, c, b, a]);
}

/// Appends the output system call.
pub fn print_asm(out: &mut Vec<u8>)
    ensures
        final(out)@ == old(out)@ + print_code(),
{
    asm_write(out, vec![0xb8, 0x04, 0x00, 0x00, 0x00]);
    asm_write(out, vec![0xbb, 0x01, 0x00, 0x00, 0x00]);
    asm_write(out, vec![0xba, 0x01, 0x00, 0x00, 0x00]);
    asm_write(out, vec![0x0f, 0x05]);
    assert(final(out)@ =~= old(out)@ + print_code());
}

/// Appends the input system call.
pub fn read_asm(out: &mut Vec<u8>)
    ensures
        final(out)@ == old(out)@ + read_code(),
{
    asm_write(out, vec![0xb8, 0x03, 0x00, 0x00, 0x00]);
    asm_write(out, vec![0xbb, 0x01, 0x00, 0x00, 0x00]);
    asm_write(out, vec![0xba, 0x01, 0x00, 0x00, 0x00]);
    asm_write(out, vec![0x0f, 0x05]);
    assert(final(out)@ =~= old(out)@ + read_code());
}

} // verus!
