//! x86-64 emitter. The generated code keeps the tape base in `r12` and the
//! tape index in `rcx`; every emitter appends a fixed instruction sequence to
//! the code buffer and leaves what was already there untouched.
use vstd::prelude::*;

verus! {

/// The four little-endian bytes of `v`.
pub open spec fn le32(v: u32) -> Seq<u8> {
    seq![v as u8, (v >> 8u32) as u8, (v >> 16u32) as u8, (v >> 24u32) as u8]
}

fn split_lil_endian(a: u32) -> (r: (u8, u8, u8, u8))
    ensures
        seq![r.0, r.1, r.2, r.3] == le32(a),
{
    (a as u8, (a >> 8) as u8, (a >> 16) as u8, (a >> 24) as u8)
}

fn asm_write(out: &mut Vec<u8>, ext: Vec<u8>)
    ensures
        final(out)@ == old(out)@ + ext@,
{
    let mut ext = ext;
    out.append(&mut ext);
}

/// `add rcx, imm32`
pub open spec fn add_rcx_code(v: u32) -> Seq<u8> {
    seq![0x48u8, 0x81u8, 0xc1u8] + le32(v)
}

/// `sub rcx, imm32`
pub open spec fn sub_rcx_code(v: u32) -> Seq<u8> {
    seq![0x48u8, 0x81u8, 0xe9u8] + le32(v)
}

/// `add byte [rcx + r12], imm8`
pub open spec fn add_mem_code(v: u8) -> Seq<u8> {
    seq![0x42u8, 0x80u8, 0x04u8, 0x21u8, v]
}

/// `sub byte [rcx + r12], imm8`
pub open spec fn dec_mem_code(v: u8) -> Seq<u8> {
    seq![0x42u8, 0x80u8, 0x2cu8, 0x21u8, v]
}

/// Compare `rcx` with a 32-bit immediate.
pub open spec fn compare_rcx_code(v: u32) -> Seq<u8> {
    seq![0x48u8, 0x81u8, 0xf9u8] + le32(v)
}

/// Compare the byte at `[rcx + r12]` with an 8-bit immediate.
pub open spec fn compare_mem_code(v: u8) -> Seq<u8> {
    seq![0x42u8, 0x80u8, 0x3cu8, 0x21u8, v]
}

/// `jl rel32`
pub open spec fn jump_less_code(v: u32) -> Seq<u8> {
    seq![0x0fu8, 0x8cu8] + le32(v)
}

/// `ret`
pub open spec fn ret_code() -> Seq<u8> {
    seq![0xc3u8]
}

/// Moving the tape index up: add `n` to `rcx`, compare `rcx` with `0x10000`,
/// and return unless it is less (`jl +1; ret`).
pub open spec fn shift_up_code(n: u8) -> Seq<u8> {
    add_rcx_code(n as u32) + compare_rcx_code(0x10000) + jump_less_code(1) + ret_code()
}

/// Moving the tape index down: subtract `n` from `rcx`, compare `rcx` with
/// `0x10000`, and return unless it is less (`jl +1; ret`).
pub open spec fn shift_down_code(n: u8) -> Seq<u8> {
    sub_rcx_code(n as u32) + compare_rcx_code(0x10000) + jump_less_code(1) + ret_code()
}

/// Head of a loop: compare the current cell with 0, then `je rel32` with a zero
/// displacement that is patched once the loop's end is known.
pub open spec fn start_loop_code() -> Seq<u8> {
    compare_mem_code(0) + seq![0x0fu8, 0x84u8] + seq![0u8, 0u8, 0u8, 0u8]
}

/// Tail of a loop: `jmp rel32`.
pub open spec fn end_loop_code(offset: u32) -> Seq<u8> {
    seq![0xe9u8] + le32(offset)
}

/// The `write(1, r12 + rcx, 1)` system call, saving `rcx` in `r13`.
pub open spec fn print_code() -> Seq<u8> {
    seq![0x49u8, 0x89u8, 0xcdu8] + seq![0x48u8, 0xc7u8, 0xc0u8, 0x01u8, 0x00u8, 0x00u8, 0x00u8]
        + seq![0x48u8, 0xc7u8, 0xc7u8, 0x01u8, 0x00u8, 0x00u8, 0x00u8] + seq![0x48u8, 0x89u8, 0xceu8]
        + seq![0x4cu8, 0x01u8, 0xe6u8] + seq![0x48u8, 0xc7u8, 0xc2u8, 0x01u8, 0x00u8, 0x00u8, 0x00u8]
        + seq![0x0fu8, 0x05u8] + seq![0x4cu8, 0x89u8, 0xe9u8]
}

/// The `read(1, r12 + rcx, 1)` system call, saving `rcx` in `r13`.
pub open spec fn read_code() -> Seq<u8> {
    seq![0x49u8, 0x89u8, 0xcdu8] + seq![0x48u8, 0xc7u8, 0xc0u8, 0x00u8, 0x00u8, 0x00u8, 0x00u8]
        + seq![0x48u8, 0xc7u8, 0xc7u8, 0x01u8, 0x00u8, 0x00u8, 0x00u8] + seq![0x48u8, 0x89u8, 0xceu8]
        + seq![0x4cu8, 0x01u8, 0xe6u8] + seq![0x48u8, 0xc7u8, 0xc2u8, 0x01u8, 0x00u8, 0x00u8, 0x00u8]
        + seq![0x0fu8, 0x05u8] + seq![0x4cu8, 0x89u8, 0xe9u8]
}

/// Prologue: `mov rcx, rdi; mov r12, rcx; mov rcx, 0`.
pub open spec fn setup_pointer_code() -> Seq<u8> {
    seq![0x48u8, 0x89u8, 0xf9u8] + seq![0x49u8, 0x89u8, 0xccu8] + seq![
        0x48u8,
        0xc7u8,
        0xc1u8,
        0x00u8,
        0x00u8,
        0x00u8,
        0x00u8,
    ]
}

/// The code of a relative addition (21 bytes):
/// `mov al, [rcx + r12]`; `test al, al`; `je +13`;
/// `add byte [rcx + r12 + offset], change`; `add al, per`; `jmp -17`.
pub open spec fn add_relative_code(offset: i16, change: i8, per: i8) -> Seq<u8> {
    seq![0x42u8, 0x8au8, 0x04u8, 0x21u8] + seq![0x84u8, 0xc0u8] + seq![0x74u8, 0x0du8] + seq![
        0x42u8,
        0x80u8,
        0x84u8,
        0x21u8,
    ] + le32((offset as i32) as u32) + seq![change as u8] + seq![0x04u8, per as u8] + seq![
        0xebu8,
        0xefu8,
    ]
}

/// `mov byte [rcx + r12], 0`
pub open spec fn mov_0_code() -> Seq<u8> {
    seq![0x42u8, 0xc6u8, 0x04u8, 0x21u8, 0x00u8]
}

fn add_rcx_asm(out: &mut Vec<u8>, add: u32)
    ensures
        final(out)@ == old(out)@ + add_rcx_code(add),
{
    let (a, b, c, d) = split_lil_endian(add);
    asm_write(out, vec![0x48, 0x81, 0xc1, a, b, c, d]);
}

fn sub_rcx_asm(out: &mut Vec<u8>, sub: u32)
    ensures
        final(out)@ == old(out)@ + sub_rcx_code(sub),
{
    let (a, b, c, d) = split_lil_endian(sub);
    asm_write(out, vec![0x48, 0x81, 0xe9, a, b, c, d]);
}

fn add_mem_asm(out: &mut Vec<u8>, inc: u8)
    ensures
        final(out)@ == old(out)@ + add_mem_code(inc),
{
    asm_write(out, vec![0x42, 0x80, 0x04, 0x21, inc]);
}

fn dec_mem_asm(out: &mut Vec<u8>, dec: u8)
    ensures
        final(out)@ == old(out)@ + dec_mem_code(dec),
{
    asm_write(out, vec![0x42, 0x80, 0x2c, 0x21, dec]);
}

fn compare_rcx_asm(out: &mut Vec<u8>, value: u32)
    ensures
        final(out)@ == old(out)@ + compare_rcx_code(value),
{
    let (a, b, c, d) = split_lil_endian(value);
    asm_write(out, vec![0x48, 0x81, 0xf9, a, b, c, d]);
}

fn compare_rcx_r12_mem_asm(out: &mut Vec<u8>, value: u8)
    ensures
        final(out)@ == old(out)@ + compare_mem_code(value),
{
    asm_write(out, vec![0x42, 0x80, 0x3c, 0x21, value]);
}

fn jump_less_asm(out: &mut Vec<u8>, amount: u32)
    ensures
        final(out)@ == old(out)@ + jump_less_code(amount),
{
    let (a, b, c, d) = split_lil_endian(amount);
    asm_write(out, vec![0x0f, 0x8c, a, b, c, d]);
}

/// Appends code that moves the tape index up by `add` and returns from the
/// generated function once the index reaches `0x10000`.
pub fn shift_up(out: &mut Vec<u8>, add: u8)
    ensures
        final(out)@ == old(out)@ + shift_up_code(add),
{
    add_rcx_asm(out, add as u32);
    compare_rcx_asm(out, 0x10000);
    jump_less_asm(out, 1);
    ret(out);
    assert(final(out)@ =~= old(out)@ + shift_up_code(add));
}

/// Appends code that moves the tape index down by `down` and returns from the
/// generated function when the index is no longer below `0x10000`.
pub fn shift_down(out: &mut Vec<u8>, down: u8)
    ensures
        final(out)@ == old(out)@ + shift_down_code(down),
{
    sub_rcx_asm(out, down as u32);
    compare_rcx_asm(out, 0x10000);
    jump_less_asm(out, 1);
    ret(out);
    assert(final(out)@ =~= old(out)@ + shift_down_code(down));
}

/// Appends code that adds `inc` to the current cell.
pub fn mem_inc(out: &mut Vec<u8>, inc: u8)
    ensures
        final(out)@ == old(out)@ + add_mem_code(inc),
{
    add_mem_asm(out, inc);
}

/// Appends code that subtracts `dec` from the current cell.
pub fn mem_dec(out: &mut Vec<u8>, dec: u8)
    ensures
        final(out)@ == old(out)@ + dec_mem_code(dec),
{
    dec_mem_asm(out, dec);
}

/// Appends a loop head whose jump displacement is still zero.
pub fn start_loop(out: &mut Vec<u8>)
    ensures
        final(out)@ == old(out)@ + start_loop_code(),
{
    compare_rcx_r12_mem_asm(out, 0);
    asm_write(out, vec![0x0f, 0x84]);
    asm_write(out, vec![0x00, 0x00, 0x00, 0x00]);
    assert(final(out)@ =~= old(out)@ + start_loop_code());
}

/// Appends a relative jump by `offset`.
pub fn end_loop(out: &mut Vec<u8>, offset: u32)
    ensures
        final(out)@ == old(out)@ + end_loop_code(offset),
{
    let (a, b, c, d) = split_lil_endian(offset);
    asm_write(out, vec![0xe9, a, b, c, d]);
    assert(final(out)@ =~= old(out)@ + end_loop_code(offset));
}

/// Appends a system call that writes the current cell to standard output.
pub fn print_asm(out: &mut Vec<u8>)
    ensures
        final(out)@ == old(out)@ + print_code(),
{
    asm_write(out, vec![0x49, 0x89, 0xcd]);
    asm_write(out, vec![0x48, 0xc7, 0xc0, 0x01, 0x00, 0x00, 0x00]);
    asm_write(out, vec![0x48, 0xc7, 0xc7, 0x01, 0x00, 0x00, 0x00]);
    asm_write(out, vec![0x48, 0x89, 0xce]);
    asm_write(out, vec![0x4c, 0x01, 0xe6]);
    asm_write(out, vec![0x48, 0xc7, 0xc2, 0x01, 0x00, 0x00, 0x00]);
    asm_write(out, vec![0x0f, 0x05]);
    asm_write(out, vec![0x4c, 0x89, 0xe9]);
    assert(final(out)@ =~= old(out)@ + print_code());
}

/// Appends a system call that reads one byte into the current cell.
pub fn read_asm(out: &mut Vec<u8>)
    ensures
        final(out)@ == old(out)@ + read_code(),
{
    asm_write(out, vec![0x49, 0x89, 0xcd]);
    asm_write(out, vec![0x48, 0xc7, 0xc0, 0x00, 0x00, 0x00, 0x00]);
    asm_write(out, vec![0x48, 0xc7, 0xc7, 0x01, 0x00, 0x00, 0x00]);
    asm_write(out, vec![0x48, 0x89, 0xce]);
    asm_write(out, vec![0x4c, 0x01, 0xe6]);
    asm_write(out, vec![0x48, 0xc7, 0xc2, 0x01, 0x00, 0x00, 0x00]);
    asm_write(out, vec![0x0f, 0x05]);
    asm_write(out, vec![0x4c, 0x89, 0xe9]);
    assert(final(out)@ =~= old(out)@ + read_code());
}

/// Appends `ret`.
pub fn ret(out: &mut Vec<u8>)
    ensures
        final(out)@ == old(out)@ + ret_code(),
{
    asm_write(out, vec![0xc3]);
}

/// Appends the prologue that moves the tape address into `r12` and zeroes
/// the tape index.
pub fn setup_pointer(out: &mut Vec<u8>)
    ensures
        final(out)@ == old(out)@ + setup_pointer_code(),
{
    asm_write(out, vec![0x48, 0x89, 0xf9]);
    asm_write(out, vec![0x49, 0x89, 0xcc]);
    asm_write(out, vec![0x48, 0xc7, 0xc1, 0x00, 0x00, 0x00, 0x00]);
    assert(final(out)@ =~= old(out)@ + setup_pointer_code());
}

/// Appends code that runs a replaced loop's additions to the cell at
/// `offset`: it copies the current cell into `al` and, until `al` is zero,
/// adds `change` to the cell at `offset` and `per` to `al`. The current cell
/// itself is left as it is.
pub fn add_relative_asm(out: &mut Vec<u8>, offset: i16, change: i8, per: i8)
    ensures
        final(out)@ == old(out)@ + add_relative_code(offset, change, per),
{
    let (a, b, c, d) = split_lil_endian((offset as i32) as u32);
    asm_write(
        out,
        vec![
            0x42, 0x8a, 0x04, 0x21, 0x84, 0xc0, 0x74, 0x0d, 0x42, 0x80, 0x84, 0x21, a, b, c, d,
            change as u8, 0x04, per as u8, 0xeb, 0xef,
        ],
    );
    assert(final(out)@ =~= old(out)@ + add_relative_code(offset, change, per));
}

/// Appends code that clears the current cell.
pub fn mov_0_asm(out: &mut Vec<u8>)
    ensures
        final(out)@ == old(out)@ + mov_0_code(),
{
    asm_write(out, vec![0x42, 0xc6, 0x04, 0x21, 0x00]);
}

/// The emitted moves change the tape index in opposite directions (`add rcx, n`
/// and `sub rcx, n`), and the output and input system calls (`rax` 1 and 0)
/// take their one-byte buffer at `rcx + r12`, the current cell
/// (`mov rsi, rcx; add rsi, r12`).
pub proof fn law_emitted_moves_and_calls(n: u8)
    ensures
        shift_up_code(n).subrange(0, 3) == seq![0x48u8, 0x81u8, 0xc1u8],
        shift_down_code(n).subrange(0, 3) == seq![0x48u8, 0x81u8, 0xe9u8],
        shift_up_code(n)[3] == n && shift_down_code(n)[3] == n,
        print_code().subrange(3, 10) == seq![0x48u8, 0xc7u8, 0xc0u8, 1u8, 0u8, 0u8, 0u8],
        read_code().subrange(3, 10) == seq![0x48u8, 0xc7u8, 0xc0u8, 0u8, 0u8, 0u8, 0u8],
        print_code().subrange(17, 23) == seq![0x48u8, 0x89u8, 0xceu8, 0x4cu8, 0x01u8, 0xe6u8],
        read_code().subrange(17, 23) == seq![0x48u8, 0x89u8, 0xceu8, 0x4cu8, 0x01u8, 0xe6u8],
{
    assert((n as u32) as u8 == n) by (bit_vector);
    assert(print_code().subrange(3, 10) =~= seq![0x48u8, 0xc7u8, 0xc0u8, 1u8, 0u8, 0u8, 0u8]);
    assert(read_code().subrange(3, 10) =~= seq![0x48u8, 0xc7u8, 0xc0u8, 0u8, 0u8, 0u8, 0u8]);
    assert(print_code().subrange(17, 23) =~= seq![0x48u8, 0x89u8, 0xceu8, 0x4cu8, 0x01u8, 0xe6u8]);
    assert(read_code().subrange(17, 23) =~= seq![0x48u8, 0x89u8, 0xceu8, 0x4cu8, 0x01u8, 0xe6u8]);
    assert(shift_up_code(n).subrange(0, 3) =~= seq![0x48u8, 0x81u8, 0xc1u8]);
    assert(shift_down_code(n).subrange(0, 3) =~= seq![0x48u8, 0x81u8, 0xe9u8]);
}

} // verus!
