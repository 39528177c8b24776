//! Fields of the emitted instructions, read back from their bytes: which
//! operation each one performs and on which register or memory operand.
use vstd::prelude::*;
use crate::backends::{arm, x64, x86};

verus! {

/// The `mod` field of an x86 ModRM byte: 3 for a register operand, 0 for a
/// memory operand without displacement, 2 for one with a 32-bit displacement.
pub open spec fn modrm_mod(b: u8) -> u8 {
    b >> 6u8
}

/// The `reg` field of a ModRM byte; after the group-1 opcodes `0x80`, `0x81`
/// and `0x83` it selects the operation: 0 is `add`, 5 is `sub`, 7 is `cmp`.
pub open spec fn modrm_op(b: u8) -> u8 {
    (b >> 3u8) & 7u8
}

/// The `r/m` field of a ModRM byte: 1 is `rcx`/`ecx` (or `[ecx]`), 4 means a
/// SIB byte follows.
pub open spec fn modrm_rm(b: u8) -> u8 {
    b & 7u8
}

/// The ARM instruction word stored little-endian in four bytes.
pub open spec fn arm_word(b: Seq<u8>, i: int) -> u32 {
    (b[i] as u32) | ((b[i + 1] as u32) << 8u32) | ((b[i + 2] as u32) << 16u32) | ((b[i + 3] as u32)
        << 24u32)
}

/// The data-processing opcode of an ARM word: 4 is `add`, 2 is `sub`, 10 is
/// `cmp`.
pub open spec fn arm_opcode(w: u32) -> u32 {
    (w >> 21u32) & 0xfu32
}

/// The first operand register of an ARM data-processing word.
pub open spec fn arm_rn(w: u32) -> u32 {
    (w >> 16u32) & 0xfu32
}

/// The destination register of an ARM data-processing word.
pub open spec fn arm_rd(w: u32) -> u32 {
    (w >> 12u32) & 0xfu32
}

/// The 8-bit immediate of an ARM data-processing word.
pub open spec fn arm_imm(w: u32) -> u32 {
    w & 0xffu32
}

/// The x86-64 moves add `n` to and subtract `n` from the tape index register
/// `rcx` (REX.W, group-1 opcode `0x81`, register operand 1), and the cell
/// updates add `n` to and subtract `n` from the byte at `rcx + r12`
/// (group-1 opcode `0x80`, memory operand through a SIB byte).
pub proof fn law_x64_arithmetic(n: u8)
    ensures
        x64::shift_up_code(n)[0] == 0x48u8 && x64::shift_up_code(n)[1] == 0x81u8,
        modrm_mod(x64::shift_up_code(n)[2]) == 3 && modrm_op(x64::shift_up_code(n)[2]) == 0
            && modrm_rm(x64::shift_up_code(n)[2]) == 1,
        x64::shift_down_code(n)[0] == 0x48u8 && x64::shift_down_code(n)[1] == 0x81u8,
        modrm_mod(x64::shift_down_code(n)[2]) == 3 && modrm_op(x64::shift_down_code(n)[2]) == 5
            && modrm_rm(x64::shift_down_code(n)[2]) == 1,
        x64::shift_up_code(n)[3] == n && x64::shift_down_code(n)[3] == n,
        x64::add_mem_code(n)[1] == 0x80u8 && modrm_op(x64::add_mem_code(n)[2]) == 0 && modrm_mod(
            x64::add_mem_code(n)[2],
        ) == 0 && modrm_rm(x64::add_mem_code(n)[2]) == 4 && x64::add_mem_code(n)[4] == n,
        x64::dec_mem_code(n)[1] == 0x80u8 && modrm_op(x64::dec_mem_code(n)[2]) == 5 && modrm_mod(
            x64::dec_mem_code(n)[2],
        ) == 0 && modrm_rm(x64::dec_mem_code(n)[2]) == 4 && x64::dec_mem_code(n)[4] == n,
{
    assert((n as u32) as u8 == n) by (bit_vector);
    assert(modrm_mod(0xc1u8) == 3 && modrm_op(0xc1u8) == 0 && modrm_rm(0xc1u8) == 1) by (bit_vector);
    assert(modrm_mod(0xe9u8) == 3 && modrm_op(0xe9u8) == 5 && modrm_rm(0xe9u8) == 1) by (bit_vector);
    assert(modrm_mod(0x04u8) == 0 && modrm_op(0x04u8) == 0 && modrm_rm(0x04u8) == 4) by (bit_vector);
    assert(modrm_mod(0x2cu8) == 0 && modrm_op(0x2cu8) == 5 && modrm_rm(0x2cu8) == 4) by (bit_vector);
}

/// The x86 moves add `n` to and subtract `n` from `ecx` (group-1 opcodes
/// with a register operand), and the cell updates add `n` to and subtract
/// `n` from the byte at `[ecx]`.
pub proof fn law_x86_arithmetic(n: u8)
    ensures
        (x86::shift_up_code(n)[0] == 0x83u8 || x86::shift_up_code(n)[0] == 0x81u8) && modrm_mod(
            x86::shift_up_code(n)[1],
        ) == 3 && modrm_op(x86::shift_up_code(n)[1]) == 0 && modrm_rm(x86::shift_up_code(n)[1]) == 1
            && x86::shift_up_code(n)[2] == n,
        x86::shift_down_code(n)[0] == 0x81u8 && modrm_mod(x86::shift_down_code(n)[1]) == 3 && modrm_op(
            x86::shift_down_code(n)[1],
        ) == 5 && modrm_rm(x86::shift_down_code(n)[1]) == 1 && x86::shift_down_code(n)[2] == n,
        x86::mem_inc_code(n)[0] == 0x80u8 && modrm_mod(x86::mem_inc_code(n)[1]) == 0 && modrm_op(
            x86::mem_inc_code(n)[1],
        ) == 0 && modrm_rm(x86::mem_inc_code(n)[1]) == 1 && x86::mem_inc_code(n)[2] == n,
        x86::mem_dec_code(n)[0] == 0x80u8 && modrm_mod(x86::mem_dec_code(n)[1]) == 0 && modrm_op(
            x86::mem_dec_code(n)[1],
        ) == 5 && modrm_rm(x86::mem_dec_code(n)[1]) == 1 && x86::mem_dec_code(n)[2] == n,
{
    assert(modrm_mod(0xc1u8) == 3 && modrm_op(0xc1u8) == 0 && modrm_rm(0xc1u8) == 1) by (bit_vector);
    assert(modrm_mod(0xe9u8) == 3 && modrm_op(0xe9u8) == 5 && modrm_rm(0xe9u8) == 1) by (bit_vector);
    assert(modrm_mod(0x01u8) == 0 && modrm_op(0x01u8) == 0 && modrm_rm(0x01u8) == 1) by (bit_vector);
    assert(modrm_mod(0x29u8) == 0 && modrm_op(0x29u8) == 5 && modrm_rm(0x29u8) == 1) by (bit_vector);
}

/// The ARM moves add `n` to and subtract `n` from the tape pointer `r1`, and
/// the cell updates load the cell into `r0`, add `n` to or subtract `n` from
/// `r0`, and store it back.
pub proof fn law_arm_arithmetic(n: u8)
    ensures
        arm_opcode(arm_word(arm::shift_up_code(n), 0)) == 4 && arm_rn(arm_word(arm::shift_up_code(n), 0))
            == 1 && arm_rd(arm_word(arm::shift_up_code(n), 0)) == 1 && arm_imm(
            arm_word(arm::shift_up_code(n), 0),
        ) == n,
        arm_opcode(arm_word(arm::shift_down_code(n), 0)) == 2 && arm_rn(
            arm_word(arm::shift_down_code(n), 0),
        ) == 1 && arm_rd(arm_word(arm::shift_down_code(n), 0)) == 1 && arm_imm(
            arm_word(arm::shift_down_code(n), 0),
        ) == n,
        arm_opcode(arm_word(arm::mem_inc_code(n), 4)) == 4 && arm_rn(arm_word(arm::mem_inc_code(n), 4))
            == 0 && arm_rd(arm_word(arm::mem_inc_code(n), 4)) == 0 && arm_imm(
            arm_word(arm::mem_inc_code(n), 4),
        ) == n,
        arm_opcode(arm_word(arm::mem_dec_code(n), 4)) == 2 && arm_rn(arm_word(arm::mem_dec_code(n), 4))
            == 0 && arm_rd(arm_word(arm::mem_dec_code(n), 4)) == 0 && arm_imm(
            arm_word(arm::mem_dec_code(n), 4),
        ) == n,
{
    let up = arm::shift_up_code(n);
    let down = arm::shift_down_code(n);
    let inc = arm::mem_inc_code(n);
    let dec = arm::mem_dec_code(n);
    assert(up[0] == n && up[1] == 0x10u8 && up[2] == 0x81u8 && up[3] == 0xe2u8);
    assert(down[0] == n && down[1] == 0x10u8 && down[2] == 0x41u8 && down[3] == 0xe2u8);
    assert(inc[4] == n && inc[5] == 0u8 && inc[6] == 0x80u8 && inc[7] == 0xe2u8);
    assert(dec[4] == n && dec[5] == 0u8 && dec[6] == 0x40u8 && dec[7] == 0xe2u8);
    let wu = arm_word(up, 0);
    let wd = arm_word(down, 0);
    let wi = arm_word(inc, 4);
    let wdc = arm_word(dec, 4);
    assert(wu == (n as u32) | (0x10u32 << 8u32) | (0x81u32 << 16u32) | (0xe2u32 << 24u32));
    assert(wd == (n as u32) | (0x10u32 << 8u32) | (0x41u32 << 16u32) | (0xe2u32 << 24u32));
    assert(wi == (n as u32) | (0u32 << 8u32) | (0x80u32 << 16u32) | (0xe2u32 << 24u32));
    assert(wdc == (n as u32) | (0u32 << 8u32) | (0x40u32 << 16u32) | (0xe2u32 << 24u32));
    assert(((n as u32) | (0x10u32 << 8u32) | (0x81u32 << 16u32) | (0xe2u32 << 24u32)) >> 21u32 & 0xfu32 == 4
        && ((n as u32) | (0x10u32 << 8u32) | (0x81u32 << 16u32) | (0xe2u32 << 24u32)) >> 16u32 & 0xfu32 == 1
        && ((n as u32) | (0x10u32 << 8u32) | (0x81u32 << 16u32) | (0xe2u32 << 24u32)) >> 12u32 & 0xfu32 == 1
        && ((n as u32) | (0x10u32 << 8u32) | (0x81u32 << 16u32) | (0xe2u32 << 24u32)) & 0xffu32 == n)
        by (bit_vector);
    assert(((n as u32) | (0x10u32 << 8u32) | (0x41u32 << 16u32) | (0xe2u32 << 24u32)) >> 21u32 & 0xfu32 == 2
        && ((n as u32) | (0x10u32 << 8u32) | (0x41u32 << 16u32) | (0xe2u32 << 24u32)) >> 16u32 & 0xfu32 == 1
        && ((n as u32) | (0x10u32 << 8u32) | (0x41u32 << 16u32) | (0xe2u32 << 24u32)) >> 12u32 & 0xfu32 == 1
        && ((n as u32) | (0x10u32 << 8u32) | (0x41u32 << 16u32) | (0xe2u32 << 24u32)) & 0xffu32 == n)
        by (bit_vector);
    assert(((n as u32) | (0u32 << 8u32) | (0x80u32 << 16u32) | (0xe2u32 << 24u32)) >> 21u32 & 0xfu32 == 4
        && ((n as u32) | (0u32 << 8u32) | (0x80u32 << 16u32) | (0xe2u32 << 24u32)) >> 16u32 & 0xfu32 == 0
        && ((n as u32) | (0u32 << 8u32) | (0x80u32 << 16u32) | (0xe2u32 << 24u32)) >> 12u32 & 0xfu32 == 0
        && ((n as u32) | (0u32 << 8u32) | (0x80u32 << 16u32) | (0xe2u32 << 24u32)) & 0xffu32 == n)
        by (bit_vector);
    assert(((n as u32) | (0u32 << 8u32) | (0x40u32 << 16u32) | (0xe2u32 << 24u32)) >> 21u32 & 0xfu32 == 2
        && ((n as u32) | (0u32 << 8u32) | (0x40u32 << 16u32) | (0xe2u32 << 24u32)) >> 16u32 & 0xfu32 == 0
        && ((n as u32) | (0u32 << 8u32) | (0x40u32 << 16u32) | (0xe2u32 << 24u32)) >> 12u32 & 0xfu32 == 0
        && ((n as u32) | (0u32 << 8u32) | (0x40u32 << 16u32) | (0xe2u32 << 24u32)) & 0xffu32 == n)
        by (bit_vector);
}

} // verus!
