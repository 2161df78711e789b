use vstd::prelude::*;

use crate::frame::Ip;
use crate::jit::compiler::codebuffer::{label_ok, refs_ok, CodeBuffer};
use crate::jit::jumpresolver::{InternalLabel, LabelState, PatchSite, X86Ip};

verus! {

/// ModRM `mod` field for a register operand.
pub const MOD_R: u8 = 0b11_000_000;
/// ModRM `mod` field for a memory operand with an 8-bit displacement.
pub const MOD_M8: u8 = 0b01_000_000;

/// REX.W: 64-bit operand size.
pub const REX_W: u8 = 0x08;
/// REX.R: extension of the ModRM `reg` field.
pub const REX_R: u8 = 0x04;
/// REX.X: extension of the SIB index field.
pub const REX_X: u8 = 0x02;
/// REX.B: extension of the ModRM `rm` field or the opcode register.
pub const REX_B: u8 = 0x01;
/// The fixed high bits of every REX prefix.
pub const REX_BASE: u8 = 0x40;

pub const MOV_REG_IMM32: u8 = 0xB8;
pub const MOV_RM_R: u8 = 0x89;
pub const MOV_R_RM: u8 = 0x8B;
pub const RET: u8 = 0xC3;
pub const PUSH_REG: u8 = 0x50;
pub const POP_REG: u8 = 0x58;
pub const CMP_AL_IMM8: u8 = 0x3C;
pub const TEST_R_R: u8 = 0x85;
pub const JE_REL32: u8 = 0x84;
pub const JNE_REL32: u8 = 0x85;
pub const JMP_REL32: u8 = 0xE9;
pub const ADD_RM_IMM8: u8 = 0x83;
pub const SUB_RM_IMM8: u8 = 0x83;
pub const LEA: u8 = 0x8D;
pub const MOV_MEM_IMM32: u8 = 0xC7;

/// Offset of the handler stub pointer within the JIT vtable (it is the first field).
pub const STUB_FN_OFFSET: i8 = 0;

#[derive(Debug, Clone, Copy, PartialEq, Eq)]
pub enum Register {
    Al,
    Rax,
    Eax,
    R8,
    Rbp,
    Rsp,
    R9,
    R10,
    R11,
    R12,
    R13,
    R14,
    R15,
    Rdi,
    Rsi,
    Rdx,
    Rcx,
    Rbx,
}

pub const REG_ARG1: Register = Register::Rdi;
pub const REG_ARG2: Register = Register::Rsi;
pub const REG_ARG3: Register = Register::Rdx;
pub const REG_ARG4: Register = Register::Rcx;
pub const REG_STACK_RELATIVE: Register = Register::Rbp;
pub const REG_RETURN64: Register = Register::Rax;
pub const REG_RETURN32: Register = Register::Eax;

impl Register {
    /// The width of the register in bits.
    pub open spec fn bits(self) -> u32 {
        match self {
            Register::Eax => 32,
            Register::Al => 8,
            _ => 64,
        }
    }

    /// The low three bits of the register number, as encoded in ModRM and opcode fields.
    pub open spec fn field(self) -> u8 {
        match self {
            Register::Rax | Register::Eax | Register::Al | Register::R8 => 0,
            Register::Rcx | Register::R9 => 1,
            Register::Rdx | Register::R10 => 2,
            Register::Rbx | Register::R11 => 3,
            Register::Rsp | Register::R12 => 4,
            Register::Rbp | Register::R13 => 5,
            Register::Rsi | Register::R14 => 6,
            Register::Rdi | Register::R15 => 7,
        }
    }

    /// Whether the register number has its fourth bit set (r8 to r15), which only a REX prefix can encode.
    pub open spec fn extended(self) -> bool {
        match self {
            Register::R8 | Register::R9 | Register::R10 | Register::R11 | Register::R12 | Register::R13
            | Register::R14 | Register::R15 => true,
            _ => false,
        }
    }

    pub fn size_bits(self) -> (r: u32)
        ensures
            r == self.bits(),
    {
        match self {
            Register::Rax | Register::R8 | Register::Rbp | Register::R12 | Register::R13 | Register::Rsp
            | Register::Rdi | Register::Rsi | Register::R14 | Register::R15 | Register::Rdx | Register::Rcx
            | Register::Rbx | Register::R9 | Register::R10 | Register::R11 => 64,
            Register::Eax => 32,
            Register::Al => 8,
        }
    }

    /// The common size of two registers, which must have the same size.
    pub fn join_register_size(self, other: Register) -> (r: u32)
        requires
            self.bits() == other.bits(),
        ensures
            r == self.bits(),
    {
        self.size_bits()
    }

    pub fn reg_field(self) -> (r: u8)
        ensures
            r == self.field(),
            r < 8,
    {
        match self {
            Register::Rax | Register::Eax | Register::Al | Register::R8 => 0,
            Register::Rcx | Register::R9 => 1,
            Register::Rdx | Register::R10 => 2,
            Register::Rbx | Register::R11 => 3,
            Register::Rsp | Register::R12 => 4,
            Register::Rbp | Register::R13 => 5,
            Register::Rsi | Register::R14 => 6,
            Register::Rdi | Register::R15 => 7,
        }
    }

    pub fn needs_rex_prefix(self) -> (r: bool)
        ensures
            r == self.extended(),
    {
        match self {
            Register::R8 | Register::R9 | Register::R10 | Register::R11 | Register::R12 | Register::R13
            | Register::R14 | Register::R15 => true,
            Register::Rax | Register::Eax | Register::Rbp | Register::Rsp | Register::Rdi | Register::Rsi
            | Register::Rdx | Register::Al | Register::Rcx | Register::Rbx => false,
        }
    }
}

/// The callee-saved registers that compiled code may use.
pub fn usable_callee_saved_regs() -> (r: Vec<Register>)
    ensures
        r@ == seq![Register::Rbx, Register::R12, Register::R13, Register::R14, Register::R15],
{
    vec![Register::Rbx, Register::R12, Register::R13, Register::R14, Register::R15]
}

/// The caller-saved registers that compiled code may use.
pub fn usable_caller_saved_regs() -> (r: Vec<Register>)
    ensures
        r@ == seq![
            Register::Rax,
            Register::Rcx,
            Register::Rdx,
            Register::Rsi,
            Register::Rdi,
            Register::R8,
            Register::R9,
            Register::R10,
            Register::R11,
        ],
{
    vec![
        Register::Rax,
        Register::Rcx,
        Register::Rdx,
        Register::Rsi,
        Register::Rdi,
        Register::R8,
        Register::R9,
        Register::R10,
        Register::R11,
    ]
}

/// A REX prefix byte `0100WRXB` with X clear.
pub open spec fn rex_byte(w: bool, r: bool, b: bool) -> u8 {
    (0x40 + (if w { 8int } else { 0 }) + (if r { 4int } else { 0 }) + (if b { 1int } else { 0 })) as u8
}

/// The REX prefix, present only when one of its bits is needed.
pub open spec fn rex_prefix(w: bool, r: bool, b: bool) -> Seq<u8> {
    if w || r || b {
        seq![rex_byte(w, r, b)]
    } else {
        Seq::empty()
    }
}

/// A ModRM byte from its three fields.
pub open spec fn modrm_byte(md: u8, reg: u8, rm: u8) -> u8 {
    (md * 64 + reg * 8 + rm) as u8
}

/// The four little-endian bytes of a 32-bit value.
pub open spec fn le32(v: u32) -> Seq<u8> {
    seq![(v % 256) as u8, ((v / 256) % 256) as u8, ((v / 65536) % 256) as u8, (v / 16777216) as u8]
}

/// The rel32 displacement that makes a jump whose displacement field is at `site` land on `target`.
pub open spec fn rel32(site: int, target: int) -> int {
    target - (site + 4)
}

/// Writes the displacement to `target` over the four bytes at `site`.
pub open spec fn write_rel32(code: Seq<u8>, site: int, target: int) -> Seq<u8> {
    let d = le32(rel32(site, target) as i32 as u32);
    code.update(site, d[0]).update(site + 1, d[1]).update(site + 2, d[2]).update(site + 3, d[3])
}

/// Writes the displacement to `target` at each patch site, in order.
pub open spec fn patch_all(code: Seq<u8>, sites: Seq<PatchSite>, target: int) -> Seq<u8>
    decreases sites.len(),
{
    if sites.len() == 0 {
        code
    } else {
        write_rel32(patch_all(code, sites.drop_last(), target), sites.last() as int, target)
    }
}

/// The prefix byte for an instruction that encodes its register in the opcode byte.
pub open spec fn opcode_reg_prefix(reg: Register) -> Seq<u8> {
    if reg.extended() {
        seq![0x41u8]
    } else {
        Seq::empty()
    }
}

/// Computes `REX_BASE | W | R | B` from the needed bits.
pub(crate) fn rex_bits(w: bool, r: bool, b: bool) -> (out: u8)
    ensures
        out == (if w { 8u8 } else { 0u8 }) + (if r { 4u8 } else { 0u8 }) + (if b { 1u8 } else { 0u8 }),
{
    let mut rex: u8 = 0;
    if b {
        assert(0u8 | 1u8 == 1u8) by (bit_vector);
        rex = rex | REX_B;
    }
    if r {
        let x = rex;
        assert(x <= 1 ==> x | 4 == x + 4) by (bit_vector);
        rex = rex | REX_R;
    }
    if w {
        let x = rex;
        assert(x <= 5 ==> x | 8 == x + 8) by (bit_vector);
        rex = rex | REX_W;
    }
    rex
}

/// Computes `md | (reg << 3) | rm`.
pub(crate) fn modrm(md: u8, reg: u8, rm: u8) -> (out: u8)
    requires
        md == MOD_R || md == MOD_M8,
        reg < 8,
        rm < 8,
    ensures
        out == modrm_byte(md / 64, reg, rm),
{
    assert(reg < 8 && rm < 8 && (md == 0xC0 || md == 0x40) ==> (md | (reg << 3) | rm) == md + reg * 8 + rm)
        by (bit_vector);
    md | (reg << 3) | rm
}

/// Emits the four little-endian bytes of `v`.
pub(crate) fn emit_le32(buf: &mut CodeBuffer, v: u32)
    ensures
        final(buf).buffer@ == old(buf).buffer@ + le32(v),
        final(buf).jumps == old(buf).jumps,
{
    let b0 = (v % 256) as u8;
    let b1 = ((v / 256) % 256) as u8;
    let b2 = ((v / 65536) % 256) as u8;
    let b3 = (v / 16777216) as u8;
    buf.push(b0);
    buf.push(b1);
    buf.push(b2);
    buf.push(b3);
    assert(buf.buffer@ =~= old(buf).buffer@ + le32(v));
}

/// Emits the REX prefix for the given bits, if any bit is set.
pub(crate) fn emit_rex(buf: &mut CodeBuffer, w: bool, r: bool, b: bool)
    ensures
        final(buf).buffer@ == old(buf).buffer@ + rex_prefix(w, r, b),
        final(buf).jumps == old(buf).jumps,
{
    let rex = rex_bits(w, r, b);
    if rex != 0 {
        assert(rex < 16 ==> 0x40u8 | rex == 0x40u8 + rex) by (bit_vector);
        buf.push(REX_BASE | rex);
    }
    assert(buf.buffer@ =~= old(buf).buffer@ + rex_prefix(w, r, b));
}

/// The encoding of `mov dest, src` between two registers of the same size.
pub open spec fn mov_reg_reg_bytes(dest: Register, src: Register) -> Seq<u8> {
    rex_prefix(dest.bits() == 64, src.extended(), dest.extended()) + seq![MOV_RM_R, modrm_byte(3, src.field(), dest.field())]
}

pub fn mov_reg_reg(buf: &mut CodeBuffer, dest: Register, src: Register)
    requires
        dest.bits() == src.bits(),
    ensures
        final(buf).buffer@ == old(buf).buffer@ + mov_reg_reg_bytes(dest, src),
        final(buf).jumps == old(buf).jumps,
{
    let size = dest.join_register_size(src);
    emit_rex(buf, size == 64, src.needs_rex_prefix(), dest.needs_rex_prefix());
    buf.push(MOV_RM_R);
    let m = modrm(MOD_R, src.reg_field(), dest.reg_field());
    buf.push(m);
    assert(buf.buffer@ =~= old(buf).buffer@ + mov_reg_reg_bytes(dest, src));
}

/// The encoding of `push reg`.
pub open spec fn push_bytes(reg: Register) -> Seq<u8> {
    opcode_reg_prefix(reg) + seq![(PUSH_REG + reg.field()) as u8]
}

pub fn push(buf: &mut CodeBuffer, reg: Register)
    ensures
        final(buf).buffer@ == old(buf).buffer@ + push_bytes(reg),
        final(buf).jumps == old(buf).jumps,
{
    if reg.needs_rex_prefix() {
        assert(0x40u8 | 0x01u8 == 0x41u8) by (bit_vector);
        buf.push(REX_BASE | REX_B);
    }
    buf.push(PUSH_REG + reg.reg_field());
    assert(buf.buffer@ =~= old(buf).buffer@ + push_bytes(reg));
}

/// The encoding of `pop reg`.
pub open spec fn pop_bytes(reg: Register) -> Seq<u8> {
    opcode_reg_prefix(reg) + seq![(POP_REG + reg.field()) as u8]
}

pub fn pop(buf: &mut CodeBuffer, reg: Register)
    ensures
        final(buf).buffer@ == old(buf).buffer@ + pop_bytes(reg),
        final(buf).jumps == old(buf).jumps,
{
    if reg.needs_rex_prefix() {
        assert(0x40u8 | 0x01u8 == 0x41u8) by (bit_vector);
        buf.push(REX_BASE | REX_B);
    }
    buf.push(POP_REG + reg.reg_field());
    assert(buf.buffer@ =~= old(buf).buffer@ + pop_bytes(reg));
}

/// The encoding of `mov dest, [base + offset]` with an 8-bit displacement.
pub open spec fn mov_reg_mem_u8_bytes(dest: Register, base: Register, offset: i8) -> Seq<u8> {
    rex_prefix(dest.bits() == 64, dest.extended(), base.extended()) + seq![MOV_R_RM, modrm_byte(1, dest.field(), base.field()), offset as u8]
}

pub fn mov_reg_mem_u8(buf: &mut CodeBuffer, dest: Register, base: Register, offset: i8)
    requires
        dest.bits() == base.bits(),
    ensures
        final(buf).buffer@ == old(buf).buffer@ + mov_reg_mem_u8_bytes(dest, base, offset),
        final(buf).jumps == old(buf).jumps,
{
    let size = dest.join_register_size(base);
    emit_rex(buf, size == 64, dest.needs_rex_prefix(), base.needs_rex_prefix());
    buf.push(MOV_R_RM);
    let m = modrm(MOD_M8, dest.reg_field(), base.reg_field());
    buf.push(m);
    buf.push(offset as u8);
    assert(buf.buffer@ =~= old(buf).buffer@ + mov_reg_mem_u8_bytes(dest, base, offset));
}

/// The encoding of `mov reg, imm32`.
pub open spec fn mov_reg_imm32_bytes(reg: Register, imm: u32) -> Seq<u8> {
    opcode_reg_prefix(reg) + seq![(MOV_REG_IMM32 + reg.field()) as u8] + le32(imm)
}

pub fn mov_reg_imm32(buf: &mut CodeBuffer, reg: Register, imm: u32)
    ensures
        final(buf).buffer@ == old(buf).buffer@ + mov_reg_imm32_bytes(reg, imm),
        final(buf).jumps == old(buf).jumps,
{
    if reg.needs_rex_prefix() {
        assert(0x40u8 | 0x01u8 == 0x41u8) by (bit_vector);
        buf.push(REX_BASE | REX_B);
    }
    buf.push(MOV_REG_IMM32 + reg.reg_field());
    emit_le32(buf, imm);
    assert(buf.buffer@ =~= old(buf).buffer@ + mov_reg_imm32_bytes(reg, imm));
}

/// The encoding of `call reg`.
pub open spec fn call_reg_bytes(reg: Register) -> Seq<u8> {
    rex_prefix(false, false, reg.extended()) + seq![0xFFu8, modrm_byte(3, 2, reg.field())]
}

pub fn call_reg(buf: &mut CodeBuffer, register: Register)
    ensures
        final(buf).buffer@ == old(buf).buffer@ + call_reg_bytes(register),
        final(buf).jumps == old(buf).jumps,
{
    emit_rex(buf, false, false, register.needs_rex_prefix());
    buf.push(0xFF);
    let m = modrm(MOD_R, 2, register.reg_field());
    buf.push(m);
    assert(buf.buffer@ =~= old(buf).buffer@ + call_reg_bytes(register));
}

/// The encoding of `test reg1, reg2`.
pub open spec fn test_reg_reg_bytes(reg1: Register, reg2: Register) -> Seq<u8> {
    rex_prefix(reg1.bits() == 64, reg1.extended(), reg2.extended()) + seq![TEST_R_R, modrm_byte(3, reg1.field(), reg2.field())]
}

pub fn test_reg_reg(buf: &mut CodeBuffer, reg1: Register, reg2: Register)
    requires
        reg1.bits() == reg2.bits(),
    ensures
        final(buf).buffer@ == old(buf).buffer@ + test_reg_reg_bytes(reg1, reg2),
        final(buf).jumps == old(buf).jumps,
{
    let size = reg1.join_register_size(reg2);
    emit_rex(buf, size == 64, reg1.needs_rex_prefix(), reg2.needs_rex_prefix());
    buf.push(TEST_R_R);
    let m = modrm(MOD_R, reg1.reg_field(), reg2.reg_field());
    buf.push(m);
    assert(buf.buffer@ =~= old(buf).buffer@ + test_reg_reg_bytes(reg1, reg2));
}

/// The encoding of `mov dword [base + offset], imm32`. No REX prefix is emitted for the base.
pub open spec fn mov_mem_imm32_bytes(base: Register, offset: u8, imm: i32) -> Seq<u8> {
    seq![MOV_MEM_IMM32, modrm_byte(1, 0, base.field()), offset] + le32(imm as u32)
}

pub fn mov_mem_imm32(buf: &mut CodeBuffer, base: Register, offset: u8, imm: i32)
    ensures
        final(buf).buffer@ == old(buf).buffer@ + mov_mem_imm32_bytes(base, offset, imm),
        final(buf).jumps == old(buf).jumps,
{
    buf.push(MOV_MEM_IMM32);
    let m = modrm(MOD_M8, 0, base.reg_field());
    buf.push(m);
    buf.push(offset);
    emit_le32(buf, imm as u32);
    assert(buf.buffer@ =~= old(buf).buffer@ + mov_mem_imm32_bytes(base, offset, imm));
}

pub fn ret(buf: &mut CodeBuffer)
    ensures
        final(buf).buffer@ == old(buf).buffer@.push(RET),
        final(buf).jumps == old(buf).jumps,
{
    buf.push(RET);
}

/// The encoding of `add rsp, imm8`.
pub open spec fn add_rsp_imm8_bytes(imm: u8) -> Seq<u8> {
    seq![0x48u8, ADD_RM_IMM8, 0xC4u8, imm]
}

pub fn add_rsp_imm8(buf: &mut CodeBuffer, imm: u8)
    ensures
        final(buf).buffer@ == old(buf).buffer@ + add_rsp_imm8_bytes(imm),
        final(buf).jumps == old(buf).jumps,
{
    assert(0x40u8 | 0x08u8 == 0x48u8) by (bit_vector);
    buf.push(REX_BASE | REX_W);
    buf.push(ADD_RM_IMM8);
    let m = modrm(MOD_R, 0, Register::Rsp.reg_field());
    buf.push(m);
    buf.push(imm);
    assert(buf.buffer@ =~= old(buf).buffer@ + add_rsp_imm8_bytes(imm));
}

/// The encoding of `sub rsp, imm8`.
pub open spec fn sub_rsp_imm8_bytes(imm: u8) -> Seq<u8> {
    seq![0x48u8, SUB_RM_IMM8, 0xECu8, imm]
}

pub fn sub_rsp_imm8(buf: &mut CodeBuffer, imm: u8)
    ensures
        final(buf).buffer@ == old(buf).buffer@ + sub_rsp_imm8_bytes(imm),
        final(buf).jumps == old(buf).jumps,
{
    assert(0x40u8 | 0x08u8 == 0x48u8) by (bit_vector);
    buf.push(REX_BASE | REX_W);
    buf.push(SUB_RM_IMM8);
    let m = modrm(MOD_R, 5, Register::Rsp.reg_field());
    buf.push(m);
    buf.push(imm);
    assert(buf.buffer@ =~= old(buf).buffer@ + sub_rsp_imm8_bytes(imm));
}

pub fn cmp_reg_al_imm8(buf: &mut CodeBuffer, imm: u8)
    ensures
        final(buf).buffer@ == old(buf).buffer@ + seq![CMP_AL_IMM8, imm],
        final(buf).jumps == old(buf).jumps,
{
    buf.push(CMP_AL_IMM8);
    buf.push(imm);
    assert(buf.buffer@ =~= old(buf).buffer@ + seq![CMP_AL_IMM8, imm]);
}

pub fn jne_imm32(buf: &mut CodeBuffer, offset: i32)
    ensures
        final(buf).buffer@ == old(buf).buffer@ + seq![0x0Fu8, JNE_REL32] + le32(offset as u32),
        final(buf).jumps == old(buf).jumps,
{
    buf.push(0x0f);
    buf.push(JNE_REL32);
    emit_le32(buf, offset as u32);
    assert(buf.buffer@ =~= old(buf).buffer@ + seq![0x0Fu8, JNE_REL32] + le32(offset as u32));
}

pub fn je_imm32(buf: &mut CodeBuffer, offset: i32)
    ensures
        final(buf).buffer@ == old(buf).buffer@ + seq![0x0Fu8, JE_REL32] + le32(offset as u32),
        final(buf).jumps == old(buf).jumps,
{
    buf.push(0x0f);
    buf.push(JE_REL32);
    emit_le32(buf, offset as u32);
    assert(buf.buffer@ =~= old(buf).buffer@ + seq![0x0Fu8, JE_REL32] + le32(offset as u32));
}

pub fn jmp_imm32(buf: &mut CodeBuffer, offset: i32)
    ensures
        final(buf).buffer@ == old(buf).buffer@ + seq![JMP_REL32] + le32(offset as u32),
        final(buf).jumps == old(buf).jumps,
{
    buf.push(JMP_REL32);
    emit_le32(buf, offset as u32);
    assert(buf.buffer@ =~= old(buf).buffer@ + seq![JMP_REL32] + le32(offset as u32));
}

/// The encoding of `lea dest, [base + offset]`; the REX bits of the two registers are
/// placed as B for `dest` and R for `base`.
pub open spec fn lea_reg_mem_bytes(dest: Register, base: Register, offset: i8) -> Seq<u8> {
    rex_prefix(dest.bits() == 64, base.extended(), dest.extended()) + seq![LEA, modrm_byte(1, dest.field(), base.field()), offset as u8]
}

pub fn lea_reg_mem(buf: &mut CodeBuffer, dest: Register, base: Register, offset: i8)
    requires
        dest.bits() == base.bits(),
    ensures
        final(buf).buffer@ == old(buf).buffer@ + lea_reg_mem_bytes(dest, base, offset),
        final(buf).jumps == old(buf).jumps,
{
    let size = dest.join_register_size(base);
    emit_rex(buf, size == 64, base.needs_rex_prefix(), dest.needs_rex_prefix());
    buf.push(LEA);
    let m = modrm(MOD_M8, dest.reg_field(), base.reg_field());
    buf.push(m);
    buf.push(offset as u8);
    assert(buf.buffer@ =~= old(buf).buffer@ + lea_reg_mem_bytes(dest, base, offset));
}

/// The byte `j` places after `site`.
pub open spec fn byte_at(code: Seq<u8>, site: int, j: int) -> u8 {
    code[site + j]
}

/// Patching never changes the length of the code.
pub proof fn lemma_patch_all_len(code: Seq<u8>, sites: Seq<PatchSite>, target: int)
    requires
        forall|k: int| 0 <= k < sites.len() ==> sites[k] + 4 <= code.len(),
    ensures
        patch_all(code, sites, target).len() == code.len(),
    decreases sites.len(),
{
    if sites.len() > 0 {
        lemma_patch_all_len(code, sites.drop_last(), target);
    }
}

/// Jumps land on their label: after the displacements to `target` are written at patch sites that
/// lie inside the code and do not overlap, each site holds the displacement from the end of its
/// 4-byte field to `target`, and every byte outside the patched fields is as it was.
pub proof fn lemma_patch_all_lands(code: Seq<u8>, sites: Seq<PatchSite>, target: int)
    requires
        refs_ok(sites, code.len() as int),
    ensures
        patch_all(code, sites, target).len() == code.len(),
        forall|k: int, j: int| 0 <= k < sites.len() && 0 <= j < 4 ==>
            #[trigger] byte_at(patch_all(code, sites, target), sites[k] as int, j) == le32(rel32(sites[k] as int, target) as i32 as u32)[j],
        forall|p: int| 0 <= p < code.len() && (forall|k: int| 0 <= k < sites.len() ==> !(#[trigger] sites[k] <= p < sites[k] + 4))
            ==> #[trigger] patch_all(code, sites, target)[p] == code[p],
    decreases sites.len(),
{
    lemma_patch_all_len(code, sites, target);
    if sites.len() > 0 {
        let rest = sites.drop_last();
        assert(refs_ok(rest, code.len() as int));
        lemma_patch_all_lands(code, rest, target);
        let prev = patch_all(code, rest, target);
        let last = sites.last() as int;
        assert forall|k: int, j: int| 0 <= k < sites.len() && 0 <= j < 4 implies
            #[trigger] byte_at(patch_all(code, sites, target), sites[k] as int, j) == le32(rel32(sites[k] as int, target) as i32 as u32)[j] by {
            if k < sites.len() - 1 {
                assert(sites[k] + 4 <= sites[sites.len() - 1]);
                assert(rest[k] == sites[k]);
                assert(byte_at(prev, rest[k] as int, j) == le32(rel32(rest[k] as int, target) as i32 as u32)[j]);
            }
        }
        assert forall|p: int| 0 <= p < code.len() && (forall|k: int| 0 <= k < sites.len() ==> !(#[trigger] sites[k] <= p < sites[k] + 4))
            implies #[trigger] patch_all(code, sites, target)[p] == code[p] by {
            assert forall|k: int| 0 <= k < rest.len() implies !(#[trigger] rest[k] <= p < rest[k] + 4) by {
                assert(rest[k] == sites[k]);
            }
            assert(!(sites[sites.len() - 1] <= p < sites[sites.len() - 1] + 4));
        }
    }
}

/// Writes the displacement from the 4-byte field at `patch_site` to `target` into that field.
fn patch_rel32(buf: &mut CodeBuffer, patch_site: PatchSite, target: X86Ip)
    requires
        patch_site + 4 <= old(buf).buffer@.len(),
        i32::MIN <= rel32(patch_site as int, target as int) <= i32::MAX,
    ensures
        final(buf).buffer@ == write_rel32(old(buf).buffer@, patch_site as int, target as int),
        final(buf).jumps == old(buf).jumps,
{
    let n = buf.buffer.len();
    let disp: i64 = target as i64 - (patch_site as i64 + 4);
    let v = (disp as i32) as u32;
    let site = patch_site as usize;
    assert(site + 4 <= n);
    buf.buffer.set(site, (v % 256) as u8);
    buf.buffer.set(site + 1, ((v / 256) % 256) as u8);
    buf.buffer.set(site + 2, ((v / 65536) % 256) as u8);
    buf.buffer.set(site + 3, (v / 16777216) as u8);
    assert(buf.buffer@ =~= write_rel32(old(buf).buffer@, patch_site as int, target as int));
}

/// Writes the displacement to `target` at every patch site.
fn patch_sites_to(buf: &mut CodeBuffer, patch_sites: Vec<PatchSite>, target: X86Ip)
    requires
        refs_ok(patch_sites@, old(buf).buffer@.len() as int),
        target <= old(buf).buffer@.len() <= i32::MAX,
        forall|k: int| 0 <= k < patch_sites@.len() ==> patch_sites@[k] + 4 <= target,
    ensures
        final(buf).buffer@ == patch_all(old(buf).buffer@, patch_sites@, target as int),
        final(buf).jumps == old(buf).jumps,
{
    let mut i: usize = 0;
    while i < patch_sites.len()
        invariant
            i <= patch_sites@.len(),
            refs_ok(patch_sites@, old(buf).buffer@.len() as int),
            target <= old(buf).buffer@.len() <= i32::MAX,
            forall|k: int| 0 <= k < patch_sites@.len() ==> patch_sites@[k] + 4 <= target,
            buf.buffer@ == patch_all(old(buf).buffer@, patch_sites@.subrange(0, i as int), target as int),
            buf.jumps == old(buf).jumps,
        decreases patch_sites@.len() - i,
    {
        proof {
            lemma_patch_all_len(old(buf).buffer@, patch_sites@.subrange(0, i as int), target as int);
        }
        patch_rel32(buf, patch_sites[i], target);
        i = i + 1;
        assert(patch_sites@.subrange(0, i as int).drop_last() == patch_sites@.subrange(0, i - 1));
    }
    assert(patch_sites@.subrange(0, patch_sites@.len() as int) == patch_sites@);
}

/// The displacement that a jump emitted at `site` gets right away: to its label if the label is
/// already resolved, and zero (to be patched later) if it is not.
pub open spec fn initial_disp(s: LabelState, site: int) -> u32 {
    match s {
        LabelState::Resolved(x) => rel32(site, x as int) as i32 as u32,
        LabelState::Unresolved(_) => 0,
    }
}

/// The label state after a jump with its displacement at `site` refers to it.
pub open spec fn referenced(s: LabelState, site: u32) -> LabelState {
    match s {
        LabelState::Resolved(x) => LabelState::Resolved(x),
        LabelState::Unresolved(refs) => LabelState::Unresolved(refs.push(site)),
    }
}

/// The opcode bytes of `jne rel32`.
pub open spec fn jne_opcode() -> Seq<u8> {
    seq![0x0Fu8, JNE_REL32]
}

/// The opcode bytes of `je rel32`.
pub open spec fn je_opcode() -> Seq<u8> {
    seq![0x0Fu8, JE_REL32]
}

/// The opcode byte of `jmp rel32`.
pub open spec fn jmp_opcode() -> Seq<u8> {
    seq![JMP_REL32]
}

/// Emits a jump instruction whose 4-byte displacement starts `field` bytes in, aimed at a bytecode label.
fn jump_to_bytecode_ip(buf: &mut CodeBuffer, Ghost(opcode): Ghost<Seq<u8>>, target_bc_ip: Ip, which: u8)
    requires
        old(buf).wf(),
        (which == 0 && opcode == jne_opcode()) || (which == 1 && opcode == je_opcode())
            || (which == 2 && opcode == jmp_opcode()),
        (target_bc_ip.0 as int) < old(buf).jumps.user_view().len(),
        old(buf).buffer@.len() + 6 <= i32::MAX,
    ensures
        final(buf).wf(),
        final(buf).buffer@ == old(buf).buffer@ + opcode
            + le32(initial_disp(old(buf).jumps.user_view()[target_bc_ip.0 as int], (old(buf).buffer@.len() + opcode.len()) as int)),
        final(buf).jumps.user_view() == old(buf).jumps.user_view().update(target_bc_ip.0 as int,
            referenced(old(buf).jumps.user_view()[target_bc_ip.0 as int], (old(buf).buffer@.len() + opcode.len()) as u32)),
        forall|l: InternalLabel| final(buf).jumps.internal_view(l) == old(buf).jumps.internal_view(l),
{
    let field: u32 = if which == 2 { 1 } else { 2 };
    let patch_site = buf.offset() + field;
    let ghost state = buf.jumps.user_view()[target_bc_ip.0 as int];
    let ghost pre = *buf;
    let resolved = buf.jumps.add_user_reference(target_bc_ip, patch_site);
    assert(buf.jumps.user_view() =~= old(buf).jumps.user_view().update(target_bc_ip.0 as int, referenced(state, patch_site)));
    if which == 0 {
        jne_imm32(buf, 0);
    } else if which == 1 {
        je_imm32(buf, 0);
    } else {
        jmp_imm32(buf, 0);
    }
    assert(buf.buffer@ =~= old(buf).buffer@ + opcode + le32(0));
    if let Some(target_x86_ip) = resolved {
        patch_rel32(buf, patch_site, target_x86_ip);
        assert(le32(0) =~= seq![0u8, 0, 0, 0]);
        assert(buf.buffer@ =~= old(buf).buffer@ + opcode + le32(initial_disp(state, patch_site as int)));
    }
    proof {
        let len = buf.buffer@.len() as int;
        assert forall|i: int| 0 <= i < buf.jumps.user_view().len() implies label_ok(#[trigger] buf.jumps.user_view()[i], len) by {
            assert(label_ok(old(buf).jumps.user_view()[i], old(buf).buffer@.len() as int));
            if i == target_bc_ip.0 as int {
                match state {
                    LabelState::Unresolved(refs) => {
                        assert(buf.jumps.user_view()[i] == LabelState::Unresolved(refs.push(patch_site)));
                    },
                    LabelState::Resolved(x) => {},
                }
            }
        }
        assert forall|l: InternalLabel| label_ok(#[trigger] buf.jumps.internal_view(l), len) by {
            assert(label_ok(old(buf).jumps.internal_view(l), old(buf).buffer@.len() as int));
        }
    }
}

/// Emits `jne` to a bytecode label.
pub fn jne_bytecode_ip(buf: &mut CodeBuffer, target_bc_ip: Ip)
    requires
        old(buf).wf(),
        (target_bc_ip.0 as int) < old(buf).jumps.user_view().len(),
        old(buf).buffer@.len() + 6 <= i32::MAX,
    ensures
        final(buf).wf(),
        final(buf).buffer@ == old(buf).buffer@ + seq![0x0Fu8, JNE_REL32]
            + le32(initial_disp(old(buf).jumps.user_view()[target_bc_ip.0 as int], (old(buf).buffer@.len() + 2) as int)),
        final(buf).jumps.user_view() == old(buf).jumps.user_view().update(target_bc_ip.0 as int,
            referenced(old(buf).jumps.user_view()[target_bc_ip.0 as int], (old(buf).buffer@.len() + 2) as u32)),
        forall|l: InternalLabel| final(buf).jumps.internal_view(l) == old(buf).jumps.internal_view(l),
{
    jump_to_bytecode_ip(buf, Ghost(jne_opcode()), target_bc_ip, 0);
}

/// Emits `je` to a bytecode label.
pub fn je_bytecode_ip(buf: &mut CodeBuffer, target_bc_ip: Ip)
    requires
        old(buf).wf(),
        (target_bc_ip.0 as int) < old(buf).jumps.user_view().len(),
        old(buf).buffer@.len() + 6 <= i32::MAX,
    ensures
        final(buf).wf(),
        final(buf).buffer@ == old(buf).buffer@ + seq![0x0Fu8, JE_REL32]
            + le32(initial_disp(old(buf).jumps.user_view()[target_bc_ip.0 as int], (old(buf).buffer@.len() + 2) as int)),
        final(buf).jumps.user_view() == old(buf).jumps.user_view().update(target_bc_ip.0 as int,
            referenced(old(buf).jumps.user_view()[target_bc_ip.0 as int], (old(buf).buffer@.len() + 2) as u32)),
        forall|l: InternalLabel| final(buf).jumps.internal_view(l) == old(buf).jumps.internal_view(l),
{
    jump_to_bytecode_ip(buf, Ghost(je_opcode()), target_bc_ip, 1);
}

/// Emits `jmp` to a bytecode label.
pub fn jmp_bytecode_ip(buf: &mut CodeBuffer, target_bc_ip: Ip)
    requires
        old(buf).wf(),
        (target_bc_ip.0 as int) < old(buf).jumps.user_view().len(),
        old(buf).buffer@.len() + 6 <= i32::MAX,
    ensures
        final(buf).wf(),
        final(buf).buffer@ == old(buf).buffer@ + seq![JMP_REL32]
            + le32(initial_disp(old(buf).jumps.user_view()[target_bc_ip.0 as int], (old(buf).buffer@.len() + 1) as int)),
        final(buf).jumps.user_view() == old(buf).jumps.user_view().update(target_bc_ip.0 as int,
            referenced(old(buf).jumps.user_view()[target_bc_ip.0 as int], (old(buf).buffer@.len() + 1) as u32)),
        forall|l: InternalLabel| final(buf).jumps.internal_view(l) == old(buf).jumps.internal_view(l),
{
    jump_to_bytecode_ip(buf, Ghost(jmp_opcode()), target_bc_ip, 2);
}

/// Emits a jump aimed at an internal label.
fn jump_to_internal_label(buf: &mut CodeBuffer, Ghost(opcode): Ghost<Seq<u8>>, label: InternalLabel, is_jmp: bool)
    requires
        old(buf).wf(),
        (!is_jmp && opcode == jne_opcode()) || (is_jmp && opcode == jmp_opcode()),
        old(buf).buffer@.len() + 6 <= i32::MAX,
    ensures
        final(buf).wf(),
        final(buf).buffer@ == old(buf).buffer@ + opcode
            + le32(initial_disp(old(buf).jumps.internal_view(label), (old(buf).buffer@.len() + opcode.len()) as int)),
        final(buf).jumps.internal_view(label) == referenced(old(buf).jumps.internal_view(label), (old(buf).buffer@.len() + opcode.len()) as u32),
        forall|l: InternalLabel| l != label ==> final(buf).jumps.internal_view(l) == old(buf).jumps.internal_view(l),
        final(buf).jumps.user_view() == old(buf).jumps.user_view(),
{
    let field: u32 = if is_jmp { 1 } else { 2 };
    let patch_site = buf.offset() + field;
    let ghost state = buf.jumps.internal_view(label);
    if is_jmp {
        jmp_imm32(buf, 0);
    } else {
        jne_imm32(buf, 0);
    }
    let resolved = buf.jumps.add_internal_reference(label, patch_site);
    assert(buf.buffer@ =~= old(buf).buffer@ + opcode + le32(0));
    if let Some(target_x86_ip) = resolved {
        patch_rel32(buf, patch_site, target_x86_ip);
        assert(le32(0) =~= seq![0u8, 0, 0, 0]);
        assert(buf.buffer@ =~= old(buf).buffer@ + opcode + le32(initial_disp(state, patch_site as int)));
    }
    proof {
        let len = buf.buffer@.len() as int;
        assert forall|i: int| 0 <= i < buf.jumps.user_view().len() implies label_ok(#[trigger] buf.jumps.user_view()[i], len) by {
            assert(label_ok(old(buf).jumps.user_view()[i], old(buf).buffer@.len() as int));
        }
        assert forall|l: InternalLabel| label_ok(#[trigger] buf.jumps.internal_view(l), len) by {
            assert(label_ok(old(buf).jumps.internal_view(l), old(buf).buffer@.len() as int));
            if l == label {
                match state {
                    LabelState::Unresolved(refs) => {
                        assert(buf.jumps.internal_view(l) == LabelState::Unresolved(refs.push(patch_site)));
                    },
                    LabelState::Resolved(x) => {},
                }
            }
        }
    }
}

/// Emits `jne` to an internal label.
pub fn jne_internal_label(buf: &mut CodeBuffer, label: InternalLabel)
    requires
        old(buf).wf(),
        old(buf).buffer@.len() + 6 <= i32::MAX,
    ensures
        final(buf).wf(),
        final(buf).buffer@ == old(buf).buffer@ + seq![0x0Fu8, JNE_REL32]
            + le32(initial_disp(old(buf).jumps.internal_view(label), (old(buf).buffer@.len() + 2) as int)),
        final(buf).jumps.internal_view(label) == referenced(old(buf).jumps.internal_view(label), (old(buf).buffer@.len() + 2) as u32),
        forall|l: InternalLabel| l != label ==> final(buf).jumps.internal_view(l) == old(buf).jumps.internal_view(l),
        final(buf).jumps.user_view() == old(buf).jumps.user_view(),
{
    jump_to_internal_label(buf, Ghost(jne_opcode()), label, false);
}

/// Emits `jmp` to an internal label.
pub fn jmp_internal_label(buf: &mut CodeBuffer, label: InternalLabel)
    requires
        old(buf).wf(),
        old(buf).buffer@.len() + 6 <= i32::MAX,
    ensures
        final(buf).wf(),
        final(buf).buffer@ == old(buf).buffer@ + seq![JMP_REL32]
            + le32(initial_disp(old(buf).jumps.internal_view(label), (old(buf).buffer@.len() + 1) as int)),
        final(buf).jumps.internal_view(label) == referenced(old(buf).jumps.internal_view(label), (old(buf).buffer@.len() + 1) as u32),
        forall|l: InternalLabel| l != label ==> final(buf).jumps.internal_view(l) == old(buf).jumps.internal_view(l),
        final(buf).jumps.user_view() == old(buf).jumps.user_view(),
{
    jump_to_internal_label(buf, Ghost(jmp_opcode()), label, true);
}

/// Marks the current offset as the location of a bytecode instruction and patches every jump
/// that was waiting for it.
pub fn mark_bytecode_ip(buf: &mut CodeBuffer, bc_ip: Ip)
    requires
        old(buf).wf(),
        (bc_ip.0 as int) < old(buf).jumps.user_view().len(),
        old(buf).jumps.user_view()[bc_ip.0 as int] is Unresolved,
    ensures
        final(buf).wf(),
        final(buf).buffer@ == patch_all(old(buf).buffer@, old(buf).jumps.user_view()[bc_ip.0 as int]->Unresolved_0,
            old(buf).buffer@.len() as int),
        final(buf).jumps.user_view() == old(buf).jumps.user_view().update(bc_ip.0 as int,
            LabelState::Resolved(old(buf).buffer@.len() as u32)),
        forall|l: InternalLabel| final(buf).jumps.internal_view(l) == old(buf).jumps.internal_view(l),
{
    let x86_ip = buf.offset();
    let ghost refs = buf.jumps.user_view()[bc_ip.0 as int]->Unresolved_0;
    proof {
        assert(label_ok(buf.jumps.user_view()[bc_ip.0 as int], buf.buffer@.len() as int));
    }
    let patch_sites = buf.jumps.resolve_user_label(bc_ip, x86_ip);
    patch_sites_to(buf, patch_sites, x86_ip);
    proof {
        lemma_patch_all_len(old(buf).buffer@, refs, x86_ip as int);
        let len = buf.buffer@.len() as int;
        assert forall|i: int| 0 <= i < buf.jumps.user_view().len() implies label_ok(#[trigger] buf.jumps.user_view()[i], len) by {
            assert(label_ok(old(buf).jumps.user_view()[i], old(buf).buffer@.len() as int));
        }
        assert forall|l: InternalLabel| label_ok(#[trigger] buf.jumps.internal_view(l), len) by {
            assert(label_ok(old(buf).jumps.internal_view(l), old(buf).buffer@.len() as int));
        }
    }
}

/// Marks the current offset as the location of an internal label and patches every jump that was
/// waiting for it.
pub fn mark_internal_label(buf: &mut CodeBuffer, label: InternalLabel)
    requires
        old(buf).wf(),
        old(buf).jumps.internal_view(label) is Unresolved,
    ensures
        final(buf).wf(),
        final(buf).buffer@ == patch_all(old(buf).buffer@, old(buf).jumps.internal_view(label)->Unresolved_0,
            old(buf).buffer@.len() as int),
        final(buf).jumps.internal_view(label) == LabelState::Resolved(old(buf).buffer@.len() as u32),
        forall|l: InternalLabel| l != label ==> final(buf).jumps.internal_view(l) == old(buf).jumps.internal_view(l),
        final(buf).jumps.user_view() == old(buf).jumps.user_view(),
{
    let x86_ip = buf.offset();
    let ghost refs = buf.jumps.internal_view(label)->Unresolved_0;
    proof {
        assert(label_ok(buf.jumps.internal_view(label), buf.buffer@.len() as int));
    }
    let patch_sites = buf.jumps.resolve_internal_label(label, x86_ip);
    patch_sites_to(buf, patch_sites, x86_ip);
    proof {
        lemma_patch_all_len(old(buf).buffer@, refs, x86_ip as int);
        let len = buf.buffer@.len() as int;
        assert forall|i: int| 0 <= i < buf.jumps.user_view().len() implies label_ok(#[trigger] buf.jumps.user_view()[i], len) by {
            assert(label_ok(old(buf).jumps.user_view()[i], old(buf).buffer@.len() as int));
        }
        assert forall|l: InternalLabel| label_ok(#[trigger] buf.jumps.internal_view(l), len) by {
            assert(label_ok(old(buf).jumps.internal_view(l), old(buf).buffer@.len() as int));
        }
    }
}

/// The callee-saved registers that the prologue claims, and where the out data lies.
pub struct PrologueData {
    pub stub_csreg: Register,
    pub vtable_csreg: Register,
    pub vm_csreg: Register,
    pub out_data_rbp_offset: i8,
}

/// The code of the prologue: it saves `rbp` and the three claimed registers, moves the VM and
/// vtable arguments into callee-saved registers, makes room for the out data and loads the stub
/// function from the vtable.
pub open spec fn prologue_bytes(stub: Register, vtable: Register, vm: Register) -> Seq<u8> {
    push_bytes(Register::Rbp) + mov_reg_reg_bytes(Register::Rbp, Register::Rsp) + push_bytes(vm)
        + mov_reg_reg_bytes(vm, Register::Rdi) + push_bytes(stub) + push_bytes(vtable)
        + mov_reg_reg_bytes(vtable, Register::Rsi) + push_bytes(Register::Rdx)
        + mov_reg_mem_u8_bytes(stub, Register::Rsi, STUB_FN_OFFSET)
}

pub fn prologue(buf: &mut CodeBuffer, callee_regs: &mut Vec<Register>) -> (r: PrologueData)
    requires
        old(callee_regs)@.len() >= 3,
        old(callee_regs)@[old(callee_regs)@.len() - 1].bits() == 64,
        old(callee_regs)@[old(callee_regs)@.len() - 2].bits() == 64,
        old(callee_regs)@[old(callee_regs)@.len() - 3].bits() == 64,
    ensures
        r.stub_csreg == old(callee_regs)@[old(callee_regs)@.len() - 1],
        r.vtable_csreg == old(callee_regs)@[old(callee_regs)@.len() - 2],
        r.vm_csreg == old(callee_regs)@[old(callee_regs)@.len() - 3],
        r.out_data_rbp_offset == 32,
        final(callee_regs)@ == old(callee_regs)@.subrange(0, old(callee_regs)@.len() - 3),
        final(buf).buffer@ == old(buf).buffer@ + prologue_bytes(r.stub_csreg, r.vtable_csreg, r.vm_csreg),
        final(buf).jumps == old(buf).jumps,
{
    let stub_csreg = callee_regs.pop().unwrap();
    let vtable_csreg = callee_regs.pop().unwrap();
    let vm_csreg = callee_regs.pop().unwrap();
    assert(callee_regs@ =~= old(callee_regs)@.subrange(0, old(callee_regs)@.len() - 3));

    let ghost b0 = buf.buffer@;
    // START OF STACK
    push(buf, Register::Rbp); // rsp aligned
    mov_reg_reg(buf, Register::Rbp, Register::Rsp);
    push(buf, vm_csreg); // rbp-8, rsp misaligned by 8
    mov_reg_reg(buf, vm_csreg, Register::Rdi);
    push(buf, stub_csreg); // rbp-16, rsp aligned
    push(buf, vtable_csreg); // rbp-24, rsp misaligned by 8
    mov_reg_reg(buf, vtable_csreg, Register::Rsi);
    push(buf, Register::Rdx); // Out data - rbp-32, rsp aligned
    // END OF STACK

    // The stub fn is very hot, so put it in a callee-saved register
    mov_reg_mem_u8(buf, stub_csreg, Register::Rsi, STUB_FN_OFFSET);
    assert(buf.buffer@ =~= b0 + prologue_bytes(stub_csreg, vtable_csreg, vm_csreg));

    PrologueData { stub_csreg, vtable_csreg, vm_csreg, out_data_rbp_offset: 32 }
}

/// The code of the epilogue: it drops the out data, restores the saved registers and returns.
pub open spec fn epilogue_bytes(p: PrologueData) -> Seq<u8> {
    add_rsp_imm8_bytes(8) + pop_bytes(p.vtable_csreg) + pop_bytes(p.stub_csreg) + pop_bytes(p.vm_csreg)
        + pop_bytes(Register::Rbp) + seq![RET]
}

pub fn epilogue(buf: &mut CodeBuffer, prologue_data: &PrologueData)
    ensures
        final(buf).buffer@ == old(buf).buffer@ + epilogue_bytes(*prologue_data),
        final(buf).jumps == old(buf).jumps,
{
    add_rsp_imm8(buf, 8);
    pop(buf, prologue_data.vtable_csreg);
    pop(buf, prologue_data.stub_csreg);
    pop(buf, prologue_data.vm_csreg);
    pop(buf, Register::Rbp);
    ret(buf);
    assert(buf.buffer@ =~= old(buf).buffer@ + epilogue_bytes(*prologue_data));
}


/// The encoders use the x86-64 register numbers of the instruction set reference: rax 0, rcx 1,
/// rdx 2, rbx 3, rsp 4, rbp 5, rsi 6, rdi 7 in the opcode or ModRM field, and r8 to r15 as the
/// same fields with the REX.B (or REX.R) bit of a prefix. So `push rdx` is 0x52, `mov edx, imm32`
/// is 0xBA followed by the immediate, and `mov rdi, r12` is 0x4C 0x89 0xE7.
pub proof fn lemma_register_encodings()
    ensures
        push_bytes(Register::Rax) == seq![0x50u8],
        pop_bytes(Register::Rax) == seq![0x58u8],
        push_bytes(Register::Rcx) == seq![0x51u8],
        pop_bytes(Register::Rcx) == seq![0x59u8],
        push_bytes(Register::Rdx) == seq![0x52u8],
        pop_bytes(Register::Rdx) == seq![0x5Au8],
        push_bytes(Register::Rbx) == seq![0x53u8],
        pop_bytes(Register::Rbx) == seq![0x5Bu8],
        push_bytes(Register::Rsp) == seq![0x54u8],
        pop_bytes(Register::Rsp) == seq![0x5Cu8],
        push_bytes(Register::Rbp) == seq![0x55u8],
        pop_bytes(Register::Rbp) == seq![0x5Du8],
        push_bytes(Register::Rsi) == seq![0x56u8],
        pop_bytes(Register::Rsi) == seq![0x5Eu8],
        push_bytes(Register::Rdi) == seq![0x57u8],
        pop_bytes(Register::Rdi) == seq![0x5Fu8],
        push_bytes(Register::R8) == seq![0x41u8, 0x50u8],
        pop_bytes(Register::R8) == seq![0x41u8, 0x58u8],
        push_bytes(Register::R9) == seq![0x41u8, 0x51u8],
        pop_bytes(Register::R9) == seq![0x41u8, 0x59u8],
        push_bytes(Register::R10) == seq![0x41u8, 0x52u8],
        pop_bytes(Register::R10) == seq![0x41u8, 0x5Au8],
        push_bytes(Register::R11) == seq![0x41u8, 0x53u8],
        pop_bytes(Register::R11) == seq![0x41u8, 0x5Bu8],
        push_bytes(Register::R12) == seq![0x41u8, 0x54u8],
        pop_bytes(Register::R12) == seq![0x41u8, 0x5Cu8],
        push_bytes(Register::R13) == seq![0x41u8, 0x55u8],
        pop_bytes(Register::R13) == seq![0x41u8, 0x5Du8],
        push_bytes(Register::R14) == seq![0x41u8, 0x56u8],
        pop_bytes(Register::R14) == seq![0x41u8, 0x5Eu8],
        push_bytes(Register::R15) == seq![0x41u8, 0x57u8],
        pop_bytes(Register::R15) == seq![0x41u8, 0x5Fu8],
        forall|imm: u32|
            #![trigger le32(imm)]
            mov_reg_imm32_bytes(Register::Eax, imm) == seq![0xB8u8] + le32(imm)
                && mov_reg_imm32_bytes(Register::Rcx, imm) == seq![0xB9u8] + le32(imm)
                && mov_reg_imm32_bytes(Register::Rdx, imm) == seq![0xBAu8] + le32(imm)
                && mov_reg_imm32_bytes(Register::Rbx, imm) == seq![0xBBu8] + le32(imm)
                && mov_reg_imm32_bytes(Register::Rsp, imm) == seq![0xBCu8] + le32(imm)
                && mov_reg_imm32_bytes(Register::Rbp, imm) == seq![0xBDu8] + le32(imm)
                && mov_reg_imm32_bytes(Register::Rsi, imm) == seq![0xBEu8] + le32(imm)
                && mov_reg_imm32_bytes(Register::Rdi, imm) == seq![0xBFu8] + le32(imm)
                && mov_reg_imm32_bytes(Register::R8, imm) == seq![0x41u8, 0xB8u8] + le32(imm)
                && mov_reg_imm32_bytes(Register::R9, imm) == seq![0x41u8, 0xB9u8] + le32(imm)
                && mov_reg_imm32_bytes(Register::R10, imm) == seq![0x41u8, 0xBAu8] + le32(imm)
                && mov_reg_imm32_bytes(Register::R11, imm) == seq![0x41u8, 0xBBu8] + le32(imm)
                && mov_reg_imm32_bytes(Register::R12, imm) == seq![0x41u8, 0xBCu8] + le32(imm)
                && mov_reg_imm32_bytes(Register::R13, imm) == seq![0x41u8, 0xBDu8] + le32(imm)
                && mov_reg_imm32_bytes(Register::R14, imm) == seq![0x41u8, 0xBEu8] + le32(imm)
                && mov_reg_imm32_bytes(Register::R15, imm) == seq![0x41u8, 0xBFu8] + le32(imm),
        mov_reg_reg_bytes(Register::Rbp, Register::Rsp) == seq![0x48u8, 0x89u8, 0xE5u8],
        mov_reg_reg_bytes(Register::Rdi, Register::R12) == seq![0x4Cu8, 0x89u8, 0xE7u8],
        mov_reg_reg_bytes(Register::R12, Register::Rdi) == seq![0x49u8, 0x89u8, 0xFCu8],
        mov_reg_reg_bytes(Register::Rdx, Register::Rcx) == seq![0x48u8, 0x89u8, 0xCAu8],
        call_reg_bytes(Register::Rax) == seq![0xFFu8, 0xD0u8],
        call_reg_bytes(Register::R13) == seq![0x41u8, 0xFFu8, 0xD5u8],
{
    assert forall|imm: u32| #![trigger le32(imm)]
        mov_reg_imm32_bytes(Register::Eax, imm) == seq![0xB8u8] + le32(imm)
                && mov_reg_imm32_bytes(Register::Rcx, imm) == seq![0xB9u8] + le32(imm)
                && mov_reg_imm32_bytes(Register::Rdx, imm) == seq![0xBAu8] + le32(imm)
                && mov_reg_imm32_bytes(Register::Rbx, imm) == seq![0xBBu8] + le32(imm)
                && mov_reg_imm32_bytes(Register::Rsp, imm) == seq![0xBCu8] + le32(imm)
                && mov_reg_imm32_bytes(Register::Rbp, imm) == seq![0xBDu8] + le32(imm)
                && mov_reg_imm32_bytes(Register::Rsi, imm) == seq![0xBEu8] + le32(imm)
                && mov_reg_imm32_bytes(Register::Rdi, imm) == seq![0xBFu8] + le32(imm)
                && mov_reg_imm32_bytes(Register::R8, imm) == seq![0x41u8, 0xB8u8] + le32(imm)
                && mov_reg_imm32_bytes(Register::R9, imm) == seq![0x41u8, 0xB9u8] + le32(imm)
                && mov_reg_imm32_bytes(Register::R10, imm) == seq![0x41u8, 0xBAu8] + le32(imm)
                && mov_reg_imm32_bytes(Register::R11, imm) == seq![0x41u8, 0xBBu8] + le32(imm)
                && mov_reg_imm32_bytes(Register::R12, imm) == seq![0x41u8, 0xBCu8] + le32(imm)
                && mov_reg_imm32_bytes(Register::R13, imm) == seq![0x41u8, 0xBDu8] + le32(imm)
                && mov_reg_imm32_bytes(Register::R14, imm) == seq![0x41u8, 0xBEu8] + le32(imm)
                && mov_reg_imm32_bytes(Register::R15, imm) == seq![0x41u8, 0xBFu8] + le32(imm) by {
        assert(mov_reg_imm32_bytes(Register::Eax, imm) =~= seq![0xB8u8] + le32(imm));
        assert(mov_reg_imm32_bytes(Register::Rcx, imm) =~= seq![0xB9u8] + le32(imm));
        assert(mov_reg_imm32_bytes(Register::Rdx, imm) =~= seq![0xBAu8] + le32(imm));
        assert(mov_reg_imm32_bytes(Register::Rbx, imm) =~= seq![0xBBu8] + le32(imm));
        assert(mov_reg_imm32_bytes(Register::Rsp, imm) =~= seq![0xBCu8] + le32(imm));
        assert(mov_reg_imm32_bytes(Register::Rbp, imm) =~= seq![0xBDu8] + le32(imm));
        assert(mov_reg_imm32_bytes(Register::Rsi, imm) =~= seq![0xBEu8] + le32(imm));
        assert(mov_reg_imm32_bytes(Register::Rdi, imm) =~= seq![0xBFu8] + le32(imm));
        assert(mov_reg_imm32_bytes(Register::R8, imm) =~= seq![0x41u8, 0xB8u8] + le32(imm));
        assert(mov_reg_imm32_bytes(Register::R9, imm) =~= seq![0x41u8, 0xB9u8] + le32(imm));
        assert(mov_reg_imm32_bytes(Register::R10, imm) =~= seq![0x41u8, 0xBAu8] + le32(imm));
        assert(mov_reg_imm32_bytes(Register::R11, imm) =~= seq![0x41u8, 0xBBu8] + le32(imm));
        assert(mov_reg_imm32_bytes(Register::R12, imm) =~= seq![0x41u8, 0xBCu8] + le32(imm));
        assert(mov_reg_imm32_bytes(Register::R13, imm) =~= seq![0x41u8, 0xBDu8] + le32(imm));
        assert(mov_reg_imm32_bytes(Register::R14, imm) =~= seq![0x41u8, 0xBEu8] + le32(imm));
        assert(mov_reg_imm32_bytes(Register::R15, imm) =~= seq![0x41u8, 0xBFu8] + le32(imm));
    }
    assert(push_bytes(Register::Rax) =~= seq![0x50u8]);
    assert(pop_bytes(Register::Rax) =~= seq![0x58u8]);
    assert(push_bytes(Register::Rcx) =~= seq![0x51u8]);
    assert(pop_bytes(Register::Rcx) =~= seq![0x59u8]);
    assert(push_bytes(Register::Rdx) =~= seq![0x52u8]);
    assert(pop_bytes(Register::Rdx) =~= seq![0x5Au8]);
    assert(push_bytes(Register::Rbx) =~= seq![0x53u8]);
    assert(pop_bytes(Register::Rbx) =~= seq![0x5Bu8]);
    assert(push_bytes(Register::Rsp) =~= seq![0x54u8]);
    assert(pop_bytes(Register::Rsp) =~= seq![0x5Cu8]);
    assert(push_bytes(Register::Rbp) =~= seq![0x55u8]);
    assert(pop_bytes(Register::Rbp) =~= seq![0x5Du8]);
    assert(push_bytes(Register::Rsi) =~= seq![0x56u8]);
    assert(pop_bytes(Register::Rsi) =~= seq![0x5Eu8]);
    assert(push_bytes(Register::Rdi) =~= seq![0x57u8]);
    assert(pop_bytes(Register::Rdi) =~= seq![0x5Fu8]);
    assert(push_bytes(Register::R8) =~= seq![0x41u8, 0x50u8]);
    assert(pop_bytes(Register::R8) =~= seq![0x41u8, 0x58u8]);
    assert(push_bytes(Register::R9) =~= seq![0x41u8, 0x51u8]);
    assert(pop_bytes(Register::R9) =~= seq![0x41u8, 0x59u8]);
    assert(push_bytes(Register::R10) =~= seq![0x41u8, 0x52u8]);
    assert(pop_bytes(Register::R10) =~= seq![0x41u8, 0x5Au8]);
    assert(push_bytes(Register::R11) =~= seq![0x41u8, 0x53u8]);
    assert(pop_bytes(Register::R11) =~= seq![0x41u8, 0x5Bu8]);
    assert(push_bytes(Register::R12) =~= seq![0x41u8, 0x54u8]);
    assert(pop_bytes(Register::R12) =~= seq![0x41u8, 0x5Cu8]);
    assert(push_bytes(Register::R13) =~= seq![0x41u8, 0x55u8]);
    assert(pop_bytes(Register::R13) =~= seq![0x41u8, 0x5Du8]);
    assert(push_bytes(Register::R14) =~= seq![0x41u8, 0x56u8]);
    assert(pop_bytes(Register::R14) =~= seq![0x41u8, 0x5Eu8]);
    assert(push_bytes(Register::R15) =~= seq![0x41u8, 0x57u8]);
    assert(pop_bytes(Register::R15) =~= seq![0x41u8, 0x5Fu8]);
    assert(mov_reg_reg_bytes(Register::Rbp, Register::Rsp) =~= seq![0x48u8, 0x89u8, 0xE5u8]);
    assert(mov_reg_reg_bytes(Register::Rdi, Register::R12) =~= seq![0x4Cu8, 0x89u8, 0xE7u8]);
    assert(mov_reg_reg_bytes(Register::R12, Register::Rdi) =~= seq![0x49u8, 0x89u8, 0xFCu8]);
    assert(mov_reg_reg_bytes(Register::Rdx, Register::Rcx) =~= seq![0x48u8, 0x89u8, 0xCAu8]);
    assert(call_reg_bytes(Register::Rax) =~= seq![0xFFu8, 0xD0u8]);
    assert(call_reg_bytes(Register::R13) =~= seq![0x41u8, 0xFFu8, 0xD5u8]);
}


/// The other encodings of the instruction set reference that the compiler emits: the jumps with a
/// 32-bit displacement (`jne` 0x0F 0x85, `je` 0x0F 0x84, `jmp` 0xE9), `ret`, `cmp al, imm8`,
/// `test eax, eax`, `add`/`sub rsp, imm8`, loads from `[base + disp8]` and the store of an imm32;
/// displacements and immediates are little-endian, least significant byte first.
pub proof fn lemma_instruction_encodings()
    ensures
        jne_opcode() == seq![0x0Fu8, 0x85u8],
        je_opcode() == seq![0x0Fu8, 0x84u8],
        jmp_opcode() == seq![0xE9u8],
        RET == 0xC3u8,
        CMP_AL_IMM8 == 0x3Cu8,
        test_reg_reg_bytes(Register::Eax, Register::Eax) == seq![0x85u8, 0xC0u8],
        add_rsp_imm8_bytes(8) == seq![0x48u8, 0x83u8, 0xC4u8, 0x08u8],
        sub_rsp_imm8_bytes(8) == seq![0x48u8, 0x83u8, 0xECu8, 0x08u8],
        mov_reg_mem_u8_bytes(Register::Rax, Register::Rbp, -32i8) == seq![0x48u8, 0x8Bu8, 0x45u8, 0xE0u8],
        mov_reg_mem_u8_bytes(Register::R13, Register::Rsi, 8) == seq![0x4Cu8, 0x8Bu8, 0x6Eu8, 0x08u8],
        mov_reg_mem_u8_bytes(Register::Rax, Register::R14, 8) == seq![0x49u8, 0x8Bu8, 0x46u8, 0x08u8],
        forall|v: u32| #![trigger le32(v)] le32(v).len() == 4 && le32(v)[0] + 256 * le32(v)[1] + 65536 * le32(v)[2]
            + 16777216 * le32(v)[3] == v,
        forall|imm: i32| #![trigger mov_mem_imm32_bytes(Register::Rax, 8, imm)]
            mov_mem_imm32_bytes(Register::Rax, 8, imm) == seq![0xC7u8, 0x40u8, 0x08u8] + le32(imm as u32),
{
    assert(test_reg_reg_bytes(Register::Eax, Register::Eax) =~= seq![0x85u8, 0xC0u8]);
    assert((-32i8) as u8 == 0xE0u8) by (bit_vector);
    assert(mov_reg_mem_u8_bytes(Register::Rax, Register::Rbp, -32i8) =~= seq![0x48u8, 0x8Bu8, 0x45u8, 0xE0u8]);
    assert(mov_reg_mem_u8_bytes(Register::R13, Register::Rsi, 8) =~= seq![0x4Cu8, 0x8Bu8, 0x6Eu8, 0x08u8]);
    assert(mov_reg_mem_u8_bytes(Register::Rax, Register::R14, 8) =~= seq![0x49u8, 0x8Bu8, 0x46u8, 0x08u8]);
    assert forall|v: u32| #![trigger le32(v)] le32(v).len() == 4 && le32(v)[0] + 256 * le32(v)[1] + 65536 * le32(v)[2]
        + 16777216 * le32(v)[3] == v by {
        let x = v as int;
        assert(x % 256 + 256 * ((x / 256) % 256) + 65536 * ((x / 65536) % 256) + 16777216 * (x / 16777216) == x)
            by (nonlinear_arith)
            requires
                0 <= x < 0x1_0000_0000,
        {
            vstd::arithmetic::div_mod::lemma_fundamental_div_mod(x, 256);
            vstd::arithmetic::div_mod::lemma_fundamental_div_mod(x / 256, 256);
            vstd::arithmetic::div_mod::lemma_fundamental_div_mod(x / 65536, 256);
            vstd::arithmetic::div_mod::lemma_div_denominator(x, 256, 256);
            vstd::arithmetic::div_mod::lemma_div_denominator(x, 65536, 256);
        }
    }
    assert forall|imm: i32| #![trigger mov_mem_imm32_bytes(Register::Rax, 8, imm)]
        mov_mem_imm32_bytes(Register::Rax, 8, imm) == seq![0xC7u8, 0x40u8, 0x08u8] + le32(imm as u32) by {
        assert(mov_mem_imm32_bytes(Register::Rax, 8, imm) =~= seq![0xC7u8, 0x40u8, 0x08u8] + le32(imm as u32));
    }
}

} // verus!
