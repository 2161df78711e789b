use vstd::prelude::*;

use crate::frame::Ip;
use crate::jit::compiler::backend::x86 as backend;
use crate::jit::compiler::backend::x86::{initial_disp, le32, patch_all, referenced};
use crate::jit::compiler::codebuffer::CodeBuffer;
use crate::jit::jumpresolver::{InternalLabel, JumpResolver, LabelState, X86Ip};

verus! {

/// The registers that the emitter knows.
#[derive(Debug, Clone, Copy, PartialEq, Eq)]
pub enum Register {
    Al,
    Rax,
    Eax,
    R8,
    Rbp,
    Rsp,
    R12,
    R13,
    R14,
    Rdi,
    Rsi,
    Rdx,
}

impl Register {
    /// The same register in the backend's register set.
    pub open spec fn as_backend(self) -> backend::Register {
        match self {
            Register::Al => backend::Register::Al,
            Register::Rax => backend::Register::Rax,
            Register::Eax => backend::Register::Eax,
            Register::R8 => backend::Register::R8,
            Register::Rbp => backend::Register::Rbp,
            Register::Rsp => backend::Register::Rsp,
            Register::R12 => backend::Register::R12,
            Register::R13 => backend::Register::R13,
            Register::R14 => backend::Register::R14,
            Register::Rdi => backend::Register::Rdi,
            Register::Rsi => backend::Register::Rsi,
            Register::Rdx => backend::Register::Rdx,
        }
    }

    fn to_backend(self) -> (r: backend::Register)
        ensures
            r == self.as_backend(),
    {
        match self {
            Register::Al => backend::Register::Al,
            Register::Rax => backend::Register::Rax,
            Register::Eax => backend::Register::Eax,
            Register::R8 => backend::Register::R8,
            Register::Rbp => backend::Register::Rbp,
            Register::Rsp => backend::Register::Rsp,
            Register::R12 => backend::Register::R12,
            Register::R13 => backend::Register::R13,
            Register::R14 => backend::Register::R14,
            Register::Rdi => backend::Register::Rdi,
            Register::Rsi => backend::Register::Rsi,
            Register::Rdx => backend::Register::Rdx,
        }
    }

    pub fn is_64_bit(&self) -> (r: bool)
        ensures
            r == (self.as_backend().bits() == 64),
    {
        match self {
            Register::Rax | Register::R8 | Register::Rbp | Register::R12 | Register::R13 | Register::Rsp
            | Register::Rdi | Register::Rsi | Register::R14 | Register::Rdx => true,
            Register::Eax | Register::Al => false,
        }
    }

    pub fn reg_field(&self) -> (r: u8)
        ensures
            r == self.as_backend().field(),
    {
        match self {
            Register::Rax | Register::Eax | Register::Al | Register::R8 => 0,
            Register::Rbp | Register::R13 => 5,
            Register::Rsp | Register::R12 => 4,
            Register::Rdi => 7,
            Register::Rsi | Register::R14 => 6,
            Register::Rdx => 2,
        }
    }

    pub fn needs_rex_prefix(&self) -> (r: bool)
        ensures
            r == self.as_backend().extended(),
    {
        match self {
            Register::R8 | Register::R12 | Register::R13 | Register::R14 => true,
            Register::Rax | Register::Eax | Register::Rbp | Register::Rsp | Register::Rdi | Register::Rsi
            | Register::Rdx | Register::Al => false,
        }
    }
}

/// Emits x86-64 machine code into a buffer and resolves its jumps.
pub struct Emitter {
    code: CodeBuffer,
}

impl Emitter {
    /// The code emitted so far.
    pub closed spec fn code(&self) -> Seq<u8> {
        self.code.buffer@
    }

    /// The jump targets known so far.
    pub closed spec fn jumps(&self) -> JumpResolver {
        self.code.jumps
    }

    pub closed spec fn wf(&self) -> bool {
        self.code.wf()
    }

    pub fn new(bytecode_len: usize) -> (r: Self)
        requires
            bytecode_len < usize::MAX,
        ensures
            r.wf(),
            r.code() == Seq::<u8>::empty(),
            r.jumps().user_view().len() == bytecode_len + 1,
            forall|i: int| 0 <= i <= bytecode_len ==> r.jumps().user_view()[i] == LabelState::Unresolved(Seq::<u32>::empty()),
            forall|l: InternalLabel| r.jumps().internal_view(l) == LabelState::Unresolved(Seq::<u32>::empty()),
    {
        Emitter { code: CodeBuffer::new(bytecode_len) }
    }

    pub fn buffer(&self) -> (r: &[u8])
        ensures
            r@ == self.code(),
    {
        self.code.buffer()
    }

    pub fn offset(&self) -> (r: X86Ip)
        requires
            self.code().len() <= u32::MAX,
        ensures
            r == self.code().len(),
    {
        self.code.offset()
    }

    pub fn mark_bytecode_ip(&mut self, bc_ip: Ip)
        requires
            old(self).wf(),
            (bc_ip.0 as int) < old(self).jumps().user_view().len(),
            old(self).jumps().user_view()[bc_ip.0 as int] is Unresolved,
        ensures
            final(self).wf(),
            final(self).code() == patch_all(old(self).code(), old(self).jumps().user_view()[bc_ip.0 as int]->Unresolved_0,
                old(self).code().len() as int),
            final(self).jumps().user_view() == old(self).jumps().user_view().update(bc_ip.0 as int,
                LabelState::Resolved(old(self).code().len() as u32)),
            forall|l: InternalLabel| final(self).jumps().internal_view(l) == old(self).jumps().internal_view(l),
    {
        backend::mark_bytecode_ip(&mut self.code, bc_ip);
    }

    pub fn mark_internal_label(&mut self, label: InternalLabel)
        requires
            old(self).wf(),
            old(self).jumps().internal_view(label) is Unresolved,
        ensures
            final(self).wf(),
            final(self).code() == patch_all(old(self).code(), old(self).jumps().internal_view(label)->Unresolved_0,
                old(self).code().len() as int),
            final(self).jumps().internal_view(label) == LabelState::Resolved(old(self).code().len() as u32),
            forall|l: InternalLabel| l != label ==> final(self).jumps().internal_view(l) == old(self).jumps().internal_view(l),
            final(self).jumps().user_view() == old(self).jumps().user_view(),
    {
        backend::mark_internal_label(&mut self.code, label);
    }

    pub fn mov_reg_imm32(&mut self, reg: Register, imm: u32)
        ensures
            final(self).code() == old(self).code() + backend::mov_reg_imm32_bytes(reg.as_backend(), imm),
            final(self).jumps() == old(self).jumps(),
    {
        backend::mov_reg_imm32(&mut self.code, reg.to_backend(), imm);
    }

    pub fn ret(&mut self)
        ensures
            final(self).code() == old(self).code().push(backend::RET),
            final(self).jumps() == old(self).jumps(),
    {
        backend::ret(&mut self.code);
    }

    pub fn push(&mut self, reg: Register)
        ensures
            final(self).code() == old(self).code() + backend::push_bytes(reg.as_backend()),
            final(self).jumps() == old(self).jumps(),
    {
        backend::push(&mut self.code, reg.to_backend());
    }

    pub fn pop(&mut self, reg: Register)
        ensures
            final(self).code() == old(self).code() + backend::pop_bytes(reg.as_backend()),
            final(self).jumps() == old(self).jumps(),
    {
        backend::pop(&mut self.code, reg.to_backend());
    }

    pub fn add_rsp_imm8(&mut self, imm: u8)
        ensures
            final(self).code() == old(self).code() + backend::add_rsp_imm8_bytes(imm),
            final(self).jumps() == old(self).jumps(),
    {
        backend::add_rsp_imm8(&mut self.code, imm);
    }

    pub fn sub_rsp_imm8(&mut self, imm: u8)
        ensures
            final(self).code() == old(self).code() + backend::sub_rsp_imm8_bytes(imm),
            final(self).jumps() == old(self).jumps(),
    {
        backend::sub_rsp_imm8(&mut self.code, imm);
    }

    /// `mov dest, src`; both registers must be 64-bit or both not.
    pub fn mov_reg_reg(&mut self, dest: Register, src: Register)
        requires
            (dest.as_backend().bits() == 64) == (src.as_backend().bits() == 64),
        ensures
            final(self).code() == old(self).code() + backend::rex_prefix(dest.as_backend().bits() == 64,
                src.as_backend().extended(), dest.as_backend().extended())
                + seq![backend::MOV_RM_R, backend::modrm_byte(3, src.as_backend().field(), dest.as_backend().field())],
            final(self).jumps() == old(self).jumps(),
    {
        let is_64bit = dest.is_64_bit();
        backend::emit_rex(&mut self.code, is_64bit, src.needs_rex_prefix(), dest.needs_rex_prefix());
        self.code.push(backend::MOV_RM_R);
        let m = backend::modrm(backend::MOD_R, src.reg_field(), dest.reg_field());
        self.code.push(m);
        assert(self.code.buffer@ =~= old(self).code() + backend::rex_prefix(is_64bit, src.as_backend().extended(),
            dest.as_backend().extended()) + seq![backend::MOV_RM_R, backend::modrm_byte(3, src.as_backend().field(),
            dest.as_backend().field())]);
    }

    /// `mov dest, [base + offset]`; both registers must be 64-bit or both not.
    pub fn mov_reg_mem_u8(&mut self, dest: Register, base: Register, offset: u8)
        requires
            (dest.as_backend().bits() == 64) == (base.as_backend().bits() == 64),
        ensures
            final(self).code() == old(self).code() + backend::rex_prefix(dest.as_backend().bits() == 64,
                dest.as_backend().extended(), base.as_backend().extended())
                + seq![backend::MOV_R_RM, backend::modrm_byte(1, dest.as_backend().field(), base.as_backend().field()), offset],
            final(self).jumps() == old(self).jumps(),
    {
        let is_64bit = dest.is_64_bit();
        backend::emit_rex(&mut self.code, is_64bit, dest.needs_rex_prefix(), base.needs_rex_prefix());
        self.code.push(backend::MOV_R_RM);
        let m = backend::modrm(backend::MOD_M8, dest.reg_field(), base.reg_field());
        self.code.push(m);
        self.code.push(offset);
        assert(self.code.buffer@ =~= old(self).code() + backend::rex_prefix(is_64bit, dest.as_backend().extended(),
            base.as_backend().extended()) + seq![backend::MOV_R_RM, backend::modrm_byte(1, dest.as_backend().field(),
            base.as_backend().field()), offset]);
    }

    pub fn call_reg(&mut self, register: Register)
        ensures
            final(self).code() == old(self).code() + backend::call_reg_bytes(register.as_backend()),
            final(self).jumps() == old(self).jumps(),
    {
        backend::call_reg(&mut self.code, register.to_backend());
    }

    pub fn cmp_reg_al_imm8(&mut self, imm: u8)
        ensures
            final(self).code() == old(self).code() + seq![backend::CMP_AL_IMM8, imm],
            final(self).jumps() == old(self).jumps(),
    {
        backend::cmp_reg_al_imm8(&mut self.code, imm);
    }

    pub fn jne_imm32(&mut self, offset: i32)
        ensures
            final(self).code() == old(self).code() + seq![0x0Fu8, backend::JNE_REL32] + le32(offset as u32),
            final(self).jumps() == old(self).jumps(),
    {
        backend::jne_imm32(&mut self.code, offset);
    }

    /// `test reg1, reg2`; both registers must be 64-bit or both not.
    pub fn test_reg_reg(&mut self, reg1: Register, reg2: Register)
        requires
            (reg1.as_backend().bits() == 64) == (reg2.as_backend().bits() == 64),
        ensures
            final(self).code() == old(self).code() + backend::rex_prefix(reg1.as_backend().bits() == 64,
                reg1.as_backend().extended(), reg2.as_backend().extended())
                + seq![backend::TEST_R_R, backend::modrm_byte(3, reg1.as_backend().field(), reg2.as_backend().field())],
            final(self).jumps() == old(self).jumps(),
    {
        let is_64bit = reg1.is_64_bit();
        backend::emit_rex(&mut self.code, is_64bit, reg1.needs_rex_prefix(), reg2.needs_rex_prefix());
        self.code.push(backend::TEST_R_R);
        let m = backend::modrm(backend::MOD_R, reg1.reg_field(), reg2.reg_field());
        self.code.push(m);
        assert(self.code.buffer@ =~= old(self).code() + backend::rex_prefix(is_64bit, reg1.as_backend().extended(),
            reg2.as_backend().extended()) + seq![backend::TEST_R_R, backend::modrm_byte(3, reg1.as_backend().field(),
            reg2.as_backend().field())]);
    }

    pub fn jne_bytecode_ip(&mut self, target_bc_ip: Ip)
        requires
            old(self).wf(),
            (target_bc_ip.0 as int) < old(self).jumps().user_view().len(),
            old(self).code().len() + 6 <= i32::MAX,
        ensures
            final(self).wf(),
            final(self).code() == old(self).code() + seq![0x0Fu8, backend::JNE_REL32]
                + le32(initial_disp(old(self).jumps().user_view()[target_bc_ip.0 as int], (old(self).code().len() + 2) as int)),
            final(self).jumps().user_view() == old(self).jumps().user_view().update(target_bc_ip.0 as int,
                referenced(old(self).jumps().user_view()[target_bc_ip.0 as int], (old(self).code().len() + 2) as u32)),
            forall|l: InternalLabel| final(self).jumps().internal_view(l) == old(self).jumps().internal_view(l),
    {
        backend::jne_bytecode_ip(&mut self.code, target_bc_ip);
    }

    pub fn jne_internal_label(&mut self, label: InternalLabel)
        requires
            old(self).wf(),
            old(self).code().len() + 6 <= i32::MAX,
        ensures
            final(self).wf(),
            final(self).code() == old(self).code() + seq![0x0Fu8, backend::JNE_REL32]
                + le32(initial_disp(old(self).jumps().internal_view(label), (old(self).code().len() + 2) as int)),
            final(self).jumps().internal_view(label) == referenced(old(self).jumps().internal_view(label), (old(self).code().len() + 2) as u32),
            forall|l: InternalLabel| l != label ==> final(self).jumps().internal_view(l) == old(self).jumps().internal_view(l),
            final(self).jumps().user_view() == old(self).jumps().user_view(),
    {
        backend::jne_internal_label(&mut self.code, label);
    }

    pub fn jmp_internal_label(&mut self, label: InternalLabel)
        requires
            old(self).wf(),
            old(self).code().len() + 6 <= i32::MAX,
        ensures
            final(self).wf(),
            final(self).code() == old(self).code() + seq![backend::JMP_REL32]
                + le32(initial_disp(old(self).jumps().internal_view(label), (old(self).code().len() + 1) as int)),
            final(self).jumps().internal_view(label) == referenced(old(self).jumps().internal_view(label), (old(self).code().len() + 1) as u32),
            forall|l: InternalLabel| l != label ==> final(self).jumps().internal_view(l) == old(self).jumps().internal_view(l),
            final(self).jumps().user_view() == old(self).jumps().user_view(),
    {
        backend::jmp_internal_label(&mut self.code, label);
    }

    pub fn jmp_imm32(&mut self, offset: i32)
        ensures
            final(self).code() == old(self).code() + seq![backend::JMP_REL32] + le32(offset as u32),
            final(self).jumps() == old(self).jumps(),
    {
        backend::jmp_imm32(&mut self.code, offset);
    }

    pub fn jmp_bytecode_ip(&mut self, target_bc_ip: Ip)
        requires
            old(self).wf(),
            (target_bc_ip.0 as int) < old(self).jumps().user_view().len(),
            old(self).code().len() + 6 <= i32::MAX,
        ensures
            final(self).wf(),
            final(self).code() == old(self).code() + seq![backend::JMP_REL32]
                + le32(initial_disp(old(self).jumps().user_view()[target_bc_ip.0 as int], (old(self).code().len() + 1) as int)),
            final(self).jumps().user_view() == old(self).jumps().user_view().update(target_bc_ip.0 as int,
                referenced(old(self).jumps().user_view()[target_bc_ip.0 as int], (old(self).code().len() + 1) as u32)),
            forall|l: InternalLabel| final(self).jumps().internal_view(l) == old(self).jumps().internal_view(l),
    {
        backend::jmp_bytecode_ip(&mut self.code, target_bc_ip);
    }
}


/// The emitter's registers are the x86-64 registers of the same names: each is pushed with the
/// opcode of its hardware number (`push rdx` is 0x52, `push r12` is 0x41 0x54), and `mov edx,
/// imm32` is 0xBA followed by the immediate.
pub proof fn lemma_emitter_register_encodings()
    ensures
        backend::push_bytes(Register::Rax.as_backend()) == seq![0x50u8],
        backend::push_bytes(Register::Rsp.as_backend()) == seq![0x54u8],
        backend::push_bytes(Register::Rbp.as_backend()) == seq![0x55u8],
        backend::push_bytes(Register::Rsi.as_backend()) == seq![0x56u8],
        backend::push_bytes(Register::Rdi.as_backend()) == seq![0x57u8],
        backend::push_bytes(Register::Rdx.as_backend()) == seq![0x52u8],
        backend::push_bytes(Register::R8.as_backend()) == seq![0x41u8, 0x50u8],
        backend::push_bytes(Register::R12.as_backend()) == seq![0x41u8, 0x54u8],
        backend::push_bytes(Register::R13.as_backend()) == seq![0x41u8, 0x55u8],
        backend::push_bytes(Register::R14.as_backend()) == seq![0x41u8, 0x56u8],
        forall|imm: u32| #![trigger backend::le32(imm)] backend::mov_reg_imm32_bytes(Register::Rdx.as_backend(), imm)
            == seq![0xBAu8] + backend::le32(imm) && backend::mov_reg_imm32_bytes(Register::Eax.as_backend(), imm)
            == seq![0xB8u8] + backend::le32(imm),
{
    assert(backend::push_bytes(Register::Rax.as_backend()) =~= seq![0x50u8]);
    assert(backend::push_bytes(Register::Rsp.as_backend()) =~= seq![0x54u8]);
    assert(backend::push_bytes(Register::Rbp.as_backend()) =~= seq![0x55u8]);
    assert(backend::push_bytes(Register::Rsi.as_backend()) =~= seq![0x56u8]);
    assert(backend::push_bytes(Register::Rdi.as_backend()) =~= seq![0x57u8]);
    assert(backend::push_bytes(Register::Rdx.as_backend()) =~= seq![0x52u8]);
    assert(backend::push_bytes(Register::R8.as_backend()) =~= seq![0x41u8, 0x50u8]);
    assert(backend::push_bytes(Register::R12.as_backend()) =~= seq![0x41u8, 0x54u8]);
    assert(backend::push_bytes(Register::R13.as_backend()) =~= seq![0x41u8, 0x55u8]);
    assert(backend::push_bytes(Register::R14.as_backend()) =~= seq![0x41u8, 0x56u8]);
    assert forall|imm: u32| #![trigger backend::le32(imm)] backend::mov_reg_imm32_bytes(Register::Rdx.as_backend(), imm)
        == seq![0xBAu8] + backend::le32(imm) && backend::mov_reg_imm32_bytes(Register::Eax.as_backend(), imm)
        == seq![0xB8u8] + backend::le32(imm) by {
        assert(backend::mov_reg_imm32_bytes(Register::Rdx.as_backend(), imm) =~= seq![0xBAu8] + backend::le32(imm));
        assert(backend::mov_reg_imm32_bytes(Register::Eax.as_backend(), imm) =~= seq![0xB8u8] + backend::le32(imm));
    }
}

} // verus!
