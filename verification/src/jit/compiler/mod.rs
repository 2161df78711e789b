pub mod backend;
pub mod codebuffer;

use vstd::prelude::*;
use vstd::slice::slice_to_vec;

use crate::frame::Ip;
use crate::jit::compiler::backend::x86::{
    add_rsp_imm8, add_rsp_imm8_bytes, call_reg, call_reg_bytes, cmp_reg_al_imm8, initial_disp, je_bytecode_ip, je_opcode,
    jmp_bytecode_ip, jmp_internal_label, jmp_opcode, jne_bytecode_ip, jne_internal_label, jne_opcode, mark_bytecode_ip,
    mark_internal_label, mov_mem_imm32, mov_mem_imm32_bytes, mov_reg_imm32, mov_reg_imm32_bytes, mov_reg_mem_u8,
    mov_reg_mem_u8_bytes, mov_reg_reg, mov_reg_reg_bytes, patch_all, pop, pop_bytes, push, push_bytes, referenced, ret,
    test_reg_reg, test_reg_reg_bytes, Register, CMP_AL_IMM8, RET, STUB_FN_OFFSET,
};
use crate::jit::compiler::codebuffer::CodeBuffer;
use crate::jit::jumpresolver::{InternalLabel, LabelState};

verus! {

/// Where, relative to the frame pointer, the prologue keeps the pointer to the out data.
pub const OUT_DATA_RBP_OFFSET: i8 = -32;

/// Offset of the `check_last_value` pointer within the JIT vtable (it follows the stub pointer).
pub const CHECK_LAST_VALUE_OFFSET: i8 = 8;

/// Offset of the bytecode ip within the out data (it is the first field).
pub const OUT_DATA_IP_OFFSET: u8 = 0;

/// What a conditional jump tests of the value on top of the stack.
#[derive(Debug, Clone, Copy, PartialEq, Eq)]
pub enum CheckCondition {
    Truthy,
    Nullish,
    Undefined,
}

impl CheckCondition {
    /// The number that the check function receives for the condition.
    pub open spec fn code(self) -> u32 {
        match self {
            CheckCondition::Truthy => 0,
            CheckCondition::Nullish => 1,
            CheckCondition::Undefined => 2,
        }
    }

    pub fn as_u32(self) -> (r: u32)
        ensures
            r == self.code(),
    {
        match self {
            CheckCondition::Truthy => 0,
            CheckCondition::Nullish => 1,
            CheckCondition::Undefined => 2,
        }
    }
}

/// A decoded bytecode instruction, as far as the compiler tells instructions apart. Jump offsets
/// count from the ip after the instruction's operands (`next_ip`).
#[derive(Debug, Clone, Copy, PartialEq, Eq)]
pub enum JitInstr {
    /// A conditional jump: the check function tests the last value (and pops it where `pop`),
    /// and the jump is taken where the outcome is `jump_if_true`.
    CondJump { next_ip: u32, offset: i16, check: CheckCondition, jump_if_true: bool, pop: bool },
    /// An unconditional jump (a plain jump or a loop's back jump).
    Jump { next_ip: u32, offset: i16 },
    /// An instruction that the compiled code leaves to its interpreter handler, by opcode.
    Stub { opcode: u8 },
    /// An instruction the compiler does not handle (a `try` block), by opcode.
    Unhandled { opcode: u8 },
}

#[derive(Debug, Clone, Copy, PartialEq, Eq)]
pub enum CompileError {
    UnhandledInstruction(u8),
}

/// The bytecode ip that a relative jump lands on.
pub open spec fn jump_target(next_ip: u32, offset: i16) -> int {
    next_ip + offset
}

/// The code emitted so far, with the state of every label.
pub struct EmitState {
    pub code: Seq<u8>,
    pub user: Seq<LabelState>,
    pub stub_handler: LabelState,
    pub epilogue: LabelState,
}

pub open spec fn internal_of(s: EmitState, l: InternalLabel) -> LabelState {
    match l {
        InternalLabel::StubStatusHandler => s.stub_handler,
        InternalLabel::Epilogue => s.epilogue,
    }
}

pub open spec fn with_internal(s: EmitState, l: InternalLabel, v: LabelState) -> EmitState {
    match l {
        InternalLabel::StubStatusHandler => EmitState { stub_handler: v, ..s },
        InternalLabel::Epilogue => EmitState { epilogue: v, ..s },
    }
}

/// Plain bytes appended.
pub open spec fn emit_bytes(s: EmitState, b: Seq<u8>) -> EmitState {
    EmitState { code: s.code + b, ..s }
}

/// A jump with opcode `op` to bytecode label `t`.
pub open spec fn emit_jump_bc(s: EmitState, op: Seq<u8>, t: int) -> EmitState {
    let site = (s.code.len() + op.len()) as int;
    EmitState {
        code: s.code + op + crate::jit::compiler::backend::x86::le32(initial_disp(s.user[t], site)),
        user: s.user.update(t, referenced(s.user[t], site as u32)),
        ..s
    }
}

/// A jump with opcode `op` to internal label `l`.
pub open spec fn emit_jump_internal(s: EmitState, op: Seq<u8>, l: InternalLabel) -> EmitState {
    let site = (s.code.len() + op.len()) as int;
    let s1 = EmitState { code: s.code + op + crate::jit::compiler::backend::x86::le32(initial_disp(internal_of(s, l), site)), ..s };
    with_internal(s1, l, referenced(internal_of(s, l), site as u32))
}

/// Bytecode label `t` marked here: the jumps waiting for it are patched.
pub open spec fn emit_mark_bc(s: EmitState, t: int) -> EmitState {
    EmitState {
        code: patch_all(s.code, s.user[t]->Unresolved_0, s.code.len() as int),
        user: s.user.update(t, LabelState::Resolved(s.code.len() as u32)),
        ..s
    }
}

/// Internal label `l` marked here: the jumps waiting for it are patched.
pub open spec fn emit_mark_internal(s: EmitState, l: InternalLabel) -> EmitState {
    let s1 = EmitState { code: patch_all(s.code, internal_of(s, l)->Unresolved_0, s.code.len() as int), ..s };
    with_internal(s1, l, LabelState::Resolved(s.code.len() as u32))
}

/// The code that calls the handler stub for an instruction with the ip of its operands, and leaves
/// for the stub-status handler where the handler threw.
pub open spec fn stub_call_bytes(opcode: u32, ip: u32) -> Seq<u8> {
    mov_reg_reg_bytes(Register::Rdi, Register::R12) + mov_reg_mem_u8_bytes(Register::Rsi, Register::Rbp, OUT_DATA_RBP_OFFSET)
        + mov_reg_imm32_bytes(Register::Rdx, opcode) + mov_reg_imm32_bytes(Register::Rcx, ip) + call_reg_bytes(Register::R13)
        + test_reg_reg_bytes(Register::Eax, Register::Eax)
}

/// The code that asks the check function about the last value.
pub open spec fn check_call_bytes(check: u32, pop: bool) -> Seq<u8> {
    mov_reg_mem_u8_bytes(Register::Rax, Register::R14, CHECK_LAST_VALUE_OFFSET) + mov_reg_reg_bytes(Register::Rdi, Register::R12)
        + mov_reg_imm32_bytes(Register::Rsi, if pop { 1 } else { 0 }) + mov_reg_imm32_bytes(Register::Rdx, check)
        + call_reg_bytes(Register::Rax) + seq![CMP_AL_IMM8, 1u8]
}

/// The code of one handled instruction at bytecode ip `ip` of a region that starts at `start`.
pub open spec fn emit_instr(s: EmitState, ip: u32, instr: JitInstr, start: u32) -> EmitState {
    let s1 = emit_mark_bc(s, ip as int);
    match instr {
        JitInstr::CondJump { next_ip, offset, check, jump_if_true, pop } => emit_jump_bc(
            emit_bytes(s1, check_call_bytes(check.code(), pop)),
            if jump_if_true { je_opcode() } else { jne_opcode() },
            jump_target(next_ip, offset),
        ),
        JitInstr::Jump { next_ip, offset } => emit_jump_bc(s1, jmp_opcode(), jump_target(next_ip, offset)),
        JitInstr::Stub { opcode } => emit_jump_internal(
            emit_bytes(s1, stub_call_bytes(opcode as u32, (start + ip + 1) as u32)),
            jne_opcode(),
            InternalLabel::StubStatusHandler,
        ),
        JitInstr::Unhandled { .. } => s1,
    }
}

/// The code of a run of handled instructions.
pub open spec fn emit_all(s: EmitState, instrs: Seq<(Ip, JitInstr)>, start: u32) -> EmitState
    decreases instrs.len(),
{
    if instrs.len() == 0 {
        s
    } else {
        emit_instr(emit_all(s, instrs.drop_last(), start), instrs.last().0.0, instrs.last().1, start)
    }
}

/// The prologue: it saves the frame pointer and three callee-saved registers, keeps the VM, the
/// vtable and the out data, and loads the stub function.
pub open spec fn compile_prologue_bytes() -> Seq<u8> {
    push_bytes(Register::Rbp) + mov_reg_reg_bytes(Register::Rbp, Register::Rsp) + push_bytes(Register::R12)
        + mov_reg_reg_bytes(Register::R12, Register::Rdi) + push_bytes(Register::R13) + push_bytes(Register::R14)
        + mov_reg_reg_bytes(Register::R14, Register::Rsi) + push_bytes(Register::Rdx)
        + mov_reg_mem_u8_bytes(Register::R13, Register::Rsi, STUB_FN_OFFSET)
}

/// The exit branch: the bytecode ip to continue at goes to the out data, and zero is returned.
pub open spec fn exit_bytes(end: u32) -> Seq<u8> {
    mov_reg_mem_u8_bytes(Register::Rax, Register::Rbp, OUT_DATA_RBP_OFFSET)
        + mov_mem_imm32_bytes(Register::Rax, OUT_DATA_IP_OFFSET, end as i32) + mov_reg_imm32_bytes(Register::Eax, 0)
}

/// The epilogue: it drops the out data and restores the saved registers.
pub open spec fn epilogue_code_bytes() -> Seq<u8> {
    add_rsp_imm8_bytes(8) + pop_bytes(Register::R14) + pop_bytes(Register::R13) + pop_bytes(Register::R12)
        + pop_bytes(Register::Rbp) + seq![RET]
}

/// The state of a fresh code buffer for bytecode of `n` instructions.
pub open spec fn initial_state(n: nat) -> EmitState {
    EmitState {
        code: Seq::empty(),
        user: Seq::new(n + 1, |i: int| LabelState::Unresolved(Seq::empty())),
        stub_handler: LabelState::Unresolved(Seq::empty()),
        epilogue: LabelState::Unresolved(Seq::empty()),
    }
}

/// The machine code that compiling the instructions of a region gives, when none is unhandled.
pub open spec fn compiled_code(instrs: Seq<(Ip, JitInstr)>, bytecode_len: nat, start: u32, end: u32) -> Seq<u8> {
    let s1 = emit_all(emit_bytes(initial_state(bytecode_len), compile_prologue_bytes()), instrs, start);
    let s2 = emit_bytes(emit_mark_bc(s1, bytecode_len as int), exit_bytes(end));
    let s3 = emit_bytes(emit_mark_internal(s2, InternalLabel::Epilogue), epilogue_code_bytes());
    emit_jump_internal(emit_mark_internal(s3, InternalLabel::StubStatusHandler), jmp_opcode(), InternalLabel::Epilogue).code
}

/// The number of bytes of code that a handled instruction compiles to.
pub open spec fn instr_len(instr: JitInstr) -> nat {
    match instr {
        JitInstr::CondJump { check, pop, .. } => check_call_bytes(check.code(), pop).len() + 6,
        JitInstr::Jump { .. } => 5,
        JitInstr::Stub { opcode } => stub_call_bytes(opcode as u32, 0).len() + 6,
        JitInstr::Unhandled { .. } => 0,
    }
}

/// The number of bytes of code that a run of instructions compiles to.
pub open spec fn body_len(instrs: Seq<(Ip, JitInstr)>) -> nat
    decreases instrs.len(),
{
    if instrs.len() == 0 {
        0
    } else {
        body_len(instrs.drop_last()) + instr_len(instrs.last().1)
    }
}

/// The number of bytes of code after the last instruction: the exit branch, the epilogue and the
/// stub-status handler.
pub open spec fn tail_len(end: u32) -> nat {
    exit_bytes(end).len() + epilogue_code_bytes().len() + 5
}

/// The number of bytes of code that compiling the instructions of a region gives.
pub open spec fn code_size(instrs: Seq<(Ip, JitInstr)>, end: u32) -> nat {
    compile_prologue_bytes().len() + body_len(instrs) + tail_len(end)
}

proof fn lemma_body_len_prefix(instrs: Seq<(Ip, JitInstr)>, k: int, m: int)
    requires
        0 <= k <= m <= instrs.len(),
    ensures
        body_len(instrs.take(k)) <= body_len(instrs.take(m)),
    decreases m - k,
{
    if k < m {
        lemma_body_len_prefix(instrs, k, m - 1);
        assert(instrs.take(m).drop_last() =~= instrs.take(m - 1));
    }
}

/// Emits the call of the check function on the last value and the test of its answer.
fn emit_check_call(buf: &mut CodeBuffer, check: CheckCondition, pop: bool)
    requires
        old(buf).wf(),
        old(buf).buffer@.len() + check_call_bytes(check.code(), pop).len() <= i32::MAX,
    ensures
        final(buf).wf(),
        final(buf).buffer@ == old(buf).buffer@ + check_call_bytes(check.code(), pop),
        final(buf).jumps == old(buf).jumps,
{
    mov_reg_mem_u8(buf, Register::Rax, Register::R14, CHECK_LAST_VALUE_OFFSET);
    mov_reg_reg(buf, Register::Rdi, Register::R12);
    mov_reg_imm32(buf, Register::Rsi, if pop { 1 } else { 0 });
    mov_reg_imm32(buf, Register::Rdx, check.as_u32());
    call_reg(buf, Register::Rax);
    cmp_reg_al_imm8(buf, 1);
    assert(buf.buffer@ =~= old(buf).buffer@ + check_call_bytes(check.code(), pop));
}

/// Emits the code of one handled instruction at bytecode ip `ip`.
fn emit_one(buf: &mut CodeBuffer, ip: Ip, instr: JitInstr, start: u32, Ghost(before): Ghost<EmitState>)
    requires
        in_state(*old(buf), before),
        (ip.0 as int) < before.user.len() - 1,
        before.user.len() <= u32::MAX,
        labels_open(before, ip.0 as int),
        old(buf).buffer@.len() + instr_len(instr) + 1 <= i32::MAX,
        start + ip.0 + 1 <= u32::MAX,
        !(instr is Unhandled),
        match instr {
            JitInstr::CondJump { next_ip, offset, .. } => 0 <= jump_target(next_ip, offset) < before.user.len(),
            JitInstr::Jump { next_ip, offset } => 0 <= jump_target(next_ip, offset) < before.user.len(),
            _ => true,
        },
    ensures
        in_state(*final(buf), emit_instr(before, ip.0, instr, start)),
        final(buf).buffer@.len() == old(buf).buffer@.len() + instr_len(instr),
        labels_open(emit_instr(before, ip.0, instr, start), ip.0 + 1),
{
    mark_bytecode_ip(buf, ip);
    let ghost marked = emit_mark_bc(before, ip.0 as int);
    proof {
        crate::jit::compiler::backend::x86::lemma_patch_all_len(before.code, before.user[ip.0 as int]->Unresolved_0, before.code.len() as int);
        assert(buf.jumps.user_view() =~= marked.user);
    }
    match instr {
        JitInstr::CondJump { next_ip, offset, check, jump_if_true, pop } => {
            let t64 = next_ip as i64 + offset as i64;
            assert(t64 == jump_target(next_ip, offset));
            let target = t64 as u32;
            assert(target as int == jump_target(next_ip, offset));
            emit_check_call(buf, check, pop);
            if jump_if_true {
                je_bytecode_ip(buf, Ip(target));
            } else {
                jne_bytecode_ip(buf, Ip(target));
            }
            proof {
                let after = emit_instr(before, ip.0, instr, start);
                assert(buf.jumps.user_view() =~= after.user);
                assert(buf.buffer@ =~= after.code);
            }
        },
        JitInstr::Jump { next_ip, offset } => {
            let t64 = next_ip as i64 + offset as i64;
            assert(t64 == jump_target(next_ip, offset));
            let target = t64 as u32;
            assert(target as int == jump_target(next_ip, offset));
            jmp_bytecode_ip(buf, Ip(target));
            proof {
                let after = emit_instr(before, ip.0, instr, start);
                assert(buf.jumps.user_view() =~= after.user);
                assert(buf.buffer@ =~= after.code);
            }
        },
        JitInstr::Stub { opcode } => {
            let operands_ip = start + ip.0 + 1;
            emit_stub_call(buf, opcode as u32, operands_ip);
            jne_internal_label(buf, InternalLabel::StubStatusHandler);
            proof {
                let after = emit_instr(before, ip.0, instr, start);
                assert(buf.buffer@ =~= after.code);
            }
        },
        JitInstr::Unhandled { .. } => {},
    }
    proof {
        let after = emit_instr(before, ip.0, instr, start);
        assert forall|j: int| ip.0 + 1 <= j < after.user.len() implies (#[trigger] after.user[j]) is Unresolved by {
            assert(before.user[j] is Unresolved);
        }
    }
}

/// Emits the call of the handler stub for an instruction.
fn emit_stub_call(buf: &mut CodeBuffer, opcode: u32, operands_ip: u32)
    requires
        old(buf).wf(),
        old(buf).buffer@.len() + stub_call_bytes(opcode, operands_ip).len() <= i32::MAX,
    ensures
        final(buf).wf(),
        final(buf).buffer@ == old(buf).buffer@ + stub_call_bytes(opcode, operands_ip),
        final(buf).jumps == old(buf).jumps,
        stub_call_bytes(opcode, operands_ip).len() == stub_call_bytes(opcode, 0).len(),
{
    mov_reg_reg(buf, Register::Rdi, Register::R12);
    mov_reg_mem_u8(buf, Register::Rsi, Register::Rbp, OUT_DATA_RBP_OFFSET);
    mov_reg_imm32(buf, Register::Rdx, opcode);
    mov_reg_imm32(buf, Register::Rcx, operands_ip);
    call_reg(buf, Register::R13);
    test_reg_reg(buf, Register::Eax, Register::Eax);
    assert(buf.buffer@ =~= old(buf).buffer@ + stub_call_bytes(opcode, operands_ip));
}

/// Emits the exit branch, the epilogue and the stub-status handler after the last instruction.
fn emit_exit(buf: &mut CodeBuffer, bytecode_len: usize, end: u32, Ghost(s2): Ghost<EmitState>)
    requires
        in_state(*old(buf), s2),
        bytecode_len + 1 == s2.user.len(),
        labels_open(s2, bytecode_len as int),
        old(buf).buffer@.len() + tail_len(end) + 1 <= i32::MAX,
        bytecode_len < u32::MAX,
    ensures
        final(buf).buffer@ == ({
            let s3 = emit_bytes(emit_mark_bc(s2, bytecode_len as int), exit_bytes(end));
            let s4 = emit_bytes(emit_mark_internal(s3, InternalLabel::Epilogue), epilogue_code_bytes());
            emit_jump_internal(emit_mark_internal(s4, InternalLabel::StubStatusHandler), jmp_opcode(), InternalLabel::Epilogue).code
        }),
{
    mark_bytecode_ip(buf, Ip(bytecode_len as u32));
    proof {
        crate::jit::compiler::backend::x86::lemma_patch_all_len(s2.code, s2.user[bytecode_len as int]->Unresolved_0, s2.code.len() as int);
    }
    let ghost s3 = emit_mark_bc(s2, bytecode_len as int);
    mov_reg_mem_u8(buf, Register::Rax, Register::Rbp, OUT_DATA_RBP_OFFSET);
    mov_mem_imm32(buf, Register::Rax, OUT_DATA_IP_OFFSET, end as i32);
    mov_reg_imm32(buf, Register::Eax, 0);
    proof {
        assert(buf.buffer@ =~= s3.code + exit_bytes(end));
    }
    let ghost s4 = emit_bytes(s3, exit_bytes(end));
    mark_internal_label(buf, InternalLabel::Epilogue);
    proof {
        crate::jit::compiler::backend::x86::lemma_patch_all_len(s4.code, s4.epilogue->Unresolved_0, s4.code.len() as int);
    }
    let ghost s5 = emit_mark_internal(s4, InternalLabel::Epilogue);
    add_rsp_imm8(buf, 8);
    pop(buf, Register::R14);
    pop(buf, Register::R13);
    pop(buf, Register::R12);
    pop(buf, Register::Rbp);
    ret(buf);
    proof {
        assert(buf.buffer@ =~= s5.code + epilogue_code_bytes());
    }
    let ghost s6 = emit_bytes(s5, epilogue_code_bytes());
    mark_internal_label(buf, InternalLabel::StubStatusHandler);
    proof {
        crate::jit::compiler::backend::x86::lemma_patch_all_len(s6.code, s6.stub_handler->Unresolved_0, s6.code.len() as int);
    }
    jmp_internal_label(buf, InternalLabel::Epilogue);
}

/// The first instruction that the compiler does not handle, by its position.
pub open spec fn first_unhandled(instrs: Seq<(Ip, JitInstr)>, k: int) -> bool {
    &&& 0 <= k < instrs.len()
    &&& instrs[k].1 is Unhandled
    &&& forall|j: int| 0 <= j < k ==> !(instrs[j].1 is Unhandled)
}

/// The instructions of a region fit its bytecode: their ips increase and lie in the region, every
/// jump lands in it or at its end, and the ips handed to the stubs fit in 32 bits.
pub open spec fn well_placed(instrs: Seq<(Ip, JitInstr)>, bytecode_len: nat, start: u32) -> bool {
    &&& forall|k: int, l: int| 0 <= k < l < instrs.len() ==> (#[trigger] instrs[k]).0.0 < (#[trigger] instrs[l]).0.0
    &&& forall|k: int| 0 <= k < instrs.len() ==> (#[trigger] instrs[k]).0.0 < bytecode_len
    &&& forall|k: int| 0 <= k < instrs.len() ==> start + (#[trigger] instrs[k]).0.0 + 1 <= u32::MAX
    &&& forall|k: int| 0 <= k < instrs.len() ==> match (#[trigger] instrs[k]).1 {
        JitInstr::CondJump { next_ip, offset, .. } => 0 <= jump_target(next_ip, offset) <= bytecode_len,
        JitInstr::Jump { next_ip, offset } => 0 <= jump_target(next_ip, offset) <= bytecode_len,
        _ => true,
    }
}

/// The buffer is in the given state.
pub open spec fn in_state(buf: CodeBuffer, s: EmitState) -> bool {
    &&& buf.wf()
    &&& buf.buffer@ == s.code
    &&& buf.jumps.user_view() == s.user
    &&& buf.jumps.internal_view(InternalLabel::StubStatusHandler) == s.stub_handler
    &&& buf.jumps.internal_view(InternalLabel::Epilogue) == s.epilogue
}

/// Every label from `from` on is still unmarked, and so is the epilogue; the stub-status handler
/// too.
pub open spec fn labels_open(s: EmitState, from: int) -> bool {
    &&& forall|j: int| from <= j < s.user.len() ==> (#[trigger] s.user[j]) is Unresolved
    &&& s.stub_handler is Unresolved
    &&& s.epilogue is Unresolved
}

fn instr_size(instr: JitInstr) -> (r: u64)
    ensures
        r == instr_len(instr),
        r <= 28,
{
    match instr {
        JitInstr::CondJump { check, pop, .. } => {
            assert(check_call_bytes(check.code(), pop).len() == 21);
            27
        },
        JitInstr::Jump { .. } => 5,
        JitInstr::Stub { opcode } => {
            assert(stub_call_bytes(opcode as u32, 0).len() == 22);
            28
        },
        JitInstr::Unhandled { .. } => 0,
    }
}

/// Whether the instructions of a region can be handed to `compile`: the region's bytes fit in
/// 32-bit ips, `end` lies `bytecode_len` after `start`, the instructions are well placed in it,
/// and the code they compile to fits in the reach of a 32-bit displacement.
pub fn can_compile(instrs: &[(Ip, JitInstr)], bytecode_len: usize, start: Ip, end: Ip) -> (r: bool)
    ensures
        r == (bytecode_len < u32::MAX && start.0 + bytecode_len == end.0 && well_placed(
            instrs@,
            bytecode_len as nat,
            start.0,
        ) && code_size(instrs@, end.0) < i32::MAX),
{
    if bytecode_len >= 0xFFFF_FFFF || start.0 as u64 + bytecode_len as u64 != end.0 as u64 {
        return false;
    }
    assert(compile_prologue_bytes().len() == 21);
    assert(tail_len(end.0) == 33);
    let mut size: u64 = 21 + 33;
    let mut k: usize = 0;
    while k < instrs.len()
        invariant
            k <= instrs@.len(),
            bytecode_len < u32::MAX,
            size == code_size(instrs@.take(k as int), end.0),
            size < i32::MAX,
            well_placed(instrs@.take(k as int), bytecode_len as nat, start.0),
        decreases instrs@.len() - k,
    {
        let (ip, instr) = instrs[k];
        let ghost pre = instrs@.take(k as int);
        let ghost next = instrs@.take(k + 1);
        assert(next.drop_last() =~= pre);
        assert(next.last() == instrs@[k as int]);
        if ip.0 as u64 >= bytecode_len as u64 || start.0 as u64 + ip.0 as u64 + 1 > 0xFFFF_FFFF {
            assert(!well_placed(next, bytecode_len as nat, start.0) && next.len() == k + 1 && next[k as int] == instrs@[k as int]);
            proof {
                lemma_not_well_placed_extends(instrs@, k as int + 1, bytecode_len as nat, start.0);
            }
            return false;
        }
        if k > 0 && instrs[k - 1].0.0 >= ip.0 {
            assert(!well_placed(next, bytecode_len as nat, start.0) && next[k - 1] == instrs@[k - 1]
                && next[k as int] == instrs@[k as int]);
            proof {
                lemma_not_well_placed_extends(instrs@, k as int + 1, bytecode_len as nat, start.0);
            }
            return false;
        }
        let jump_ok = match instr {
            JitInstr::CondJump { next_ip, offset, .. } => {
                let t: i64 = next_ip as i64 + offset as i64;
                0 <= t && t <= bytecode_len as i64
            },
            JitInstr::Jump { next_ip, offset } => {
                let t: i64 = next_ip as i64 + offset as i64;
                0 <= t && t <= bytecode_len as i64
            },
            _ => true,
        };
        if !jump_ok {
            assert(!well_placed(next, bytecode_len as nat, start.0) && next[k as int] == instrs@[k as int]);
            proof {
                lemma_not_well_placed_extends(instrs@, k as int + 1, bytecode_len as nat, start.0);
            }
            return false;
        }
        let n = instr_size(instr);
        if size + n >= 0x7FFF_FFFF {
            assert(code_size(next, end.0) == size + n);
            proof {
                lemma_body_len_prefix(instrs@, k + 1, instrs@.len() as int);
                assert(instrs@.take(instrs@.len() as int) =~= instrs@);
            }
            return false;
        }
        size = size + n;
        k = k + 1;
        proof {
            let w = instrs@.take(k as int);
            assert forall|a: int, b: int| 0 <= a < b < w.len() implies (#[trigger] w[a]).0.0 < (#[trigger] w[b]).0.0 by {
                if b < k - 1 {
                    assert(pre[a] == w[a] && pre[b] == w[b]);
                } else if a < k - 2 {
                    assert(pre[a] == w[a] && pre[k - 2] == w[k - 2]);
                }
            }
            assert forall|a: int| 0 <= a < w.len() implies (#[trigger] w[a]).0.0 < bytecode_len && start.0 + w[a].0.0 + 1
                <= u32::MAX && match w[a].1 {
                JitInstr::CondJump { next_ip, offset, .. } => 0 <= jump_target(next_ip, offset) <= bytecode_len,
                JitInstr::Jump { next_ip, offset } => 0 <= jump_target(next_ip, offset) <= bytecode_len,
                _ => true,
            } by {
                if a < k - 1 {
                    assert(pre[a] == w[a]);
                }
            }
        }
    }
    assert(instrs@.take(instrs@.len() as int) =~= instrs@);
    true
}

/// A run of instructions whose start is not well placed is not well placed either.
proof fn lemma_not_well_placed_extends(instrs: Seq<(Ip, JitInstr)>, k: int, bytecode_len: nat, start: u32)
    requires
        0 <= k <= instrs.len(),
        !well_placed(instrs.take(k), bytecode_len, start),
    ensures
        !well_placed(instrs, bytecode_len, start),
{
    if well_placed(instrs, bytecode_len, start) {
        let w = instrs.take(k);
        assert forall|a: int, b: int| 0 <= a < b < w.len() implies (#[trigger] w[a]).0.0 < (#[trigger] w[b]).0.0 by {
            assert(instrs[a] == w[a] && instrs[b] == w[b]);
        }
        assert forall|a: int| 0 <= a < w.len() implies (#[trigger] w[a]).0.0 < bytecode_len by {
            assert(instrs[a] == w[a]);
        }
        assert forall|a: int| 0 <= a < w.len() implies start + (#[trigger] w[a]).0.0 + 1 <= u32::MAX by {
            assert(instrs[a] == w[a]);
        }
        assert forall|a: int| 0 <= a < w.len() implies match (#[trigger] w[a]).1 {
            JitInstr::CondJump { next_ip, offset, .. } => 0 <= jump_target(next_ip, offset) <= bytecode_len,
            JitInstr::Jump { next_ip, offset } => 0 <= jump_target(next_ip, offset) <= bytecode_len,
            _ => true,
        } by {
            assert(instrs[a] == w[a]);
        }
    }
}

/// Compiles the instructions of a loop region, bytecode ips `start..end` of a function, to machine
/// code: the prologue, the code of each instruction (a call of its handler stub, or a jump that
/// lands on the code of its target), the exit branch that hands back the ip after the region, the
/// epilogue and the stub-status handler. A region holding an instruction that the compiler does
/// not handle is an error, naming the first such instruction.
pub fn compile(instrs: &[(Ip, JitInstr)], bytecode_len: usize, start: Ip, end: Ip) -> (r: Result<Vec<u8>, CompileError>)
    requires
        bytecode_len < u32::MAX,
        start.0 + bytecode_len == end.0,
        well_placed(instrs@, bytecode_len as nat, start.0),
        code_size(instrs@, end.0) < i32::MAX,
    ensures
        match r {
            Ok(code) => (forall|k: int| 0 <= k < instrs@.len() ==> !((#[trigger] instrs@[k]).1 is Unhandled))
                && code@ == compiled_code(instrs@, bytecode_len as nat, start.0, end.0),
            Err(CompileError::UnhandledInstruction(op)) => exists|k: int| #[trigger] first_unhandled(instrs@, k)
                && instrs@[k].1 == (JitInstr::Unhandled { opcode: op }),
        },
{
    let mut buf = CodeBuffer::new(bytecode_len);
    let ghost s0 = initial_state(bytecode_len as nat);
    proof {
        assert(buf.jumps.user_view() =~= s0.user);
    }
    push(&mut buf, Register::Rbp);
    mov_reg_reg(&mut buf, Register::Rbp, Register::Rsp);
    push(&mut buf, Register::R12);
    mov_reg_reg(&mut buf, Register::R12, Register::Rdi);
    push(&mut buf, Register::R13);
    push(&mut buf, Register::R14);
    mov_reg_reg(&mut buf, Register::R14, Register::Rsi);
    push(&mut buf, Register::Rdx);
    mov_reg_mem_u8(&mut buf, Register::R13, Register::Rsi, STUB_FN_OFFSET);
    let ghost s1 = emit_bytes(s0, compile_prologue_bytes());
    proof {
        assert(buf.buffer@ =~= s1.code);
    }
    let mut k: usize = 0;
    while k < instrs.len()
        invariant
            k <= instrs@.len(),
            code_size(instrs@, end.0) < i32::MAX,
            bytecode_len < u32::MAX,
            well_placed(instrs@, bytecode_len as nat, start.0),
            in_state(buf, emit_all(s1, instrs@.take(k as int), start.0)),
            buf.buffer@.len() == compile_prologue_bytes().len() + body_len(instrs@.take(k as int)),
            buf.jumps.user_view().len() == bytecode_len + 1,
            labels_open(emit_all(s1, instrs@.take(k as int), start.0), if k == 0 { 0 } else { instrs@[k - 1].0.0 + 1 }),
            forall|j: int| 0 <= j < k ==> !((#[trigger] instrs@[j]).1 is Unhandled),
        decreases instrs@.len() - k,
    {
        let (ip, instr) = instrs[k];
        let ghost before = emit_all(s1, instrs@.take(k as int), start.0);
        proof {
            assert(instrs@.take(k + 1).drop_last() =~= instrs@.take(k as int));
            assert(instrs@[k as int].0.0 < bytecode_len);
            assert(start.0 + instrs@[k as int].0.0 + 1 <= u32::MAX);
            if k > 0 {
                assert(instrs@[k - 1].0.0 < instrs@[k as int].0.0);
            }
            lemma_body_len_prefix(instrs@, k + 1, instrs@.len() as int);
            assert(instrs@.take(instrs@.len() as int) =~= instrs@);
        }
        match instr {
            JitInstr::Unhandled { opcode } => {
                proof {
                    assert(first_unhandled(instrs@, k as int));
                }
                return Err(CompileError::UnhandledInstruction(opcode));
            },
            _ => {},
        }
        emit_one(&mut buf, ip, instr, start.0, Ghost(before));
        proof {
            let after = emit_all(s1, instrs@.take(k + 1), start.0);
            assert(after == emit_instr(before, ip.0, instr, start.0));
        }
        k = k + 1;
    }
    proof {
        assert(instrs@.take(instrs@.len() as int) =~= instrs@);
    }
    assert(buf.buffer@.len() + tail_len(end.0) + 1 <= i32::MAX);
    emit_exit(&mut buf, bytecode_len, end.0, Ghost(emit_all(s1, instrs@, start.0)));
    let code = slice_to_vec(buf.buffer());
    Ok(code)
}

} // verus!
