use dash_vm::jit::compiler::{can_compile, compile, CheckCondition, CompileError, JitInstr};
use dash_vm::frame::Ip;
use dash_vm::jit::compiler::backend::x86::{self, Register};
use dash_vm::jit::compiler::codebuffer::CodeBuffer;
use dash_vm::jit::jumpresolver::{InternalLabel, JumpResolver};
use dash_vm::jit::x86::{Emitter, Register as EmitterRegister};

#[test]
fn register_properties() {
    assert_eq!(Register::Rax.size_bits(), 64);
    assert_eq!(Register::Eax.size_bits(), 32);
    assert_eq!(Register::Al.size_bits(), 8);
    assert_eq!(Register::R12.reg_field(), 4);
    assert!(Register::R12.needs_rex_prefix());
    assert!(!Register::Rsp.needs_rex_prefix());
    assert_eq!(Register::Rbx.join_register_size(Register::R9), 64);
}

#[test]
fn simple_encodings() {
    let mut buf = CodeBuffer::new(0);
    x86::mov_reg_imm32(&mut buf, Register::Rax, 42);
    assert_eq!(buf.buffer(), &[0xB8, 42, 0, 0, 0]);

    let mut buf = CodeBuffer::new(0);
    x86::push(&mut buf, Register::R12);
    x86::pop(&mut buf, Register::Rbx);
    x86::ret(&mut buf);
    assert_eq!(buf.buffer(), &[0x41, 0x54, 0x5B, 0xC3]);

    let mut buf = CodeBuffer::new(0);
    x86::mov_reg_reg(&mut buf, Register::Rax, Register::Rbx);
    assert_eq!(buf.buffer(), &[0x48, 0x89, 0xD8]);

    let mut buf = CodeBuffer::new(0);
    x86::call_reg(&mut buf, Register::R11);
    assert_eq!(buf.buffer(), &[0x41, 0xFF, 0xD3]);
}

#[test]
fn forward_jump_is_patched_when_the_label_is_marked() {
    let mut buf = CodeBuffer::new(10);
    x86::jmp_bytecode_ip(&mut buf, Ip(5));
    assert_eq!(buf.buffer(), &[0xE9, 0, 0, 0, 0]);
    x86::ret(&mut buf);
    x86::mark_bytecode_ip(&mut buf, Ip(5));
    // The jump lands on offset 6: 6 - (1 + 4) = 1.
    assert_eq!(buf.buffer(), &[0xE9, 1, 0, 0, 0, 0xC3]);
}

#[test]
fn backward_jump_is_resolved_at_once() {
    let mut buf = CodeBuffer::new(10);
    x86::mark_bytecode_ip(&mut buf, Ip(0));
    x86::ret(&mut buf);
    x86::jne_bytecode_ip(&mut buf, Ip(0));
    // The jump lands on offset 0: 0 - (3 + 4) = -7.
    assert_eq!(buf.buffer(), &[0xC3, 0x0F, 0x85, 0xF9, 0xFF, 0xFF, 0xFF]);
}

#[test]
fn internal_labels() {
    let mut buf = CodeBuffer::new(0);
    x86::jmp_internal_label(&mut buf, InternalLabel::Epilogue);
    x86::jne_internal_label(&mut buf, InternalLabel::Epilogue);
    x86::mark_internal_label(&mut buf, InternalLabel::Epilogue);
    assert_eq!(buf.buffer(), &[0xE9, 6, 0, 0, 0, 0x0F, 0x85, 0, 0, 0, 0]);
}

#[test]
fn jump_resolver_collects_patch_sites() {
    let mut jumps = JumpResolver::new(3);
    assert_eq!(jumps.add_user_reference(Ip(2), 10), None);
    assert_eq!(jumps.add_user_reference(Ip(2), 20), None);
    assert_eq!(jumps.resolve_user_label(Ip(2), 30), vec![10, 20]);
    assert_eq!(jumps.add_user_reference(Ip(2), 40), Some(30));
    assert_eq!(jumps.add_internal_reference(InternalLabel::StubStatusHandler, 5), None);
    assert_eq!(jumps.resolve_internal_label(InternalLabel::StubStatusHandler, 9), vec![5]);
    assert_eq!(jumps.add_internal_reference(InternalLabel::StubStatusHandler, 12), Some(9));
}

#[test]
fn emitter_registers() {
    assert!(EmitterRegister::Rax.is_64_bit());
    assert!(!EmitterRegister::Eax.is_64_bit());
    assert_eq!(EmitterRegister::R14.reg_field(), 6);
    assert!(EmitterRegister::R14.needs_rex_prefix());
}

#[test]
fn emitter_emits() {
    let mut e = Emitter::new(4);
    e.mov_reg_imm32(EmitterRegister::Rax, 1);
    e.ret();
    assert_eq!(e.buffer(), &[0xB8, 1, 0, 0, 0, 0xC3]);
    assert_eq!(e.offset(), 6);
}

#[test]
fn compile_a_loop_region() {
    // ip 0: a stub (1 byte, no operands); ip 1: a conditional jump with 3 operand bytes back to 0;
    // ip 5: a jump to the end of the region.
    let instrs = vec![
        (Ip(0), JitInstr::Stub { opcode: 7 }),
        (Ip(1), JitInstr::CondJump { next_ip: 5, offset: -5, check: CheckCondition::Truthy, jump_if_true: true, pop: true }),
        (Ip(5), JitInstr::Jump { next_ip: 8, offset: 0 }),
    ];
    assert!(can_compile(&instrs, 8, Ip(10), Ip(18)));
    let code = compile(&instrs, 8, Ip(10), Ip(18)).unwrap();
    // The code is the prologue, 28 + 27 + 5 bytes of instructions and 33 bytes after them.
    assert_eq!(code.len(), 21 + 28 + 27 + 5 + 33);
    // The prologue starts with `push rbp` and `mov rbp, rsp`.
    assert_eq!(&code[..4], &[0x55, 0x48, 0x89, 0xE5]);
    // The code ends with the stub-status handler's `jmp` back to the epilogue.
    assert_eq!(code[code.len() - 5], 0xE9);
    let back = i32::from_le_bytes([code[code.len() - 4], code[code.len() - 3], code[code.len() - 2], code[code.len() - 1]]);
    assert!(back < 0);
    // A region with a `try` block is not compiled.
    let with_try = vec![(Ip(0), JitInstr::Stub { opcode: 7 }), (Ip(1), JitInstr::Unhandled { opcode: 99 }), (Ip(2), JitInstr::Unhandled { opcode: 98 })];
    assert_eq!(compile(&with_try, 3, Ip(0), Ip(3)), Err(CompileError::UnhandledInstruction(99)));
}

#[test]
fn regions_that_cannot_be_compiled() {
    let stub = |ip: u32| (Ip(ip), JitInstr::Stub { opcode: 7 });
    // The end must lie the region's length after its start.
    assert!(!can_compile(&[stub(0)], 2, Ip(0), Ip(3)));
    // Ips must increase and lie in the region.
    assert!(!can_compile(&[stub(1), stub(0)], 2, Ip(0), Ip(2)));
    assert!(!can_compile(&[stub(0), stub(2)], 2, Ip(0), Ip(2)));
    // Jumps must land in the region or at its end.
    assert!(!can_compile(&[(Ip(0), JitInstr::Jump { next_ip: 1, offset: 5 })], 2, Ip(0), Ip(2)));
    assert!(can_compile(&[(Ip(0), JitInstr::Jump { next_ip: 1, offset: 1 })], 2, Ip(0), Ip(2)));
    assert!(can_compile(&[], 0, Ip(4), Ip(4)));
}
