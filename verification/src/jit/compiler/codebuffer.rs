use vstd::prelude::*;

use crate::jit::jumpresolver::{InternalLabel, JumpResolver, LabelState, X86Ip};

verus! {

/// The pending jumps of a label all have their 4-byte displacement inside the first `len` bytes,
/// in increasing order and without overlapping.
pub open spec fn refs_ok(refs: Seq<u32>, len: int) -> bool {
    &&& forall|i: int| 0 <= i < refs.len() ==> refs[i] + 4 <= len
    &&& forall|i: int, j: int| 0 <= i < j < refs.len() ==> refs[i] + 4 <= refs[j]
}

/// A resolved label lies within the first `len` bytes; an unresolved one has well placed jumps.
pub open spec fn label_ok(s: LabelState, len: int) -> bool {
    match s {
        LabelState::Resolved(x) => x <= len,
        LabelState::Unresolved(refs) => refs_ok(refs, len),
    }
}

/// The machine code emitted so far, with the jumps that still wait for their targets.
pub struct CodeBuffer {
    pub buffer: Vec<u8>,
    pub jumps: JumpResolver,
}

impl CodeBuffer {
    /// Every displacement fits in 32 signed bits and every label is consistent with the code.
    pub open spec fn wf(&self) -> bool {
        &&& self.buffer@.len() <= i32::MAX
        &&& forall|i: int| 0 <= i < self.jumps.user_view().len() ==> label_ok(#[trigger] self.jumps.user_view()[i], self.buffer@.len() as int)
        &&& forall|l: InternalLabel| label_ok(#[trigger] self.jumps.internal_view(l), self.buffer@.len() as int)
    }

    /// An empty buffer for compiling bytecode of `bytecode_len` instructions.
    pub fn new(bytecode_len: usize) -> (r: Self)
        requires
            bytecode_len < usize::MAX,
        ensures
            r.buffer@ == Seq::<u8>::empty(),
            r.wf(),
            r.jumps.user_view().len() == bytecode_len + 1,
            forall|i: int| 0 <= i <= bytecode_len ==> r.jumps.user_view()[i] == crate::jit::jumpresolver::LabelState::Unresolved(Seq::<u32>::empty()),
            forall|l: crate::jit::jumpresolver::InternalLabel| r.jumps.internal_view(l) == crate::jit::jumpresolver::LabelState::Unresolved(Seq::<u32>::empty()),
    {
        CodeBuffer { buffer: Vec::new(), jumps: JumpResolver::new(bytecode_len) }
    }

    pub fn buffer(&self) -> (r: &[u8])
        ensures
            r@ == self.buffer@,
    {
        self.buffer.as_slice()
    }

    /// The offset at which the next byte is emitted.
    pub fn offset(&self) -> (r: X86Ip)
        requires
            self.buffer@.len() <= u32::MAX,
        ensures
            r == self.buffer@.len(),
    {
        self.buffer.len() as u32
    }

    pub fn push(&mut self, byte: u8)
        ensures
            final(self).buffer@ == old(self).buffer@.push(byte),
            final(self).jumps == old(self).jumps,
    {
        self.buffer.push(byte);
    }

    pub fn extend_from_slice(&mut self, bytes: &[u8])
        ensures
            final(self).buffer@ == old(self).buffer@ + bytes@,
            final(self).jumps == old(self).jumps,
    {
        let mut i: usize = 0;
        while i < bytes.len()
            invariant
                i <= bytes@.len(),
                self.buffer@ == old(self).buffer@ + bytes@.subrange(0, i as int),
                self.jumps == old(self).jumps,
            decreases bytes@.len() - i,
        {
            self.buffer.push(bytes[i]);
            i = i + 1;
            assert(bytes@.subrange(0, i as int) == bytes@.subrange(0, i - 1).push(bytes@[i - 1]));
        }
        assert(bytes@.subrange(0, bytes@.len() as int) == bytes@);
    }
}

} // verus!
