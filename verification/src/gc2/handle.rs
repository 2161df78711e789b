use vstd::prelude::*;

verus! {

/// Whether the node has been visited in the last mark phase or not.
pub const MARKED_VISITED: u8 = 1;

/// Whether the node has been detached from the VM.
pub const VM_DETACHED: u8 = 2;

/// All flags that a handle can carry.
pub const ALL_FLAGS: u8 = 3;

/// The flags of a garbage collected node.
#[derive(Debug, Default)]
pub struct HandleFlags {
    flags: u8,
}

impl HandleFlags {
    /// The raw flag bits.
    pub closed spec fn bits(self) -> u8 {
        self.flags
    }

    /// Only known flags are ever set.
    pub open spec fn wf(self) -> bool {
        self.bits() & !ALL_FLAGS == 0
    }

    pub open spec fn marked(self) -> bool {
        self.bits() & MARKED_VISITED != 0
    }

    pub open spec fn vm_detached(self) -> bool {
        self.bits() & VM_DETACHED != 0
    }

    /// Flags with nothing set.
    pub fn new() -> (r: Self)
        ensures
            r.wf(),
            !r.marked(),
            !r.vm_detached(),
    {
        assert(0u8 & !3u8 == 0 && 0u8 & 1 == 0 && 0u8 & 2 == 0) by (bit_vector);
        HandleFlags { flags: 0 }
    }

    /// Marks the node as visited, leaving the other flag as it was.
    pub fn mark(&mut self)
        requires
            old(self).wf(),
        ensures
            final(self).wf(),
            final(self).marked(),
            final(self).vm_detached() == old(self).vm_detached(),
    {
        let old_flags = self.flags;
        self.flags = self.flags | MARKED_VISITED;
        assert(old_flags & !3u8 == 0 ==> ((old_flags | 1) & !3u8 == 0 && (old_flags | 1) & 1 != 0
            && (((old_flags | 1) & 2 != 0) == (old_flags & 2 != 0)))) by (bit_vector);
    }

    /// Unmarks the node, which makes it available for deallocation in the next cycle; the other
    /// flag stays as it was.
    pub fn unmark(&mut self)
        requires
            old(self).wf(),
        ensures
            final(self).wf(),
            !final(self).marked(),
            final(self).vm_detached() == old(self).vm_detached(),
    {
        let old_flags = self.flags;
        self.flags = self.flags & VM_DETACHED;
        assert(old_flags & !3u8 == 0 ==> ((old_flags & 2) & !3u8 == 0
            && (old_flags & 2) & 1 == 0
            && (((old_flags & 2) & 2 != 0) == (old_flags & 2 != 0)))) by (bit_vector);
    }

    pub fn is_marked(&self) -> (r: bool)
        ensures
            r == self.marked(),
    {
        let f = self.flags;
        assert((f & 1 == 1) == (f & 1 != 0)) by (bit_vector);
        self.flags & MARKED_VISITED == MARKED_VISITED
    }

    /// Marks the node as detached from the VM, leaving the other flag as it was.
    pub fn detach_vm(&mut self)
        requires
            old(self).wf(),
        ensures
            final(self).wf(),
            final(self).vm_detached(),
            final(self).marked() == old(self).marked(),
    {
        let old_flags = self.flags;
        self.flags = self.flags | VM_DETACHED;
        assert(old_flags & !3u8 == 0 ==> ((old_flags | 2) & !3u8 == 0 && (old_flags | 2) & 2 != 0
            && (((old_flags | 2) & 1 != 0) == (old_flags & 1 != 0)))) by (bit_vector);
    }

    pub fn is_vm_detached(&self) -> (r: bool)
        ensures
            r == self.vm_detached(),
    {
        let f = self.flags;
        assert((f & 2 == 2) == (f & 2 != 0)) by (bit_vector);
        self.flags & VM_DETACHED == VM_DETACHED
    }
}

} // verus!
