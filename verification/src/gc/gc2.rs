use vstd::prelude::*;

use core::marker::PhantomData;
use vstd::std_specs::cmp::PartialEqSpecImpl;

verus! {

/// The header in front of the data of every allocation: its metadata (usually a vtable), whether
/// the last mark phase reached it, and how many persistent handles refer to it.
pub struct AllocHeader<M> {
    pub metadata: M,
    pub visited: bool,
    pub refcount: u32,
}

/// The identity of an allocation: the offset of its data in the allocator's buffer.
#[derive(Hash)]
pub struct AllocId<M> {
    id: u32,
    _metadata: PhantomData<M>,
}

impl<M> AllocId<M> {
    /// The raw id.
    pub closed spec fn spec_raw(self) -> u32 {
        self.id
    }

    pub fn from_raw(id: u32) -> (r: Self)
        ensures
            r.spec_raw() == id,
    {
        AllocId { id, _metadata: PhantomData }
    }

    pub fn raw(self) -> (r: u32)
        ensures
            r == self.spec_raw(),
    {
        self.id
    }
}

impl<M> Clone for AllocId<M> {
    fn clone(&self) -> (r: Self)
        ensures
            r == *self,
    {
        *self
    }
}

impl<M> Copy for AllocId<M> {
}

impl<M> PartialEq for AllocId<M> {
    fn eq(&self, other: &Self) -> (r: bool) {
        self.id == other.id
    }
}

impl<M> PartialEqSpecImpl for AllocId<M> {
    open spec fn obeys_eq_spec() -> bool {
        true
    }

    open spec fn eq_spec(&self, other: &Self) -> bool {
        self.spec_raw() == other.spec_raw()
    }
}

impl<M> Eq for AllocId<M> {
}

/// Two ids are the same exactly when their raw ids are.
pub proof fn lemma_alloc_id_eq<M>(a: AllocId<M>, b: AllocId<M>)
    ensures
        (a == b) == (a.spec_raw() == b.spec_raw()),
{
}

} // verus!
