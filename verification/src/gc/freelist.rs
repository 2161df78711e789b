use vstd::prelude::*;

use smallvec::SmallVec;

use crate::gc::chunk::ChunkId;

verus! {

/// A stretch of a chunk that can be allocated again: where it starts, in which chunk, and the
/// info of the allocation that last occupied it, if it is the whole of such an allocation.
#[derive(Debug, Clone, Copy)]
pub struct FreeListEntry {
    pub chunk: ChunkId,
    pub allocation_start_index: u16,
    pub info_id: Option<u16>,
}

/// A free list entry as plain values: chunk, start, info.
pub open spec fn entry_view(e: FreeListEntry) -> (u32, u16, Option<u16>) {
    (e.chunk.0, e.allocation_start_index, e.info_id)
}

/// The entries of the free list that share one size, held in a `SmallVec` that keeps one entry
/// inline. The `SmallVec` sits in this opaque struct because its type parameter is bound by
/// smallvec's `Array` trait, which Verus does not accept in a declaration of the type itself.
#[verifier::external_body]
pub struct FreeEntries {
    v: SmallVec<[FreeListEntry; 1]>,
}

/// The entries that a list of free list entries holds, in order, as plain values.
pub uninterp spec fn free_entries(v: FreeEntries) -> Seq<(u32, u16, Option<u16>)>;

/// Calls `SmallVec::new`: an empty list.
#[verifier::external_body]
pub fn new_entries() -> (r: FreeEntries)
    ensures
        free_entries(r) == Seq::<(u32, u16, Option<u16>)>::empty(),
{
    FreeEntries { v: SmallVec::new() }
}

/// Calls `SmallVec::push`, which appends the entry at the end. (It panics only when the list would
/// need room for more than `isize::MAX` bytes of entries, which no allocation can hold; that is
/// not required against here.)
#[verifier::external_body]
pub fn push_entry(v: &mut FreeEntries, e: FreeListEntry)
    ensures
        free_entries(*final(v)) == free_entries(*old(v)).push(entry_view(e)),
{
    v.v.push(e)
}

/// Calls `SmallVec::pop`, which removes the last entry and returns it (nothing when empty).
#[verifier::external_body]
pub fn pop_entry(v: &mut FreeEntries) -> (r: Option<FreeListEntry>)
    ensures
        match r {
            None => free_entries(*old(v)).len() == 0 && free_entries(*final(v)) == free_entries(*old(v)),
            Some(e) => free_entries(*old(v)).len() > 0 && entry_view(e) == free_entries(*old(v)).last()
                && free_entries(*final(v)) == free_entries(*old(v)).drop_last(),
        },
{
    v.v.pop()
}

/// Calls `last` on the entries of a `SmallVec` (through its slice), copying the last entry.
#[verifier::external_body]
pub fn last_entry(v: &FreeEntries) -> (r: Option<FreeListEntry>)
    ensures
        match r {
            None => free_entries(*v).len() == 0,
            Some(e) => free_entries(*v).len() > 0 && entry_view(e) == free_entries(*v).last(),
        },
{
    v.v.last().copied()
}

/// Calls `SmallVec::is_empty`.
#[verifier::external_body]
pub fn entries_empty(v: &FreeEntries) -> (r: bool)
    ensures
        r == (free_entries(*v).len() == 0),
{
    v.v.is_empty()
}

} // verus!
