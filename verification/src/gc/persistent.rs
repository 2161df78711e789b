//! Reference counts of objects that outlive every local scope.
//!
//! A `Persistent` keeps an allocation alive for as long as it exists: the virtual machine holds,
//! in its `ExternalRefs` table, how many persistent references each allocation has, and the
//! garbage collector treats the allocations with a positive count as roots. Cloning a persistent
//! reference adds one to the count and dropping it takes one away; the collector forgets the
//! entries whose count came down to zero.
use rustc_hash::FxHashMap;
use vstd::prelude::*;

use crate::fxmap::{map_get, map_insert, map_len, map_new, no_entries};
use crate::gc::AllocId;

verus! {

/// An entry of the table whose count has not come down to zero.
pub open spec fn referenced(count: u32) -> bool {
    count != 0
}

/// Whether an entry of the table is kept when the collector prunes it.
pub fn is_referenced(count: u32) -> (r: bool)
    ensures
        r == referenced(count),
{
    count != 0
}

/// The table with only the entries whose count is not zero.
pub open spec fn pruned(m: Map<u64, u32>) -> Map<u64, u32> {
    m.restrict(m.dom().filter(|k: u64| referenced(m[k])))
}

/// Keeps the entries of an `FxHashMap` whose count is not zero (`HashMap::retain` with
/// `is_referenced` as the predicate) and drops the others.
#[verifier::external_body]
fn retain_referenced(m: &mut FxHashMap<u64, u32>)
    ensures
        final(m)@ == pruned(old(m)@),
{
    m.retain(|_, count| is_referenced(*count));
}

/// The key of an allocation in the table.
pub open spec fn key_of<M>(id: AllocId<M>) -> u64 {
    id.spec_raw() as u64
}

/// How many persistent references each allocation has, keyed by its packed id.
pub struct ExternalRefs {
    counts: FxHashMap<u64, u32>,
}

impl View for ExternalRefs {
    type V = Map<u64, u32>;

    closed spec fn view(&self) -> Map<u64, u32> {
        self.counts@
    }
}

impl Default for ExternalRefs {
    /// A table without any entry.
    fn default() -> (r: Self)
        ensures
            r@ == no_entries::<u32>(),
    {
        ExternalRefs { counts: map_new() }
    }
}

impl ExternalRefs {
    /// The number of allocations in the table.
    pub fn len(&self) -> (r: usize)
        ensures
            r == self@.len(),
    {
        map_len(&self.counts)
    }

    /// Whether the table has no entry.
    pub fn is_empty(&self) -> (r: bool)
        ensures
            r == (self@.len() == 0),
    {
        map_len(&self.counts) == 0
    }

    /// Forgets the allocations that no persistent reference holds any more; the others stay, with
    /// their counts.
    pub fn prune(&mut self)
        ensures
            final(self)@ == pruned(old(self)@),
    {
        retain_referenced(&mut self.counts);
    }

    /// The count of a key, which is in the table.
    fn count_of(&self, k: u64) -> (r: u32)
        requires
            self@.contains_key(k),
        ensures
            r == self@[k],
    {
        match map_get(&self.counts, k) {
            Some(c) => *c,
            None => {
                proof {
                    assert(false);
                }
                0
            },
        }
    }

    /// Sets the count of a key.
    fn set_count(&mut self, k: u64, c: u32)
        ensures
            final(self)@ == old(self)@.insert(k, c),
    {
        map_insert(&mut self.counts, k, c);
    }
}

/// The count that a new persistent reference to the key leaves in the table.
pub open spec fn count_after_new(m: Map<u64, u32>, k: u64) -> int {
    if m.contains_key(k) {
        m[k] + 1
    } else {
        1
    }
}

/// A counted reference to an allocation, which keeps it alive across collections.
///
/// The table of counts is handed to each operation: `clone` and `drop` stand for the
/// reference's `Clone` and `Drop`, which change the count of its allocation.
pub struct Persistent<M> {
    id: AllocId<M>,
}

impl<M> Persistent<M> {
    /// The allocation this reference keeps alive.
    pub closed spec fn target(self) -> AllocId<M> {
        self.id
    }

    /// The key of the allocation in the table of counts.
    pub open spec fn key(self) -> u64 {
        key_of(self.target())
    }

    /// Makes a persistent reference to `id`: its count goes up by one, or starts at one.
    pub fn new(refs: &mut ExternalRefs, id: AllocId<M>) -> (r: Self)
        requires
            old(refs)@.contains_key(key_of(id)) ==> old(refs)@[key_of(id)] < u32::MAX,
        ensures
            r.target() == id,
            final(refs)@ == old(refs)@.insert(key_of(id), count_after_new(old(refs)@, key_of(id)) as u32),
    {
        let k = id.raw() as u64;
        let count = match map_get(&refs.counts, k) {
            Some(c) => *c + 1,
            None => 1,
        };
        refs.set_count(k, count);
        Persistent { id }
    }

    /// The number of persistent references to this one's allocation.
    pub fn refcount(&self, refs: &ExternalRefs) -> (r: u32)
        requires
            refs@.contains_key(self.key()),
        ensures
            r == refs@[self.key()],
    {
        refs.count_of(self.id.raw() as u64)
    }

    /// Adds one to the count of this reference's allocation and returns the new count.
    pub fn inc_refcount(&self, refs: &mut ExternalRefs) -> (r: u32)
        requires
            old(refs)@.contains_key(self.key()),
            old(refs)@[self.key()] < u32::MAX,
        ensures
            r == old(refs)@[self.key()] + 1,
            final(refs)@ == old(refs)@.insert(self.key(), r),
    {
        let k = self.id.raw() as u64;
        let c = refs.count_of(k) + 1;
        refs.set_count(k, c);
        c
    }

    /// Takes one from the count of this reference's allocation and returns the new count.
    pub fn dec_refcount(&self, refs: &mut ExternalRefs) -> (r: u32)
        requires
            old(refs)@.contains_key(self.key()),
            old(refs)@[self.key()] > 0,
        ensures
            r == old(refs)@[self.key()] - 1,
            final(refs)@ == old(refs)@.insert(self.key(), r),
    {
        let k = self.id.raw() as u64;
        let c = refs.count_of(k) - 1;
        refs.set_count(k, c);
        c
    }

    /// The allocation this reference keeps alive.
    pub fn id(&self) -> (r: AllocId<M>)
        ensures
            r == self.target(),
    {
        AllocId::from_raw(self.id.raw())
    }

    /// A second reference to the same allocation; its count goes up by one.
    pub fn clone(&self, refs: &mut ExternalRefs) -> (r: Self)
        requires
            old(refs)@.contains_key(self.key()),
            old(refs)@[self.key()] < u32::MAX,
        ensures
            r.target() == self.target(),
            final(refs)@ == old(refs)@.insert(self.key(), (old(refs)@[self.key()] + 1) as u32),
    {
        self.inc_refcount(refs);
        Persistent { id: self.id() }
    }

    /// Gives up this reference; the count of its allocation goes down by one. The entry stays in
    /// the table until the collector prunes it.
    pub fn drop(self, refs: &mut ExternalRefs)
        requires
            old(refs)@.contains_key(self.key()),
            old(refs)@[self.key()] > 0,
        ensures
            final(refs)@ == old(refs)@.insert(self.key(), (old(refs)@[self.key()] - 1) as u32),
    {
        self.dec_refcount(refs);
    }
}

/// Cloning a persistent reference and then dropping the clone leaves the table as it was.
pub proof fn lemma_clone_then_drop(m: Map<u64, u32>, k: u64)
    requires
        m.contains_key(k),
        m[k] < u32::MAX,
    ensures
        ({
            let cloned = m.insert(k, (m[k] + 1) as u32);
            cloned.insert(k, (cloned[k] - 1) as u32) == m
        }),
{
    let cloned = m.insert(k, (m[k] + 1) as u32);
    assert(cloned.insert(k, (cloned[k] - 1) as u32) =~= m);
}

/// Pruning keeps the count of every allocation that is still referenced and forgets only those
/// whose count is zero; pruning twice is pruning once.
pub proof fn lemma_prune(m: Map<u64, u32>, k: u64)
    ensures
        pruned(m).contains_key(k) <==> (m.contains_key(k) && m[k] != 0),
        pruned(m).contains_key(k) ==> pruned(m)[k] == m[k],
        pruned(pruned(m)) == pruned(m),
{
    assert(pruned(pruned(m)) =~= pruned(m));
}

} // verus!
