pub mod buf;
pub mod chunk;
pub mod freelist;
pub mod gc2;
pub mod gc2__;
pub mod handle;
pub mod persistent;

use vstd::prelude::*;
use vstd::pervasive::unreached;
use vstd::slice::{slice_subrange, slice_to_vec};

use core::marker::PhantomData;
use vstd::std_specs::cmp::PartialEqSpecImpl;
use vstd::multiset::Multiset;
use vstd::arithmetic::div_mod::lemma_fundamental_div_mod;

use crate::gc::chunk::{
    alloc_layout, data_after_write, disjoint, layout_ok, lemma_write_outside, new_info, INITIALIZED, VISITED, lemma_sum_ge, lemma_sum_nonneg, lemma_sum_push, lemma_sum_update, live_size, live_totals, sum_of, metadata_pos, valid_payload, AllocInfo, Chunk,
    ChunkId, LocalAllocId, CHUNK_SIZE, lemma_sum_pointwise, marked_size, marked_totals,
};
use crate::gc::freelist::{
    entries_empty, entry_view, free_entries, last_entry, new_entries, pop_entry, push_entry, FreeEntries,
    FreeListEntry,
};

verus! {

/// The number of chunks an allocator can hold: chunk ids take 20 bits.
pub const MAX_CHUNKS: usize = 0xF_FFFF;

/// The identity of an allocation: the offset of its data in its chunk (low 12 bits) and the
/// chunk (high 20 bits).
#[derive(Debug, Hash)]
pub struct AllocId<M> {
    id_and_chunk: u32,
    _metadata: PhantomData<M>,
}

impl<M> AllocId<M> {
    /// The packed id.
    pub closed spec fn spec_raw(self) -> u32 {
        self.id_and_chunk
    }

    pub(crate) fn from_raw(id_and_chunk: u32) -> (r: Self)
        ensures
            r.spec_raw() == id_and_chunk,
    {
        AllocId { id_and_chunk, _metadata: PhantomData }
    }

    fn from_raw_parts(local: LocalAllocId, chunk: ChunkId) -> (r: Self)
        requires
            local.0 < CHUNK_SIZE,
            chunk.0 < 0x10_0000,
        ensures
            local_of(r.spec_raw()) == local.0,
            chunk_of(r.spec_raw()) == chunk.0,
    {
        let l = local.0 as u32;
        let c = chunk.0;
        let raw = l | (c << 12u32);
        assert(l < 4096 && c < 0x10_0000 ==> (l | (c << 12u32)) % 4096 == l && (l | (c << 12u32)) / 4096 == c) by (bit_vector);
        AllocId { id_and_chunk: raw, _metadata: PhantomData }
    }

    fn local(&self) -> (r: LocalAllocId)
        ensures
            r.0 == local_of(self.spec_raw()),
    {
        let raw = self.id_and_chunk;
        assert(raw & 0xFFFu32 == raw % 4096) by (bit_vector);
        LocalAllocId((raw & 0xFFF) as u16)
    }

    fn chunk(&self) -> (r: ChunkId)
        ensures
            r.0 == chunk_of(self.spec_raw()),
    {
        let raw = self.id_and_chunk;
        assert(raw >> 12u32 == raw / 4096) by (bit_vector);
        ChunkId(raw >> 12)
    }

    /// The packed id: the chunk in the upper bits, the offset of the data in the low 12.
    pub fn raw(&self) -> (r: u32)
        ensures
            r == self.spec_raw(),
    {
        self.id_and_chunk
    }
}

impl<M> Clone for AllocId<M> {
    fn clone(&self) -> (r: Self)
        ensures
            r == *self,
    {
        *self
    }
}

impl<M> Copy for AllocId<M> {
}

impl<M> PartialEq for AllocId<M> {
    fn eq(&self, other: &Self) -> (r: bool) {
        self.id_and_chunk == other.id_and_chunk
    }
}

impl<M> PartialEqSpecImpl for AllocId<M> {
    open spec fn obeys_eq_spec() -> bool {
        true
    }

    open spec fn eq_spec(&self, other: &Self) -> bool {
        self.spec_raw() == other.spec_raw()
    }
}

impl<M> Eq for AllocId<M> {
}

/// Two ids are the same exactly when their packed ids are.
pub proof fn lemma_alloc_id_eq<M>(a: AllocId<M>, b: AllocId<M>)
    ensures
        (a == b) == (a.spec_raw() == b.spec_raw()),
{
}

/// The offset of the data within its chunk, from a packed id.
pub open spec fn local_of(raw: u32) -> int {
    (raw % 4096) as int
}

/// The chunk, from a packed id.
pub open spec fn chunk_of(raw: u32) -> int {
    (raw / 4096) as int
}

/// A free list entry together with the size it is filed under: size, chunk, start, info.
pub type FreeItem = (u16, u32, u16, Option<u16>);

/// The entries of one size of the free list, as plain values.
pub open spec fn group_items(g: (u16, FreeEntries)) -> Seq<FreeItem> {
    free_entries(g.1).map_values(|e: (u32, u16, Option<u16>)| (g.0, e.0, e.1, e.2))
}

/// All entries of the free list, as a multiset.
pub open spec fn free_items(fl: Seq<(u16, FreeEntries)>) -> Multiset<FreeItem>
    decreases fl.len(),
{
    if fl.len() == 0 {
        Multiset::empty()
    } else {
        free_items(fl.drop_last()).add(group_items(fl.last()).to_multiset())
    }
}

/// The free-list items that a sweep makes of the infos of chunk `c` below index `i`: one for each
/// allocation that is live and was not reached by the last mark phase, filed under its size.
pub open spec fn freed_in_chunk(ch: Chunk, c: int, i: int) -> Multiset<FreeItem>
    decreases i,
{
    if i <= 0 {
        Multiset::empty()
    } else {
        let rest = freed_in_chunk(ch, c, i - 1);
        let info = ch.info@[i - 1];
        if info.initialized() && !info.visited() {
            rest.insert((info.total_alloc_size, c as u32, info.alloc_start, Some((i - 1) as u16)))
        } else {
            rest
        }
    }
}

/// The free-list items that a sweep makes of the chunks before chunk `c`.
pub open spec fn freed_upto(chunks: Seq<Chunk>, c: int) -> Multiset<FreeItem>
    decreases c,
{
    if c <= 0 {
        Multiset::empty()
    } else {
        freed_upto(chunks, c - 1).add(freed_in_chunk(chunks[c - 1], c - 1, chunks[c - 1].info@.len() as int))
    }
}

proof fn lemma_freed_in_chunk_contains(ch: Chunk, c: int, i: int, j: int)
    requires
        0 <= j < i <= ch.info@.len(),
        ch.info@[j].initialized(),
        !ch.info@[j].visited(),
    ensures
        freed_in_chunk(ch, c, i).contains(
            (ch.info@[j].total_alloc_size, c as u32, ch.info@[j].alloc_start, Some(j as u16)),
        ),
    decreases i,
{
    broadcast use vstd::multiset::group_multiset_axioms;
    if j < i - 1 {
        lemma_freed_in_chunk_contains(ch, c, i - 1, j);
    }
}

proof fn lemma_freed_upto_contains(chunks: Seq<Chunk>, c: int, e: int, j: int)
    requires
        0 <= e < c <= chunks.len(),
        0 <= j < chunks[e].info@.len(),
        chunks[e].info@[j].initialized(),
        !chunks[e].info@[j].visited(),
    ensures
        freed_upto(chunks, c).contains(
            (chunks[e].info@[j].total_alloc_size, e as u32, chunks[e].info@[j].alloc_start, Some(j as u16)),
        ),
    decreases c,
{
    broadcast use vstd::multiset::group_multiset_axioms;
    if e < c - 1 {
        lemma_freed_upto_contains(chunks, c - 1, e, j);
    } else {
        lemma_freed_in_chunk_contains(chunks[e], e, chunks[e].info@.len() as int, j);
    }
}

/// The bytes taken by the live allocations of the chunks.
pub open spec fn live_bytes(chunks: Seq<Chunk>) -> int {
    sum_of(chunks, |c: Chunk| live_totals(c.info@))
}

proof fn lemma_free_items_update(fl: Seq<(u16, FreeEntries)>, k: int, g: (u16, FreeEntries))
    requires
        0 <= k < fl.len(),
    ensures
        forall|v: FreeItem| #[trigger] free_items(fl.update(k, g)).count(v) + group_items(fl[k]).to_multiset().count(v)
            == free_items(fl).count(v) + group_items(g).to_multiset().count(v),
    decreases fl.len(),
{
    broadcast use vstd::multiset::group_multiset_axioms;
    let fl2 = fl.update(k, g);
    if k == fl.len() - 1 {
        assert(fl2.drop_last() =~= fl.drop_last());
        assert(fl2.last() == g);
    } else {
        lemma_free_items_update(fl.drop_last(), k, g);
        assert(fl2.drop_last() =~= fl.drop_last().update(k, g));
        assert(fl2.last() == fl.last());
    }
    assert(free_items(fl2) == free_items(fl2.drop_last()).add(group_items(fl2.last()).to_multiset()));
}

proof fn lemma_free_items_insert(fl: Seq<(u16, FreeEntries)>, k: int, g: (u16, FreeEntries))
    requires
        0 <= k <= fl.len(),
    ensures
        forall|v: FreeItem| #[trigger] free_items(fl.insert(k, g)).count(v) == free_items(fl).count(v)
            + group_items(g).to_multiset().count(v),
    decreases fl.len(),
{
    broadcast use vstd::multiset::group_multiset_axioms;
    let fl2 = fl.insert(k, g);
    assert(fl2.len() > 0);
    if k == fl.len() {
        assert(fl2.drop_last() =~= fl);
        assert(fl2.last() == g);
    } else {
        lemma_free_items_insert(fl.drop_last(), k, g);
        assert(fl2.drop_last() =~= fl.drop_last().insert(k, g));
        assert(fl2.last() == fl.last());
    }
    assert(free_items(fl2) == free_items(fl2.drop_last()).add(group_items(fl2.last()).to_multiset()));
}

proof fn lemma_free_items_remove(fl: Seq<(u16, FreeEntries)>, k: int)
    requires
        0 <= k < fl.len(),
    ensures
        forall|v: FreeItem| #[trigger] free_items(fl.remove(k)).count(v) + group_items(fl[k]).to_multiset().count(v)
            == free_items(fl).count(v),
    decreases fl.len(),
{
    broadcast use vstd::multiset::group_multiset_axioms;
    let fl2 = fl.remove(k);
    if k == fl.len() - 1 {
        assert(fl2 =~= fl.drop_last());
    } else {
        lemma_free_items_remove(fl.drop_last(), k);
        assert(fl2.drop_last() =~= fl.drop_last().remove(k));
        assert(fl2.last() == fl.last());
        assert(free_items(fl2) == free_items(fl2.drop_last()).add(group_items(fl2.last()).to_multiset()));
    }
}

/// The items of a group after one more entry is pushed.
proof fn lemma_group_push(g: (u16, FreeEntries), g2: (u16, FreeEntries), e: (u32, u16, Option<u16>))
    requires
        g2.0 == g.0,
        free_entries(g2.1) == free_entries(g.1).push(e),
    ensures
        group_items(g2) == group_items(g).push((g.0, e.0, e.1, e.2)),
{
    assert(group_items(g2) =~= group_items(g).push((g.0, e.0, e.1, e.2)));
}

/// The items of a group after its last entry is popped.
proof fn lemma_group_pop(g: (u16, FreeEntries), g2: (u16, FreeEntries))
    requires
        g2.0 == g.0,
        free_entries(g.1).len() > 0,
        free_entries(g2.1) == free_entries(g.1).drop_last(),
    ensures
        group_items(g2) == group_items(g).drop_last(),
        group_items(g).last() == (g.0, free_entries(g.1).last().0, free_entries(g.1).last().1, free_entries(g.1).last().2),
{
    assert(group_items(g2) =~= group_items(g).drop_last());
}

/// The flags after a sweep: an allocation that was live and not reached is no longer live; one
/// that was reached loses its mark.
pub open spec fn swept(f: u8) -> u8 {
    if f & INITIALIZED != 0 {
        if f & VISITED == 0 {
            f & !INITIALIZED
        } else {
            f & !VISITED
        }
    } else {
        f
    }
}

/// Allocates values in chunks of `CHUNK_SIZE` bytes, and reuses the space of reclaimed ones.
pub struct Allocator {
    chunks: Vec<Chunk>,
    /// Maps from `total_alloc_size` to a chunk the allocation start index in it, ordered by size:
    /// an ordered map held as a vector of sizes in strictly increasing order, none without entries
    /// (`fl_ok`). The search walks the sizes from the smallest that could fit up and changes the
    /// entries of the size it stops at; with `BTreeMap` that takes `range_mut`, an iterator of
    /// mutable references for which vstd has no specification.
    free_list: Vec<(u16, FreeEntries)>,
    rss: usize,
    /// The entries of the free list, one by one.
    items: Ghost<Seq<FreeItem>>,
}

impl Allocator {
    /// What a free list entry promises: in the chunk, within it, and either the whole space of a
    /// reclaimed allocation or a stretch that no allocation overlaps.
    pub closed spec fn item_ok(&self, x: FreeItem) -> bool {
        let (key, c, s, oi) = x;
        &&& c < self.chunks@.len()
        &&& s + key <= CHUNK_SIZE
        &&& match oi {
            Some(i) => {
                let infos = self.chunks@[c as int].info@;
                &&& i < infos.len()
                &&& !infos[i as int].initialized()
                &&& infos[i as int].alloc_start == s
                &&& infos[i as int].total_alloc_size == key
            },
            None => {
                let ch = self.chunks@[c as int];
                &&& key > 12
                &&& forall|i: int| 0 <= i < ch.info@.len() ==> disjoint(
                    (#[trigger] ch.info@[i]).start(),
                    ch.info@[i].end(),
                    s as int,
                    s + key,
                )
                &&& c == self.chunks@.len() - 1 ==> s + key <= ch.at
            },
        }
    }

    /// Two entries of one chunk never offer the same space.
    pub open spec fn items_apart(x: FreeItem, y: FreeItem) -> bool {
        x.1 == y.1 ==> {
            &&& (x.3 is None && y.3 is None) ==> disjoint(x.2 as int, x.2 + x.0, y.2 as int, y.2 + y.0)
            &&& (x.3 is Some && y.3 is Some) ==> x.3 != y.3
        }
    }

    /// The free list is ordered by size, has no empty size, and holds the items.
    pub closed spec fn fl_ok(&self) -> bool {
        let fl = self.free_list@;
        &&& forall|k: int, l: int| 0 <= k < l < fl.len() ==> (#[trigger] fl[k]).0 < (#[trigger] fl[l]).0
        &&& forall|k: int| 0 <= k < fl.len() ==> free_entries((#[trigger] fl[k]).1).len() > 0
        &&& self.items@.to_multiset() == free_items(fl)
    }

    /// The invariant of the allocator.
    pub closed spec fn wf(&self) -> bool {
        let fl = self.free_list@;
        let items = self.items@;
        &&& self.chunks@.len() <= MAX_CHUNKS
        &&& forall|c: int| 0 <= c < self.chunks@.len() ==> (#[trigger] self.chunks@[c]).wf()
        &&& self.chunks@.len() > 0 ==> {
            let last = self.chunks@.last();
            forall|i: int| 0 <= i < last.info@.len() ==> (#[trigger] last.info@[i]).end() <= last.at
        }
        &&& forall|k: int, l: int| 0 <= k < l < fl.len() ==> (#[trigger] fl[k]).0 < (#[trigger] fl[l]).0
        &&& forall|k: int| 0 <= k < fl.len() ==> free_entries((#[trigger] fl[k]).1).len() > 0
        &&& items.to_multiset() == free_items(fl)
        &&& forall|i: int| 0 <= i < items.len() ==> self.item_ok(#[trigger] items[i])
        &&& forall|i: int, j: int| 0 <= i < items.len() && 0 <= j < items.len() && i != j ==> Self::items_apart(
            #[trigger] items[i],
            #[trigger] items[j],
        )
        &&& self.rss == live_bytes(self.chunks@)
    }

    /// Whether the packed id names a live allocation.
    pub closed spec fn live(&self, raw: u32) -> bool {
        let c = chunk_of(raw);
        let l = local_of(raw);
        &&& 0 <= c < self.chunks@.len()
        &&& exists|i: int| #[trigger] self.chunks@[c].has_data_at(i, l) && self.chunks@[c].info@[i].initialized()
    }

    /// The index of the info of the allocation that the packed id names.
    pub closed spec fn info_index(&self, raw: u32) -> int {
        let c = chunk_of(raw);
        let l = local_of(raw);
        choose|i: int| #[trigger] self.chunks@[c].has_data_at(i, l) && self.chunks@[c].info@[i].initialized()
    }

    /// The info of the allocation that the packed id names.
    pub closed spec fn info_of(&self, raw: u32) -> AllocInfo {
        self.chunks@[chunk_of(raw)].info@[self.info_index(raw)]
    }

    /// Whether the last mark phase reached the allocation.
    pub closed spec fn visited(&self, raw: u32) -> bool {
        self.info_of(raw).visited()
    }

    /// The bytes the allocation takes, paddings and headers included.
    pub closed spec fn footprint(&self, raw: u32) -> int {
        self.info_of(raw).total_alloc_size as int
    }

    /// `n` bytes from the start of the allocation's data.
    pub closed spec fn data_of(&self, raw: u32, n: int) -> Seq<u8> {
        let l = local_of(raw);
        self.chunks@[chunk_of(raw)].data@.subrange(l, l + n)
    }

    /// How many bytes there are from the start of the allocation's data to its end.
    pub closed spec fn data_room(&self, raw: u32) -> int {
        self.info_of(raw).end() - local_of(raw)
    }

    /// `n` bytes from the start of the allocation's metadata.
    pub closed spec fn metadata_of(&self, raw: u32, n: int) -> Seq<u8> {
        let data = self.chunks@[chunk_of(raw)].data@;
        let mp = metadata_pos(data, local_of(raw));
        data.subrange(mp, mp + n)
    }

    /// How many bytes there are from the start of the allocation's metadata to the byte that
    /// leads back to it.
    pub closed spec fn metadata_room(&self, raw: u32) -> int {
        let data = self.chunks@[chunk_of(raw)].data@;
        local_of(raw) - 1 - metadata_pos(data, local_of(raw))
    }

    /// A live allocation of `old` is still live in `new`, with the same info, and reads the same.
    pub open spec fn kept(old: &Allocator, new: &Allocator, raw: u32) -> bool {
        &&& Self::kept_bytes(old, new, raw)
        &&& new.info_of(raw) == old.info_of(raw)
    }

    /// A live allocation of `old` is still live in `new`, and reads the same.
    pub open spec fn kept_bytes(old: &Allocator, new: &Allocator, raw: u32) -> bool {
        &&& new.live(raw)
        &&& new.footprint(raw) == old.footprint(raw)
        &&& new.data_room(raw) == old.data_room(raw)
        &&& new.metadata_room(raw) == old.metadata_room(raw)
        &&& forall|n: int| 0 <= n <= old.data_room(raw) ==> #[trigger] new.data_of(raw, n) == old.data_of(raw, n)
        &&& forall|n: int| 0 <= n <= old.metadata_room(raw) ==> #[trigger] new.metadata_of(raw, n) == old.metadata_of(raw, n)
    }

    /// The info at `i` of the chunk of `raw` is the live one that `raw` names.
    proof fn lemma_info_index(&self, raw: u32, i: int)
        requires
            0 <= chunk_of(raw) < self.chunks@.len(),
            self.chunks@[chunk_of(raw)].wf(),
            self.chunks@[chunk_of(raw)].has_data_at(i, local_of(raw)),
            self.chunks@[chunk_of(raw)].info@[i].initialized(),
        ensures
            self.live(raw),
            self.info_index(raw) == i,
    {
        let c = chunk_of(raw);
        let l = local_of(raw);
        assert(self.chunks@[c].has_data_at(i, l) && self.chunks@[c].info@[i].initialized());
        let j = self.info_index(raw);
        self.chunks@[c].lemma_data_index_unique(i, j);
    }

    /// When one chunk changes only within `rs..re` and in the info at `k` (which was not live), and
    /// no other live allocation overlaps `rs..re`, every live allocation is kept.
    proof fn lemma_change_keeps(old: &Allocator, new: &Allocator, c: int, k: int, rs: int, re: int)
        requires
            0 <= c < old.chunks@.len(),
            old.chunks@.len() <= new.chunks@.len(),
            forall|d: int| 0 <= d < old.chunks@.len() && d != c ==> #[trigger] new.chunks@[d] == old.chunks@[d],
            forall|d: int| 0 <= d < new.chunks@.len() ==> (#[trigger] new.chunks@[d]).wf(),
            forall|d: int| 0 <= d < old.chunks@.len() ==> (#[trigger] old.chunks@[d]).wf(),
            new.chunks@[c].info@.len() >= old.chunks@[c].info@.len(),
            forall|i: int| 0 <= i < old.chunks@[c].info@.len() && i != k ==> #[trigger] new.chunks@[c].info@[i]
                == old.chunks@[c].info@[i],
            0 <= k < old.chunks@[c].info@.len() ==> !old.chunks@[c].info@[k].initialized(),
            forall|p: int| 0 <= p < CHUNK_SIZE && !(rs <= p < re) ==> #[trigger] new.chunks@[c].data@[p]
                == old.chunks@[c].data@[p],
            forall|i: int| 0 <= i < old.chunks@[c].info@.len() && i != k && old.chunks@[c].info@[i].initialized()
                ==> disjoint(#[trigger] old.chunks@[c].info@[i].start(), old.chunks@[c].info@[i].end(), rs, re),
        ensures
            forall|raw: u32| #[trigger] old.live(raw) ==> Self::kept(old, new, raw),
    {
        assert forall|raw: u32| #[trigger] old.live(raw) implies Self::kept(old, new, raw) by {
            let d = chunk_of(raw);
            let l = local_of(raw);
            let i = old.info_index(raw);
            old.lemma_info_index(raw, i);
            new.lemma_info_index(raw, i);
            if d == c {
                let oc = old.chunks@[c];
                let nc = new.chunks@[c];
                assert(layout_ok(oc.data@, oc.info@[i], i));
                let inf = oc.info@[i];
                assert(forall|p: int| inf.start() <= p < inf.end() ==> #[trigger] nc.data@[p] == oc.data@[p]);
                assert(nc.data@[l - 1] == oc.data@[l - 1]);
                assert forall|n: int| 0 <= n <= old.data_room(raw) implies #[trigger] new.data_of(raw, n) == old.data_of(raw, n) by {
                    assert(new.data_of(raw, n) =~= old.data_of(raw, n));
                }
                assert forall|n: int| 0 <= n <= old.metadata_room(raw) implies #[trigger] new.metadata_of(raw, n) == old.metadata_of(raw, n) by {
                    assert(new.metadata_of(raw, n) =~= old.metadata_of(raw, n));
                }
            }
        }
    }

    /// The chunks of `new` are those of `s0`, with the flags of the infos before `(c, i)` swept.
    pub closed spec fn swept_upto(s0: &Allocator, new: &Allocator, c: int, i: int) -> bool {
        &&& new.chunks@.len() == s0.chunks@.len()
        &&& forall|e: int| 0 <= e < s0.chunks@.len() ==> {
            let oc = #[trigger] s0.chunks@[e];
            let nc = new.chunks@[e];
            &&& nc.data@ == oc.data@
            &&& nc.at == oc.at
            &&& nc.info@.len() == oc.info@.len()
            &&& forall|j: int| 0 <= j < oc.info@.len() ==> {
                let oi = #[trigger] oc.info@[j];
                let ni = nc.info@[j];
                &&& ni.total_alloc_size == oi.total_alloc_size
                &&& ni.alloc_start == oi.alloc_start
                &&& ni.data_index == oi.data_index
                &&& ni.flags == if e < c || (e == c && j < i) {
                    swept(oi.flags)
                } else {
                    oi.flags
                }
            }
        }
    }

    /// What allocating `value` with `metadata` under the packed id `raw` promises: the id was not
    /// live and now is, its data and metadata read back as written, it is not marked, its bytes
    /// count towards the resident size, and every allocation that was live is kept.
    pub open spec fn allocated(old: &Allocator, new: &Allocator, raw: u32, value: Seq<u8>, metadata: Seq<u8>) -> bool {
        &&& !old.live(raw)
        &&& new.live(raw)
        &&& value.len() <= new.data_room(raw)
        &&& new.data_of(raw, value.len() as int) == value
        &&& metadata.len() <= new.metadata_room(raw)
        &&& new.metadata_of(raw, metadata.len() as int) == metadata
        &&& !new.visited(raw)
        &&& new.spec_rss() == old.spec_rss() + new.footprint(raw)
        &&& forall|x: u32| #[trigger] new.live(x) ==> old.live(x) || x == raw
        &&& forall|x: u32| #[trigger] old.live(x) ==> Self::kept(old, new, x)
    }

    /// Two allocators hold the same chunks, free list and resident size.
    pub closed spec fn same(a: &Allocator, b: &Allocator) -> bool {
        &&& a.chunks@ == b.chunks@
        &&& a.free_list@ == b.free_list@
        &&& a.rss == b.rss
        &&& a.items@ == b.items@
    }

    /// An allocation kept from `a` to `b` and from `b` to `c` is kept from `a` to `c`: what a live
    /// allocation reads stays the same over any run of allocations, marks and sweeps that keep it.
    pub proof fn lemma_kept_bytes_transitive(a: &Allocator, b: &Allocator, c: &Allocator, raw: u32)
        requires
            Self::kept_bytes(a, b, raw),
            Self::kept_bytes(b, c, raw),
        ensures
            Self::kept_bytes(a, c, raw),
    {
        assert forall|n: int| 0 <= n <= a.data_room(raw) implies #[trigger] c.data_of(raw, n) == a.data_of(raw, n) by {
            assert(b.data_of(raw, n) == a.data_of(raw, n));
        }
        assert forall|n: int| 0 <= n <= a.metadata_room(raw) implies #[trigger] c.metadata_of(raw, n) == a.metadata_of(raw, n) by {
            assert(b.metadata_of(raw, n) == a.metadata_of(raw, n));
        }
    }

    /// The entries of the free list, each with the size it is filed under.
    pub closed spec fn free_list_items(&self) -> Multiset<FreeItem> {
        free_items(self.free_list@)
    }

    /// The free-list item that sweeping makes of the allocation: its size, chunk, start and info
    /// index.
    pub closed spec fn free_item_of(&self, raw: u32) -> FreeItem {
        let info = self.info_of(raw);
        (info.total_alloc_size, chunk_of(raw) as u32, info.alloc_start, Some(self.info_index(raw) as u16))
    }

    /// The free-list items that sweeping now would add: one for each live allocation that the
    /// last mark phase did not reach, with its size, chunk, start and info index.
    pub closed spec fn sweep_freed(&self) -> Multiset<FreeItem> {
        freed_upto(self.chunks@, self.chunks@.len() as int)
    }

    /// The number of chunks.
    pub closed spec fn spec_chunk_count(&self) -> int {
        self.chunks@.len() as int
    }

    /// The bytes taken by the live allocations that the last mark phase reached: what the
    /// resident size comes down to when they are swept.
    pub closed spec fn marked_bytes(&self) -> int {
        sum_of(self.chunks@, |c: Chunk| marked_totals(c.info@))
    }

    /// The bytes taken by live allocations.
    pub closed spec fn spec_rss(&self) -> int {
        live_bytes(self.chunks@)
    }

    pub fn new() -> (r: Self)
        ensures
            r.wf(),
            r.spec_chunk_count() == 0,
            r.spec_rss() == 0,
    {
        let r = Allocator { chunks: Vec::new(), free_list: Vec::new(), rss: 0, items: Ghost(Seq::empty()) };
        proof {
            assert(r.items@.to_multiset() =~= free_items(r.free_list@)) by {
                broadcast use vstd::seq_lib::group_to_multiset_ensures;
                assert(r.items@.to_multiset().len() == 0);
            }
        }
        r
    }

    /// Files an entry under `key`, creating the size when it is not there yet.
    fn push_free(&mut self, key: u16, e: FreeListEntry)
        requires
            old(self).fl_ok(),
        ensures
            final(self).fl_ok(),
            final(self).items@ == old(self).items@.push((key, e.chunk.0, e.allocation_start_index, e.info_id)),
            final(self).chunks == old(self).chunks,
            final(self).rss == old(self).rss,
    {
        broadcast use vstd::seq_lib::group_to_multiset_ensures;
        broadcast use vstd::multiset::group_multiset_axioms;
        let ghost fl0 = self.free_list@;
        let ghost x = (key, e.chunk.0, e.allocation_start_index, e.info_id);
        let mut k: usize = 0;
        while k < self.free_list.len() && self.free_list[k].0 < key
            invariant
                k <= self.free_list@.len(),
                self.free_list@ == fl0,
                forall|k2: int| 0 <= k2 < k ==> (#[trigger] fl0[k2]).0 < key,
            decreases self.free_list@.len() - k,
        {
            k = k + 1;
        }
        if k < self.free_list.len() && self.free_list[k].0 == key {
            let (key2, mut group) = self.free_list.remove(k);
            let ghost g0 = (key2, group);
            push_entry(&mut group, e);
            let ghost g1 = (key2, group);
            self.free_list.insert(k, (key2, group));
            proof {
                lemma_group_push(g0, g1, entry_view(e));
                assert(self.free_list@ =~= fl0.update(k as int, g1));
                lemma_free_items_update(fl0, k as int, g1);
                assert(self.free_list@[k as int] == g1);
            }
        } else {
            let mut group = new_entries();
            let ghost g0 = (key, group);
            push_entry(&mut group, e);
            let ghost g1 = (key, group);
            self.free_list.insert(k, (key, group));
            proof {
                assert(group_items(g1) =~= seq![x]);
                lemma_free_items_insert(fl0, k as int, g1);
            }
        }
        proof {
            self.items@ = self.items@.push(x);
            assert(self.items@.to_multiset() =~= free_items(self.free_list@));
        }
    }

    /// Where the fill position of the last chunk puts the data of an allocation of the given sizes
    /// and alignments: its offset in that chunk, or `None` when there is no chunk or it cannot take
    /// the allocation.
    pub closed spec fn last_chunk_place(&self, size_t: int, align_t: int, size_m: int, align_m: int) -> Option<int> {
        if self.chunks@.len() == 0 {
            None
        } else {
            let at = self.chunks@.last().at as int;
            match alloc_layout(at, at, size_t, align_t, size_m, align_m) {
                Some((hp, dp, d, total)) => Some(d),
                None => None,
            }
        }
    }

    /// Whether the last entry of size class `k` of the free list can take an allocation of the
    /// given sizes and alignments: laid out at its start, in its chunk, it takes no more than the
    /// entry's size.
    pub closed spec fn class_fits(&self, k: int, size_t: int, align_t: int, size_m: int, align_m: int) -> bool {
        let g = self.free_list@[k];
        let e = free_entries(g.1).last();
        match alloc_layout(self.chunks@[e.0 as int].at as int, e.1 as int, size_t, align_t, size_m, align_m) {
            Some((hp, dp, d, total)) => total <= g.0,
            None => false,
        }
    }

    /// Where the last entry of size class `k` puts the data of the allocation: its chunk and the
    /// offset of the data in it.
    pub closed spec fn class_place(&self, k: int, size_t: int, align_t: int, size_m: int, align_m: int) -> (int, int) {
        let e = free_entries(self.free_list@[k].1).last();
        match alloc_layout(self.chunks@[e.0 as int].at as int, e.1 as int, size_t, align_t, size_m, align_m) {
            Some((hp, dp, d, total)) => (e.0 as int, d),
            None => (e.0 as int, 0),
        }
    }

    /// The size class whose last entry the free list gives an allocation: the smallest one, of a
    /// size no smaller than the value and metadata together, whose last entry (the one offered
    /// most recently) can take it.
    pub closed spec fn first_fit(&self, size_t: int, align_t: int, size_m: int, align_m: int) -> int {
        choose|k: int| 0 <= k < self.free_list@.len() && self.free_list@[k].0 >= size_t + size_m
            && self.class_fits(k, size_t, align_t, size_m, align_m)
            && forall|j: int| 0 <= j < k && self.free_list@[j].0 >= size_t + size_m
                ==> !(#[trigger] self.class_fits(j, size_t, align_t, size_m, align_m))
    }

    /// Whether some size class of the free list, of a size no smaller than the value and metadata
    /// together, can take the allocation in its last entry.
    pub closed spec fn fits_in_free_list(&self, size_t: int, align_t: int, size_m: int, align_m: int) -> bool {
        exists|k: int| 0 <= k < self.free_list@.len() && self.free_list@[k].0 >= size_t + size_m
            && #[trigger] self.class_fits(k, size_t, align_t, size_m, align_m)
    }

    /// Tries to reuse the space of a reclaimed allocation or of a stretch that the free list
    /// offers: from the smallest size that the value and metadata could fit in up, the last entry
    /// of each size is tried. What is left over is offered again when it could still hold a small
    /// allocation. It succeeds exactly when some such entry can take the allocation.
    fn alloc_in_free_list<M>(&mut self, value: &[u8], align_t: usize, metadata: &[u8], align_m: usize) -> (r: Option<AllocId<M>>)
        requires
            old(self).wf(),
            valid_payload(value@.len() as int, align_t as int, metadata@.len() as int, align_m as int),
            old(self).spec_rss() + CHUNK_SIZE <= usize::MAX,
        ensures
            final(self).wf(),
            r is Some <==> old(self).fits_in_free_list(value@.len() as int, align_t as int, metadata@.len() as int, align_m as int),
            final(self).chunks@.len() == old(self).chunks@.len(),
            r is None ==> Self::same(final(self), old(self)),
            r matches Some(id) ==> Self::allocated(old(self), final(self), id.spec_raw(), value@, metadata@),
            r matches Some(id) ==> ({
                let k = old(self).first_fit(value@.len() as int, align_t as int, metadata@.len() as int, align_m as int);
                let p = old(self).class_place(k, value@.len() as int, align_t as int, metadata@.len() as int, align_m as int);
                chunk_of(id.spec_raw()) == p.0 && local_of(id.spec_raw()) == p.1
            }),
    {
        let approximated_size = value.len() as u16 + metadata.len() as u16;
        let ghost need = value@.len() + metadata@.len();
        let mut k: usize = 0;
        while k < self.free_list.len() && self.free_list[k].0 < approximated_size
            invariant
                k <= self.free_list@.len(),
                Self::same(self, old(self)),
                approximated_size == need,
                forall|j: int| 0 <= j < k ==> self.free_list@[j].0 < need,
            decreases self.free_list@.len() - k,
        {
            k = k + 1;
        }
        proof {
            assert forall|j: int| k <= j < self.free_list@.len() implies self.free_list@[j].0 >= need by {
                if j > k {
                    assert(self.free_list@[k as int].0 < self.free_list@[j].0);
                }
            }
        }
        while k < self.free_list.len()
            invariant
                k <= self.free_list@.len(),
                Self::same(self, old(self)),
                self.wf(),
                valid_payload(value@.len() as int, align_t as int, metadata@.len() as int, align_m as int),
                self.spec_rss() + CHUNK_SIZE <= usize::MAX,
                need == value@.len() + metadata@.len(),
                forall|j: int| k <= j < self.free_list@.len() ==> self.free_list@[j].0 >= need,
                forall|j: int| 0 <= j < k && self.free_list@[j].0 >= need
                    ==> !(#[trigger] old(self).class_fits(j, value@.len() as int, align_t as int, metadata@.len() as int, align_m as int)),
            decreases self.free_list@.len() - k,
        {
            let exact_size = self.free_list[k].0;
            let entry = last_entry(&self.free_list[k].1).unwrap();
            let chunk_id = entry.chunk;
            let ghost old_self = *self;
            let ghost x: FreeItem = (exact_size, chunk_id.0, entry.allocation_start_index, entry.info_id);
            proof {
                self.lemma_group_item(k as int);
                assert(self.item_ok(x));
                assert(self.items@.contains(x));
            }
            let c = chunk_id.0 as usize;
            proof {
                assert(self.free_list@ == old(self).free_list@);
                assert(self.chunks@ == old(self).chunks@);
                assert(free_entries(self.free_list@[k as int].1).last() == entry_view(entry));
                let ch = self.chunks@[c as int];
                match entry.info_id {
                    Some(i) => {
                        assert(i < ch.info@.len());
                        assert forall|j: int| 0 <= j < ch.info@.len() && !(entry.info_id == Some(j as u16)) implies disjoint(
                            (#[trigger] ch.info@[j]).start(), ch.info@[j].end(),
                            entry.allocation_start_index as int, entry.allocation_start_index + exact_size) by {
                            assert(ch.wf());
                            assert(j != i as int);
                        }
                    },
                    None => {
                        ch.lemma_info_count();
                    },
                }
            }
            let res = self.chunks[c].try_alloc_at(
                entry.allocation_start_index as usize,
                exact_size,
                entry.info_id,
                value,
                align_t,
                metadata,
                align_m,
            );
            match res {
                Ok((local_alloc_id, size)) => {
                    proof {
                        assert(old(self).class_fits(k as int, value@.len() as int, align_t as int, metadata@.len() as int, align_m as int));
                    }
                    let ghost lay = alloc_layout(old_self.chunks@[c as int].at as int, entry.allocation_start_index as int,
                        value@.len() as int, align_t as int, metadata@.len() as int, align_m as int);
                    let ghost idx = choose|idx: int| 0 <= idx < old_self.items@.len() && old_self.items@[idx] == x;
                    self.rss = self.rss + size;
                    let ghost fl0 = self.free_list@;
                    let (key2, mut group) = self.free_list.remove(k);
                    let ghost g0 = (key2, group);
                    pop_entry(&mut group);
                    let ghost g1 = (key2, group);
                    let emptied = entries_empty(&group);
                    if !emptied {
                        self.free_list.insert(k, (key2, group));
                    }
                    proof {
                        broadcast use vstd::seq_lib::group_to_multiset_ensures;
                        broadcast use vstd::multiset::group_multiset_axioms;
                        assert(fl0[k as int] == g0);
                        lemma_group_pop(g0, g1);
                        assert(group_items(g0) =~= group_items(g1).push(x));
                        self.items@ = self.items@.remove(idx);
                        if emptied {
                            assert(self.free_list@ =~= fl0.remove(k as int));
                            lemma_free_items_remove(fl0, k as int);
                        } else {
                            assert(self.free_list@ =~= fl0.update(k as int, g1));
                            lemma_free_items_update(fl0, k as int, g1);
                        }
                        assert(self.items@.to_multiset() =~= free_items(self.free_list@));
                    }
                    let remaining_size = exact_size - size as u16;
                    if remaining_size > 12 {
                        self.push_free(
                            remaining_size,
                            FreeListEntry {
                                allocation_start_index: entry.allocation_start_index + size as u16,
                                chunk: chunk_id,
                                info_id: None,
                            },
                        );
                    }
                    let id = AllocId::from_raw_parts(local_alloc_id, chunk_id);
                    proof {
                        let sz_t = value@.len() as int;
                        let sz_m = metadata@.len() as int;
                        let kk = old(self).first_fit(sz_t, align_t as int, sz_m, align_m as int);
                        assert(old(self).class_fits(k as int, sz_t, align_t as int, sz_m, align_m as int));
                        assert(forall|j: int| 0 <= j < k && old(self).free_list@[j].0 >= sz_t + sz_m
                            ==> !(#[trigger] old(self).class_fits(j, sz_t, align_t as int, sz_m, align_m as int)));
                        if kk != k as int {
                            if kk < k {
                                assert(!old(self).class_fits(kk, sz_t, align_t as int, sz_m, align_m as int));
                            } else {
                                assert(!old(self).class_fits(k as int, sz_t, align_t as int, sz_m, align_m as int));
                            }
                        }
                        let (hp, dp, d, total) = lay.unwrap();
                        let new_self = *self;
                        assert forall|e: int| 0 <= e < old_self.chunks@.len() && e != c as int implies #[trigger] new_self.chunks@[e]
                            == old_self.chunks@[e] by {}
                        Self::lemma_reuse_step(&old_self, &new_self, idx, hp, dp, d, size as int, value@, metadata@, id.spec_raw());
                        Self::lemma_same_allocated(&old_self, old(self), &new_self, id.spec_raw(), value@, metadata@);
                    }
                    return Some(id);
                },
                Err(_) => {
                    assert(self.chunks@ =~= old_self.chunks@);
                    assert(!old(self).class_fits(k as int, value@.len() as int, align_t as int, metadata@.len() as int, align_m as int));
                },
            }
            k = k + 1;
        }
        proof {
            if old(self).fits_in_free_list(value@.len() as int, align_t as int, metadata@.len() as int, align_m as int) {
                let j = choose|j: int| 0 <= j < old(self).free_list@.len() && old(self).free_list@[j].0 >= value@.len() + metadata@.len()
                    && #[trigger] old(self).class_fits(j, value@.len() as int, align_t as int, metadata@.len() as int, align_m as int);
                assert(!old(self).class_fits(j, value@.len() as int, align_t as int, metadata@.len() as int, align_m as int));
            }
        }
        None
    }

    /// Allocators that hold the same chunks promise the same of an allocation.
    proof fn lemma_same_allocated(a: &Allocator, b: &Allocator, new: &Allocator, raw: u32, value: Seq<u8>, metadata: Seq<u8>)
        requires
            Self::same(a, b),
            Self::allocated(a, new, raw, value, metadata),
        ensures
            Self::allocated(b, new, raw, value, metadata),
    {
        assert forall|x: u32| a.live(x) == b.live(x) by {}
        assert forall|x: u32| #[trigger] b.live(x) implies Self::kept(b, new, x) by {
            assert(a.live(x));
            assert(Self::kept(a, new, x));
            assert(a.info_index(x) == b.info_index(x));
            assert forall|n: int| a.data_of(x, n) == b.data_of(x, n) && a.metadata_of(x, n) == b.metadata_of(x, n) by {}
        }
    }

    /// After the item at `idx` was used for a new allocation of `size` bytes, with what is left of it
    /// offered again when more than 12 bytes remain, the allocator is whole again and the
    /// allocation is made.
    proof fn lemma_reuse_step(
        old: &Allocator,
        new: &Allocator,
        idx: int,
        hp: int,
        dp: int,
        d: int,
        size: int,
        value: Seq<u8>,
        metadata: Seq<u8>,
        raw: u32,
    )
        requires
            old.wf(),
            0 <= idx < old.items@.len(),
            hp >= 0,
            dp >= 0,
            metadata.len() + dp + 1 <= 255,
            d == old.items@[idx].2 + hp + 3 + metadata.len() + dp,
            size == hp + 3 + metadata.len() + dp + value.len(),
            value.len() >= 1,
            size <= old.items@[idx].0,
            new.chunks@.len() == old.chunks@.len(),
            forall|e: int| 0 <= e < old.chunks@.len() && e != old.items@[idx].1 ==> #[trigger] new.chunks@[e] == old.chunks@[e],
            ({
                let x = old.items@[idx];
                let oc = old.chunks@[x.1 as int];
                let nc = new.chunks@[x.1 as int];
                let kk = match x.3 {
                    Some(i) => i as int,
                    None => oc.info@.len() as int,
                };
                &&& nc.wf()
                &&& nc.at == oc.at
                &&& nc.info@ == match x.3 {
                    Some(i) => oc.info@.update(i as int, new_info(x.2 as int, size, d)),
                    None => oc.info@.push(new_info(x.2 as int, size, d)),
                }
                &&& nc.data@ == data_after_write(oc.data@, x.2 as int, hp, dp, kk, metadata, value)
            }),
            new.rss == old.rss + size,
            new.fl_ok(),
            new.items@ == if old.items@[idx].0 - size > 12 {
                old.items@.remove(idx).push(
                    ((old.items@[idx].0 - size) as u16, old.items@[idx].1, (old.items@[idx].2 + size) as u16, None),
                )
            } else {
                old.items@.remove(idx)
            },
            chunk_of(raw) == old.items@[idx].1,
            local_of(raw) == d,
        ensures
            new.wf(),
            Self::allocated(old, new, raw, value, metadata),
    {
        let x = old.items@[idx];
        let c = x.1 as int;
        let s = x.2 as int;
        let key = x.0 as int;
        let oc = old.chunks@[c];
        let nc = new.chunks@[c];
        let kk = match x.3 {
            Some(i) => i as int,
            None => oc.info@.len() as int,
        };
        assert(old.item_ok(x));
        let ni = new_info(s, size, d);
        assert(nc.info@[kk] == ni);
        assert(nc.info@.len() >= oc.info@.len());
        // Every other info of the chunk is unchanged, and the space used lies within the item.
        assert forall|i: int| 0 <= i < oc.info@.len() && i != kk implies #[trigger] nc.info@[i] == oc.info@[i] by {}
        assert forall|i: int| 0 <= i < oc.info@.len() && i != kk implies disjoint(
            (#[trigger] oc.info@[i]).start(), oc.info@[i].end(), s, s + key) by {
            assert(oc.wf());
        }
        // The chunks stay whole, the last one within its fill position.
        assert forall|e: int| 0 <= e < new.chunks@.len() implies (#[trigger] new.chunks@[e]).wf() by {
            if e != c {
                assert(old.chunks@[e].wf());
            }
        }
        if new.chunks@.len() > 0 && c == new.chunks@.len() - 1 {
            let last = new.chunks@.last();
            assert(last == nc);
            assert forall|i: int| 0 <= i < last.info@.len() implies (#[trigger] last.info@[i]).end() <= last.at by {
                if i != kk {
                    assert(oc.info@[i] == old.chunks@.last().info@[i]);
                } else {
                    match x.3 {
                        Some(j) => {
                            assert(oc.info@[j as int] == old.chunks@.last().info@[j as int]);
                        },
                        None => {},
                    }
                }
            }
        } else if new.chunks@.len() > 0 {
            assert(new.chunks@.last() == old.chunks@.last());
        }
        // Every remaining item keeps its promise; so does the leftover.
        let rest = old.items@.remove(idx);
        assert forall|a: int| 0 <= a < rest.len() implies new.item_ok(#[trigger] rest[a]) && Self::items_apart(rest[a], x) by {
            let b = if a < idx { a } else { a + 1 };
            assert(rest[a] == old.items@[b]);
            assert(b != idx);
            let y = old.items@[b];
            assert(old.item_ok(y));
            assert(Self::items_apart(y, x));
            if y.1 as int == c {
                match y.3 {
                    Some(j) => {
                        if x.3 is Some {
                            assert(x.3 != y.3);
                        }
                        assert(j as int != kk);
                        assert(nc.info@[j as int] == oc.info@[j as int]);
                    },
                    None => {
                        assert forall|i: int| 0 <= i < nc.info@.len() implies disjoint(
                            (#[trigger] nc.info@[i]).start(), nc.info@[i].end(), y.2 as int, y.2 + y.0) by {
                            if i == kk {
                                match x.3 {
                                    Some(j) => {
                                        assert(disjoint(oc.info@[j as int].start(), oc.info@[j as int].end(), y.2 as int, y.2 + y.0));
                                    },
                                    None => {},
                                }
                            } else {
                                assert(nc.info@[i] == oc.info@[i]);
                            }
                        }
                    },
                }
            } else {
                assert(new.chunks@[y.1 as int] == old.chunks@[y.1 as int]);
            }
        }
        let left = key - size;
        if left > 12 {
            let z: FreeItem = (left as u16, x.1, (s + size) as u16, None);
            assert(new.item_ok(z)) by {
                assert forall|i: int| 0 <= i < nc.info@.len() implies disjoint(
                    (#[trigger] nc.info@[i]).start(), nc.info@[i].end(), s + size, s + key) by {
                    if i != kk {
                        assert(nc.info@[i] == oc.info@[i]);
                    }
                }
                if c == new.chunks@.len() - 1 {
                    match x.3 {
                        Some(j) => {
                            assert(oc.info@[j as int] == old.chunks@.last().info@[j as int]);
                        },
                        None => {},
                    }
                }
            }
            assert forall|a: int| 0 <= a < rest.len() implies Self::items_apart(#[trigger] rest[a], z) by {
                let y = rest[a];
                assert(new.item_ok(y) && Self::items_apart(y, x));
                if y.1 == z.1 && y.3 is None {
                    match x.3 {
                        Some(j) => {
                            assert(old.item_ok(y));
                            assert(disjoint(oc.info@[j as int].start(), oc.info@[j as int].end(), y.2 as int, y.2 + y.0));
                        },
                        None => {},
                    }
                }
            }
        }
        let items = new.items@;
        assert forall|a: int| 0 <= a < items.len() implies new.item_ok(#[trigger] items[a]) by {
            if a < rest.len() {
                assert(items[a] == rest[a]);
            }
        }
        assert forall|a: int, b: int| 0 <= a < items.len() && 0 <= b < items.len() && a != b implies Self::items_apart(
            #[trigger] items[a], #[trigger] items[b]) by {
            if a < rest.len() && b < rest.len() {
                let a2 = if a < idx { a } else { a + 1 };
                let b2 = if b < idx { b } else { b + 1 };
                assert(rest[a] == old.items@[a2]);
                assert(rest[b] == old.items@[b2]);
            } else if a < rest.len() {
                assert(items[a] == rest[a]);
            } else if b < rest.len() {
                assert(items[b] == rest[b]);
            }
        }
        // The new allocation adds its size to the resident size.
        let fc = |ch: Chunk| live_totals(ch.info@);
        let fi = |i: AllocInfo| live_size(i);
        assert(new.chunks@ =~= old.chunks@.update(c, nc));
        lemma_sum_update(old.chunks@, c, nc, fc);
        assert(INITIALIZED & 1u8 != 0) by (bit_vector);
        assert(live_size(ni) == size);
        match x.3 {
            Some(j) => {
                lemma_sum_update(oc.info@, j as int, ni, fi);
            },
            None => {
                lemma_sum_push(oc.info@, ni, fi);
            },
        }
        assert(live_totals(nc.info@) == live_totals(oc.info@) + size);
        assert(new.rss == live_bytes(new.chunks@));
        Self::lemma_new_allocation(old, new, c, kk, s, key, hp, dp, d, size, value, metadata, raw);
    }

    /// The allocation written at `s` into the info at `kk` of chunk `c`, within space `s..s + key`
    /// that no live allocation overlapped, is made as `allocated` promises.
    proof fn lemma_new_allocation(
        old: &Allocator,
        new: &Allocator,
        c: int,
        kk: int,
        s: int,
        key: int,
        hp: int,
        dp: int,
        d: int,
        size: int,
        value: Seq<u8>,
        metadata: Seq<u8>,
        raw: u32,
    )
        requires
            0 <= c < old.chunks@.len(),
            new.chunks@.len() >= old.chunks@.len(),
            forall|e: int| 0 <= e < old.chunks@.len() && e != c ==> #[trigger] new.chunks@[e] == old.chunks@[e],
            forall|e: int| 0 <= e < new.chunks@.len() ==> (#[trigger] new.chunks@[e]).wf(),
            forall|e: int| 0 <= e < old.chunks@.len() ==> (#[trigger] old.chunks@[e]).wf(),
            forall|e: int| old.chunks@.len() <= e < new.chunks@.len() ==> (#[trigger] new.chunks@[e]).info@.len() == 0,
            0 <= s,
            hp >= 0,
            dp >= 0,
            metadata.len() + dp + 1 <= 255,
            d == s + hp + 3 + metadata.len() + dp,
            size == hp + 3 + metadata.len() + dp + value.len(),
            value.len() >= 1,
            size <= key,
            s + key <= CHUNK_SIZE,
            0 <= kk <= old.chunks@[c].info@.len(),
            kk < 65536,
            ({
                let oc = old.chunks@[c];
                let nc = new.chunks@[c];
                &&& kk < oc.info@.len() ==> !oc.info@[kk].initialized()
                &&& nc.info@ == if kk < oc.info@.len() {
                    oc.info@.update(kk, new_info(s, size, d))
                } else {
                    oc.info@.push(new_info(s, size, d))
                }
                &&& nc.data@ == data_after_write(oc.data@, s, hp, dp, kk, metadata, value)
                &&& forall|i: int| 0 <= i < oc.info@.len() && i != kk ==> disjoint(
                    (#[trigger] oc.info@[i]).start(),
                    oc.info@[i].end(),
                    s,
                    s + key,
                )
            }),
            new.spec_rss() == old.spec_rss() + size,
            chunk_of(raw) == c,
            local_of(raw) == d,
        ensures
            Self::allocated(old, new, raw, value, metadata),
    {
        let oc = old.chunks@[c];
        let nc = new.chunks@[c];
        let ni = new_info(s, size, d);
        assert(nc.info@[kk] == ni);
        assert(nc.has_data_at(kk, d));
        assert(INITIALIZED & 1u8 != 0 && INITIALIZED & VISITED == 0) by (bit_vector);
        new.lemma_info_index(raw, kk);
        assert(new.info_of(raw) == ni);
        assert(new.data_of(raw, value.len() as int) =~= value);
        assert(nc.data@[d - 1] == (metadata.len() + dp + 1) as u8);
        assert(metadata_pos(nc.data@, d) == s + hp + 2);
        assert(new.metadata_of(raw, metadata.len() as int) =~= metadata);
        if old.live(raw) {
            let i = old.info_index(raw);
            old.lemma_info_index(raw, i);
            assert(layout_ok(oc.data@, oc.info@[i], i));
            assert(i != kk);
            assert(disjoint(oc.info@[i].start(), oc.info@[i].end(), s, s + key));
        }
        assert forall|x: u32| #[trigger] new.live(x) implies old.live(x) || x == raw by {
            let e = chunk_of(x);
            let l = local_of(x);
            let i = new.info_index(x);
            new.lemma_info_index(x, i);
            if e != c {
                old.lemma_info_index(x, i);
            } else if i != kk {
                assert(nc.info@[i] == oc.info@[i]);
                old.lemma_info_index(x, i);
            } else {
                lemma_fundamental_div_mod(x as int, 4096);
                lemma_fundamental_div_mod(raw as int, 4096);
            }
        }
        assert forall|p: int| 0 <= p < CHUNK_SIZE && !(s <= p < s + key) implies #[trigger] nc.data@[p] == oc.data@[p] by {
            lemma_write_outside(oc.data@, s, hp, dp, kk, metadata, value, p);
        }
        Self::lemma_change_keeps(old, new, c, kk, s, s + key);
    }

    /// Tries to allocate at the fill position of the last chunk.
    fn alloc_in_last_chunk<M>(&mut self, value: &[u8], align_t: usize, metadata: &[u8], align_m: usize) -> (r: Option<AllocId<M>>)
        requires
            old(self).wf(),
            old(self).chunks@.len() > 0,
            valid_payload(value@.len() as int, align_t as int, metadata@.len() as int, align_m as int),
            old(self).spec_rss() + CHUNK_SIZE <= usize::MAX,
        ensures
            final(self).wf(),
            final(self).chunks@.len() == old(self).chunks@.len(),
            r is None ==> Self::same(final(self), old(self)) && alloc_layout(
                old(self).chunks@.last().at as int,
                old(self).chunks@.last().at as int,
                value@.len() as int,
                align_t as int,
                metadata@.len() as int,
                align_m as int,
            ) is None,
            r matches Some(id) ==> Self::allocated(old(self), final(self), id.spec_raw(), value@, metadata@),
            r matches Some(id) ==> old(self).last_chunk_place(value@.len() as int, align_t as int, metadata@.len() as int,
                align_m as int) == Some(local_of(id.spec_raw())) && chunk_of(id.spec_raw()) == old(self).chunks@.len() - 1,
    {
        let c = self.chunks.len() - 1;
        let ghost old_self = *self;
        let ghost oc = self.chunks@[c as int];
        let ghost lay = alloc_layout(oc.at as int, oc.at as int, value@.len() as int, align_t as int,
            metadata@.len() as int, align_m as int);
        proof {
            assert(oc == old_self.chunks@.last());
            assert(oc.wf());
            oc.lemma_info_count();
        }
        let res = self.chunks[c].try_alloc(value, align_t, metadata, align_m);
        match res {
            Ok((local_alloc_id, size)) => {
                self.rss = self.rss + size;
                let id = AllocId::from_raw_parts(local_alloc_id, ChunkId(c as u32));
                proof {
                    let (hp, dp, d, total) = lay.unwrap();
                    let new_self = *self;
                    let nc = new_self.chunks@[c as int];
                    let s = oc.at as int;
                    assert forall|e: int| 0 <= e < old_self.chunks@.len() && e != c as int implies #[trigger] new_self.chunks@[e]
                        == old_self.chunks@[e] by {}
                    assert forall|e: int| 0 <= e < new_self.chunks@.len() implies (#[trigger] new_self.chunks@[e]).wf() by {
                        if e != c as int {
                            assert(old_self.chunks@[e].wf());
                        }
                    }
                    // The resident size grows by the new allocation.
                    let fc = |ch: Chunk| live_totals(ch.info@);
                    let fi = |i: AllocInfo| live_size(i);
                    assert(new_self.chunks@ =~= old_self.chunks@.update(c as int, nc));
                    lemma_sum_update(old_self.chunks@, c as int, nc, fc);
                    lemma_sum_push(oc.info@, new_info(s, total, d), fi);
                    assert(INITIALIZED & 1u8 != 0) by (bit_vector);
                    assert(new_self.rss == live_bytes(new_self.chunks@));
                    // Every item keeps its promise: those of the last chunk lie before the fill position.
                    assert forall|a: int| 0 <= a < new_self.items@.len() implies new_self.item_ok(#[trigger] new_self.items@[a]) by {
                        let y = new_self.items@[a];
                        assert(old_self.item_ok(y));
                        if y.1 as int == c as int {
                            match y.3 {
                                Some(j) => {
                                    assert(nc.info@[j as int] == oc.info@[j as int]);
                                },
                                None => {
                                    assert forall|i: int| 0 <= i < nc.info@.len() implies disjoint(
                                        (#[trigger] nc.info@[i]).start(), nc.info@[i].end(), y.2 as int, y.2 + y.0) by {
                                        if i < oc.info@.len() {
                                            assert(nc.info@[i] == oc.info@[i]);
                                        }
                                    }
                                },
                            }
                        } else {
                            assert(new_self.chunks@[y.1 as int] == old_self.chunks@[y.1 as int]);
                        }
                    }
                    assert(new_self.wf());
                    assert forall|i: int| 0 <= i < oc.info@.len() && i != oc.info@.len() as int implies disjoint(
                        (#[trigger] oc.info@[i]).start(), oc.info@[i].end(), s, s + total) by {}
                    Self::lemma_new_allocation(&old_self, &new_self, c as int, oc.info@.len() as int, s, total, hp, dp, d,
                        total, value@, metadata@, id.spec_raw());
                    Self::lemma_same_allocated(&old_self, old(self), &new_self, id.spec_raw(), value@, metadata@);
                }
                Some(id)
            },
            Err(_) => {
                proof {
                    assert(self.chunks@ =~= old_self.chunks@);
                }
                None
            },
        }
    }

    /// Adds an empty chunk at the end.
    fn mk_chunk(&mut self) -> (r: ChunkId)
        requires
            old(self).wf(),
            old(self).chunks@.len() < MAX_CHUNKS,
        ensures
            final(self).wf(),
            r.0 == old(self).chunks@.len(),
            final(self).chunks@.len() == old(self).chunks@.len() + 1,
            final(self).chunks@.last().at == 0,
            final(self).chunks@.last().info@.len() == 0,
            forall|e: int| 0 <= e < old(self).chunks@.len() ==> #[trigger] final(self).chunks@[e] == old(self).chunks@[e],
            final(self).free_list@ == old(self).free_list@,
            final(self).items@ == old(self).items@,
            final(self).spec_rss() == old(self).spec_rss(),
            forall|x: u32| #[trigger] final(self).live(x) == old(self).live(x),
            forall|x: u32| #[trigger] old(self).live(x) ==> Self::kept(old(self), final(self), x),
    {
        let ghost old_self = *self;
        let chunk_id = ChunkId(self.chunks.len() as u32);
        let chunk = Chunk::new();
        self.chunks.push(chunk);
        proof {
            let new_self = *self;
            lemma_sum_push(old_self.chunks@, chunk, |ch: Chunk| live_totals(ch.info@));
            assert(live_totals(chunk.info@) == 0);
            assert forall|a: int| 0 <= a < new_self.items@.len() implies new_self.item_ok(#[trigger] new_self.items@[a]) by {
                let y = new_self.items@[a];
                assert(old_self.item_ok(y));
                assert(new_self.chunks@[y.1 as int] == old_self.chunks@[y.1 as int]);
            }
            assert forall|e: int| 0 <= e < new_self.chunks@.len() implies (#[trigger] new_self.chunks@[e]).wf() by {
                if e < old_self.chunks@.len() {
                    assert(old_self.chunks@[e].wf());
                }
            }
            Self::lemma_extend_keeps(&old_self, &new_self);
        }
        chunk_id
    }

    /// Chunks added at the end, with no allocation in them, change no allocation.
    proof fn lemma_extend_keeps(old: &Allocator, new: &Allocator)
        requires
            old.chunks@.len() <= new.chunks@.len(),
            forall|e: int| 0 <= e < old.chunks@.len() ==> #[trigger] new.chunks@[e] == old.chunks@[e],
            forall|e: int| old.chunks@.len() <= e < new.chunks@.len() ==> (#[trigger] new.chunks@[e]).info@.len() == 0,
        ensures
            forall|x: u32| #[trigger] new.live(x) == old.live(x),
            forall|x: u32| #[trigger] old.live(x) ==> Self::kept(old, new, x),
    {
        assert forall|x: u32| #[trigger] new.live(x) == old.live(x) by {
            let c = chunk_of(x);
            if 0 <= c < old.chunks@.len() {
                assert(new.chunks@[c] == old.chunks@[c]);
            }
        }
        assert forall|x: u32| #[trigger] old.live(x) implies Self::kept(old, new, x) by {
            let c = chunk_of(x);
            assert(new.chunks@[c] == old.chunks@[c]);
            assert(new.info_index(x) == old.info_index(x));
            assert forall|n: int| #[trigger] new.data_of(x, n) == old.data_of(x, n) by {}
            assert forall|n: int| #[trigger] new.metadata_of(x, n) == old.metadata_of(x, n) by {}
        }
    }

    /// An allocation made after a change that kept every live allocation (and the resident size)
    /// is an allocation made from the state before the change.
    proof fn lemma_compose(a: &Allocator, b: &Allocator, c: &Allocator, raw: u32, value: Seq<u8>, metadata: Seq<u8>)
        requires
            forall|x: u32| #[trigger] b.live(x) == a.live(x),
            forall|x: u32| #[trigger] a.live(x) ==> Self::kept(a, b, x),
            b.spec_rss() == a.spec_rss(),
            Self::allocated(b, c, raw, value, metadata),
        ensures
            Self::allocated(a, c, raw, value, metadata),
    {
        assert forall|x: u32| #[trigger] a.live(x) implies Self::kept(a, c, x) by {
            assert(Self::kept(a, b, x));
            assert(b.live(x));
            assert(Self::kept(b, c, x));
        }
        assert forall|x: u32| #[trigger] c.live(x) implies a.live(x) || x == raw by {
            assert(b.live(x) || x == raw);
        }
    }

    /// Allocates `value` with `metadata`: in the space of a reclaimed allocation when one fits,
    /// else at the fill position of the last chunk, else in a new chunk. When the last chunk is
    /// too full, what is left of it is offered to the free list.
    pub fn allocate<M>(&mut self, value: &[u8], value_align: usize, metadata: &[u8], metadata_align: usize) -> (r: AllocId<M>)
        requires
            old(self).wf(),
            valid_payload(value@.len() as int, value_align as int, metadata@.len() as int, metadata_align as int),
            alloc_layout(0, 0, value@.len() as int, value_align as int, metadata@.len() as int, metadata_align as int) is Some,
            old(self).spec_rss() + CHUNK_SIZE <= usize::MAX,
            old(self).spec_chunk_count() < MAX_CHUNKS,
        ensures
            final(self).wf(),
            Self::allocated(old(self), final(self), r.spec_raw(), value@, metadata@),
            final(self).spec_chunk_count() <= old(self).spec_chunk_count() + 1,
            final(self).spec_rss() <= old(self).spec_rss() + CHUNK_SIZE,
            old(self).fits_in_free_list(value@.len() as int, value_align as int, metadata@.len() as int, metadata_align as int)
                ==> ({
                let k = old(self).first_fit(value@.len() as int, value_align as int, metadata@.len() as int, metadata_align as int);
                let p = old(self).class_place(k, value@.len() as int, value_align as int, metadata@.len() as int, metadata_align as int);
                &&& final(self).spec_chunk_count() == old(self).spec_chunk_count()
                &&& chunk_of(r.spec_raw()) == p.0
                &&& local_of(r.spec_raw()) == p.1
            }),
            !old(self).fits_in_free_list(value@.len() as int, value_align as int, metadata@.len() as int, metadata_align as int)
                ==> match old(self).last_chunk_place(value@.len() as int, value_align as int, metadata@.len() as int, metadata_align as int) {
                Some(d) => {
                    &&& final(self).spec_chunk_count() == old(self).spec_chunk_count()
                    &&& chunk_of(r.spec_raw()) == old(self).spec_chunk_count() - 1
                    &&& local_of(r.spec_raw()) == d
                },
                None => {
                    &&& final(self).spec_chunk_count() == old(self).spec_chunk_count() + 1
                    &&& chunk_of(r.spec_raw()) == old(self).spec_chunk_count()
                    &&& local_of(r.spec_raw()) == alloc_layout(0, 0, value@.len() as int, value_align as int,
                        metadata@.len() as int, metadata_align as int)->Some_0.2
                },
            },
    {
        match self.alloc_in_free_list(value, value_align, metadata, metadata_align) {
            Some(id) => {
                return id;
            },
            None => {},
        }
        let ghost s1 = *self;
        proof {
            assert forall|x: u32| #[trigger] s1.live(x) == old(self).live(x) by {}
            assert forall|x: u32| #[trigger] old(self).live(x) implies Self::kept(old(self), &s1, x) by {
                assert(s1.info_index(x) == old(self).info_index(x));
                assert forall|n: int| #[trigger] s1.data_of(x, n) == old(self).data_of(x, n) by {}
                assert forall|n: int| #[trigger] s1.metadata_of(x, n) == old(self).metadata_of(x, n) by {}
            }
        }
        let mut tail: Option<(u16, FreeListEntry)> = None;
        if self.chunks.len() > 0 {
            match self.alloc_in_last_chunk(value, value_align, metadata, metadata_align) {
                Some(id) => {
                    proof {
                        Self::lemma_same_allocated(&s1, old(self), self, id.spec_raw(), value@, metadata@);
                        assert(s1.last_chunk_place(value@.len() as int, value_align as int, metadata@.len() as int,
                            metadata_align as int) == old(self).last_chunk_place(value@.len() as int, value_align as int,
                            metadata@.len() as int, metadata_align as int));
                    }
                    return id;
                },
                None => {},
            }
            let c = self.chunks.len() - 1;
            let current_chunk_pos = self.chunks[c].at;
            let remaining_chunk_size = (CHUNK_SIZE - current_chunk_pos) as u16;
            if remaining_chunk_size > 12 {
                // Offered once the new chunk exists, so that it names a chunk that is no longer the last.
                tail = Some(
                    (
                        remaining_chunk_size,
                        FreeListEntry { allocation_start_index: current_chunk_pos as u16, chunk: ChunkId(c as u32), info_id: None },
                    ),
                );
            }
        }
        let ghost s2 = *self;
        let chunk_id = self.mk_chunk();
        let ghost s3 = *self;
        match tail {
            Some((size, e)) => {
                self.push_free(size, e);
                proof {
                    let s4 = *self;
                    let c = e.chunk.0 as int;
                    let z: FreeItem = (size, e.chunk.0, e.allocation_start_index, None);
                    let ch = s4.chunks@[c];
                    assert(ch == s2.chunks@.last());
                    assert(ch.wf());
                    assert(s4.item_ok(z));
                    assert forall|a: int| 0 <= a < s3.items@.len() implies Self::items_apart(#[trigger] s3.items@[a], z) by {
                        let y = s3.items@[a];
                        assert(s2.item_ok(y));
                    }
                    let items = s4.items@;
                    assert forall|a: int| 0 <= a < items.len() implies s4.item_ok(#[trigger] items[a]) by {
                        if a < s3.items@.len() {
                            assert(s3.item_ok(items[a]));
                        }
                    }
                    assert forall|a: int, b: int| 0 <= a < items.len() && 0 <= b < items.len() && a != b implies Self::items_apart(
                        #[trigger] items[a], #[trigger] items[b]) by {
                        if a < s3.items@.len() && b < s3.items@.len() {
                        } else if a < s3.items@.len() {
                            assert(Self::items_apart(items[a], z));
                        } else if b < s3.items@.len() {
                            assert(Self::items_apart(items[b], z));
                        }
                    }
                    assert(s4.wf());
                    assert forall|x: u32| #[trigger] s4.live(x) == s3.live(x) by {}
                    assert forall|x: u32| #[trigger] s3.live(x) implies Self::kept(&s3, &s4, x) by {
                        assert(s4.info_index(x) == s3.info_index(x));
                        assert forall|n: int| #[trigger] s4.data_of(x, n) == s3.data_of(x, n) by {}
                        assert forall|n: int| #[trigger] s4.metadata_of(x, n) == s3.metadata_of(x, n) by {}
                    }
                }
            },
            None => {},
        }
        let ghost s4 = *self;
        let id = match self.alloc_in_last_chunk(value, value_align, metadata, metadata_align) {
            Some(id) => id,
            None => {
                proof {
                    assert(self.chunks@.last().at == 0);
                }
                unreached()
            },
        };
        proof {
            assert(s4.chunks@.last().at == 0);
            assert(old(self).last_chunk_place(value@.len() as int, value_align as int, metadata@.len() as int,
                metadata_align as int) is None);

            Self::lemma_compose(&s3, &s4, self, id.spec_raw(), value@, metadata@);
            Self::lemma_compose(&s2, &s3, self, id.spec_raw(), value@, metadata@);
            Self::lemma_compose(&s1, &s2, self, id.spec_raw(), value@, metadata@);
            Self::lemma_same_allocated(&s1, old(self), self, id.spec_raw(), value@, metadata@);
        }
        id
    }

    /// The bytes of the allocation's data: `len` of them, from the start of its data.
    pub fn data<M>(&self, id: &AllocId<M>, len: usize) -> (r: Vec<u8>)
        requires
            self.wf(),
            self.live(id.spec_raw()),
            len <= self.data_room(id.spec_raw()),
        ensures
            r@ == self.data_of(id.spec_raw(), len as int),
    {
        let c = id.chunk();
        let local = id.local();
        let ghost raw = id.spec_raw();
        proof {
            let i = self.info_index(raw);
            self.lemma_info_index(raw, i);
            assert(self.chunks@[c.0 as int].wf());
        }
        let chunk = &self.chunks[c.0 as usize];
        let start = chunk.data(local);
        slice_to_vec(slice_subrange(chunk.data.as_slice(), start, start + len))
    }

    /// The bytes of the allocation's metadata: `len` of them, from the start of its metadata,
    /// found by going back from the data as far as the byte in front of the data tells.
    pub fn metadata<M>(&self, id: &AllocId<M>, len: usize) -> (r: Vec<u8>)
        requires
            self.wf(),
            self.live(id.spec_raw()),
            len <= self.metadata_room(id.spec_raw()),
        ensures
            r@ == self.metadata_of(id.spec_raw(), len as int),
    {
        let c = id.chunk();
        let local = id.local();
        let ghost raw = id.spec_raw();
        proof {
            let i = self.info_index(raw);
            self.lemma_info_index(raw, i);
            assert(self.chunks@[c.0 as int].wf());
            assert(layout_ok(self.chunks@[c.0 as int].data@, self.chunks@[c.0 as int].info@[i], i));
            assert(self.chunks@[c.0 as int].has_data_at(i, local.0 as int));
        }
        let chunk = &self.chunks[c.0 as usize];
        let start = chunk.metadata(local);
        slice_to_vec(slice_subrange(chunk.data.as_slice(), start, start + len))
    }

    /// The data and the metadata of the allocation, as `data` and `metadata` give them.
    pub fn resolve_raw<M>(&self, id: &AllocId<M>, data_len: usize, metadata_len: usize) -> (r: (Vec<u8>, Vec<u8>))
        requires
            self.wf(),
            self.live(id.spec_raw()),
            data_len <= self.data_room(id.spec_raw()),
            metadata_len <= self.metadata_room(id.spec_raw()),
        ensures
            r.0@ == self.data_of(id.spec_raw(), data_len as int),
            r.1@ == self.metadata_of(id.spec_raw(), metadata_len as int),
    {
        (self.data(id, data_len), self.metadata(id, metadata_len))
    }

    /// Marks the allocation as reached by the mark phase. Returns whether it already was, in which
    /// case nothing changes.
    pub fn mark<M>(&mut self, id: &AllocId<M>) -> (r: bool)
        requires
            old(self).wf(),
            old(self).live(id.spec_raw()),
        ensures
            final(self).wf(),
            r == old(self).visited(id.spec_raw()),
            final(self).visited(id.spec_raw()),
            forall|x: u32| #[trigger] final(self).live(x) == old(self).live(x),
            forall|x: u32| #[trigger] old(self).live(x) ==> Self::kept_bytes(old(self), final(self), x),
            forall|x: u32| #[trigger] old(self).live(x) && x != id.spec_raw() ==> final(self).visited(x) == old(self).visited(x),
            final(self).spec_rss() == old(self).spec_rss(),
    {
        let ghost raw = id.spec_raw();
        let ghost old_self = *self;
        let c = id.chunk();
        let local = id.local();
        let ghost i = self.info_index(raw);
        proof {
            self.lemma_info_index(raw, i);
            assert(self.chunks@[c.0 as int].wf());
            assert(self.chunks@[c.0 as int].has_data_at(i, local.0 as int));
        }
        let info_id = self.chunks[c.0 as usize].info_id(local);
        let info = self.chunks[c.0 as usize].info[info_id as usize];
        if info.flags & VISITED != 0 {
            return true;
        }
        let marked = AllocInfo {
            flags: info.flags | VISITED,
            total_alloc_size: info.total_alloc_size,
            alloc_start: info.alloc_start,
            data_index: info.data_index,
        };
        self.chunks[c.0 as usize].info.set(info_id as usize, marked);
        proof {
            let f = info.flags;
            assert(f & !3u8 == 0 ==> ((f | 2) & !3u8 == 0 && ((f | 2) & 1 != 0) == (f & 1 != 0) && (f | 2) & 2 != 0)) by (bit_vector);
            Self::lemma_flags_change(&old_self, self, c.0 as int, i, marked);
        }
        false
    }

    /// Changing only the flags of one info, keeping whether it is live, keeps the allocator whole
    /// and every allocation's bytes.
    proof fn lemma_flags_change(old: &Allocator, new: &Allocator, c: int, i: int, ni: AllocInfo)
        requires
            old.wf(),
            0 <= c < old.chunks@.len(),
            0 <= i < old.chunks@[c].info@.len(),
            ({
                let oi = old.chunks@[c].info@[i];
                &&& ni.total_alloc_size == oi.total_alloc_size
                &&& ni.alloc_start == oi.alloc_start
                &&& ni.data_index == oi.data_index
                &&& ni.initialized() == oi.initialized()
                &&& ni.flags & !3u8 == 0
            }),
            new.chunks@ == old.chunks@.update(
                c,
                Chunk { data: old.chunks@[c].data, info: new.chunks@[c].info, at: old.chunks@[c].at },
            ),
            new.chunks@[c].info@ == old.chunks@[c].info@.update(i, ni),
            new.free_list@ == old.free_list@,
            new.items@ == old.items@,
            new.rss == old.rss,
        ensures
            new.wf(),
            forall|x: u32| #[trigger] new.live(x) == old.live(x),
            forall|x: u32| #[trigger] old.live(x) ==> Self::kept_bytes(old, new, x),
            forall|x: u32| #[trigger] old.live(x) && (chunk_of(x) != c || old.info_index(x) != i) ==> new.visited(x) == old.visited(x),
            forall|x: u32| #[trigger] old.live(x) && chunk_of(x) == c && old.info_index(x) == i ==> new.info_of(x) == ni,
            new.spec_rss() == old.spec_rss(),
    {
        let oc = old.chunks@[c];
        let nc = new.chunks@[c];
        assert(nc.data@ == oc.data@);
        assert(nc.at == oc.at);
        assert forall|j: int| 0 <= j < nc.info@.len() && j != i implies #[trigger] nc.info@[j] == oc.info@[j] by {}
        assert(oc.wf());
        assert(nc.wf()) by {
            assert forall|j: int| 0 <= j < nc.info@.len() implies layout_ok(nc.data@, #[trigger] nc.info@[j], j) by {
                assert(layout_ok(oc.data@, oc.info@[j], j));
            }
        }
        assert forall|e: int| 0 <= e < new.chunks@.len() implies (#[trigger] new.chunks@[e]).wf() by {
            if e != c {
                assert(old.chunks@[e].wf());
            }
        }
        if c == new.chunks@.len() - 1 {
            assert forall|j: int| 0 <= j < nc.info@.len() implies (#[trigger] nc.info@[j]).end() <= nc.at by {
                assert(old.chunks@.last() == oc);
                assert(oc.info@[j].end() <= oc.at);
            }
        }
        assert forall|a: int| 0 <= a < new.items@.len() implies new.item_ok(#[trigger] new.items@[a]) by {
            let y = new.items@[a];
            assert(old.item_ok(y));
            if y.1 as int == c {
                match y.3 {
                    Some(j) => {},
                    None => {
                        assert forall|j: int| 0 <= j < nc.info@.len() implies disjoint(
                            (#[trigger] nc.info@[j]).start(), nc.info@[j].end(), y.2 as int, y.2 + y.0) by {
                            assert(disjoint(oc.info@[j].start(), oc.info@[j].end(), y.2 as int, y.2 + y.0));
                        }
                    },
                }
            } else {
                assert(new.chunks@[y.1 as int] == old.chunks@[y.1 as int]);
            }
        }
        let fc = |ch: Chunk| live_totals(ch.info@);
        let fi = |inf: AllocInfo| live_size(inf);
        lemma_sum_update(old.chunks@, c, nc, fc);
        lemma_sum_update(oc.info@, i, ni, fi);
        assert(live_size(ni) == live_size(oc.info@[i]));
        assert(new.wf());
        assert forall|x: u32| #[trigger] new.live(x) == old.live(x) by {
            let e = chunk_of(x);
            if 0 <= e < old.chunks@.len() {
                if e != c {
                    assert(new.chunks@[e] == old.chunks@[e]);
                } else {
                    if old.live(x) {
                        let j = old.info_index(x);
                        old.lemma_info_index(x, j);
                        new.lemma_info_index(x, j);
                    }
                    if new.live(x) {
                        let j = new.info_index(x);
                        new.lemma_info_index(x, j);
                        old.lemma_info_index(x, j);
                    }
                }
            }
        }
        assert forall|x: u32| #[trigger] old.live(x) implies Self::kept_bytes(old, new, x) && ((chunk_of(x) != c || old.info_index(x) != i) ==> new.visited(x) == old.visited(x)) && ((chunk_of(x) == c && old.info_index(x) == i) ==> new.info_of(x) == ni) by {
            let e = chunk_of(x);
            let j = old.info_index(x);
            old.lemma_info_index(x, j);
            new.lemma_info_index(x, j);
            assert(new.chunks@[e].data@ == old.chunks@[e].data@);
            assert forall|n: int| #[trigger] new.data_of(x, n) == old.data_of(x, n) by {}
            assert forall|n: int| #[trigger] new.metadata_of(x, n) == old.metadata_of(x, n) by {}
        }
    }

    /// Reclaims every live allocation that the last mark phase did not reach, offering its space
    /// to the free list, and clears the mark of those it reached.
    pub fn sweep(&mut self)
        requires
            old(self).wf(),
        ensures
            final(self).wf(),
            forall|x: u32| #[trigger] final(self).live(x) == (old(self).live(x) && old(self).visited(x)),
            forall|x: u32| #[trigger] final(self).live(x) ==> Self::kept_bytes(old(self), final(self), x) && !final(self).visited(x),
            final(self).spec_rss() == old(self).marked_bytes(),
            final(self).free_list_items() == old(self).free_list_items().add(old(self).sweep_freed()),
            forall|x: u32|
                #![trigger old(self).free_item_of(x)]
                old(self).live(x) && !old(self).visited(x) ==> old(self).sweep_freed().contains(old(self).free_item_of(x))
                    && final(self).free_list_items().contains(old(self).free_item_of(x)),
            final(self).spec_chunk_count() == old(self).spec_chunk_count(),
    {
        broadcast use vstd::multiset::group_multiset_axioms;
        let ghost s0 = *self;
        let mut c: usize = 0;
        while c < self.chunks.len()
            invariant
                self.wf(),
                s0.wf(),
                c <= self.chunks@.len(),
                Self::swept_upto(&s0, self, c as int, 0),
                self.items@.to_multiset() == s0.items@.to_multiset().add(freed_upto(s0.chunks@, c as int)),
            decreases self.chunks@.len() - c,
        {
            let n = self.chunks[c].info.len();
            let mut i: usize = 0;
            while i < n
                invariant
                    self.wf(),
                    s0.wf(),
                    c < self.chunks@.len(),
                    n == self.chunks@[c as int].info@.len(),
                    i <= n,
                    Self::swept_upto(&s0, self, c as int, i as int),
                    self.items@.to_multiset() == s0.items@.to_multiset().add(freed_upto(s0.chunks@, c as int)).add(
                        freed_in_chunk(s0.chunks@[c as int], c as int, i as int),
                    ),
                decreases n - i,
            {
                let ghost before = *self;
                let info = self.chunks[c].info[i];
                proof {
                    assert(self.chunks@[c as int].info@[i as int] == info);
                    assert(info.flags == s0.chunks@[c as int].info@[i as int].flags);
                }
                if info.flags & INITIALIZED != 0 {
                    if info.flags & VISITED == 0 {
                        let freed = AllocInfo {
                            flags: info.flags & !INITIALIZED,
                            total_alloc_size: info.total_alloc_size,
                            alloc_start: info.alloc_start,
                            data_index: info.data_index,
                        };
                        proof {
                            before.lemma_live_size_bound(c as int, i as int);
                        }
                        self.chunks[c].info.set(i, freed);
                        self.push_free(
                            info.total_alloc_size,
                            FreeListEntry { allocation_start_index: info.alloc_start, chunk: ChunkId(c as u32), info_id: Some(i as u16) },
                        );
                        self.rss = self.rss - info.total_alloc_size as usize;
                        proof {
                            Self::lemma_free_step(&before, self, c as int, i as int, freed);
                            let oi = s0.chunks@[c as int].info@[i as int];
                            assert(oi.initialized() && !oi.visited());
                            let x: FreeItem = (oi.total_alloc_size, c as u32, oi.alloc_start, Some(i as u16));
                            assert(self.items@ == before.items@.push(x));
                            vstd::seq_lib::to_multiset_build(before.items@, x);
                            assert(self.items@.to_multiset() == before.items@.to_multiset().insert(x));
                            assert(freed_in_chunk(s0.chunks@[c as int], c as int, i + 1) == freed_in_chunk(
                                s0.chunks@[c as int],
                                c as int,
                                i as int,
                            ).insert(x));
                            assert(self.items@.to_multiset() =~= s0.items@.to_multiset().add(
                                freed_upto(s0.chunks@, c as int),
                            ).add(freed_in_chunk(s0.chunks@[c as int], c as int, i + 1)));
                        }
                    } else {
                        let unmarked = AllocInfo {
                            flags: info.flags & !VISITED,
                            total_alloc_size: info.total_alloc_size,
                            alloc_start: info.alloc_start,
                            data_index: info.data_index,
                        };
                        self.chunks[c].info.set(i, unmarked);
                        proof {
                            let f = info.flags;
                            assert(f & !3u8 == 0 ==> ((f & !2u8) & !3u8 == 0 && ((f & !2u8) & 1 != 0) == (f & 1 != 0))) by (bit_vector);
                            Self::lemma_flags_change(&before, self, c as int, i as int, unmarked);
                        }
                    }
                }
                proof {
                    let oi = s0.chunks@[c as int].info@[i as int];
                    if !(oi.initialized() && !oi.visited()) {
                        assert(freed_in_chunk(s0.chunks@[c as int], c as int, i + 1) == freed_in_chunk(
                            s0.chunks@[c as int],
                            c as int,
                            i as int,
                        ));
                    }
                    let f = info.flags;
                    assert(swept(f) == if f & INITIALIZED != 0 {
                        if f & VISITED == 0 { f & !INITIALIZED } else { f & !VISITED }
                    } else {
                        f
                    });
                    Self::lemma_swept_step(&s0, &before, self, c as int, i as int);
                }
                i = i + 1;
            }
            proof {
                Self::lemma_swept_next_chunk(&s0, self, c as int);
                assert(self.items@.to_multiset() =~= s0.items@.to_multiset().add(freed_upto(s0.chunks@, c + 1)));
            }
            c = c + 1;
        }
        proof {
            Self::lemma_sweep_result(&s0, self);
            Self::lemma_swept_bytes(&s0, self);
            assert forall|x: u32| #![trigger s0.free_item_of(x)] s0.live(x) && !s0.visited(x) implies s0.sweep_freed().contains(
                s0.free_item_of(x),
            ) && self.free_list_items().contains(s0.free_item_of(x)) by {
                let e = chunk_of(x);
                let i = s0.info_index(x);
                assert(s0.chunks@[e].has_data_at(i, local_of(x)) && s0.chunks@[e].info@[i].initialized());
                assert(s0.chunks@[e].wf());
                lemma_freed_upto_contains(s0.chunks@, s0.chunks@.len() as int, e, i);
            }
        }
    }

    /// Once every allocation is swept, the live bytes are the bytes that were live and marked.
    proof fn lemma_swept_bytes(s0: &Allocator, s: &Allocator)
        requires
            Self::swept_upto(s0, s, s0.chunks@.len() as int, 0),
        ensures
            s.spec_rss() == s0.marked_bytes(),
    {
        let fc = |c: Chunk| live_totals(c.info@);
        let gc = |c: Chunk| marked_totals(c.info@);
        assert forall|e: int| 0 <= e < s.chunks@.len() implies fc(#[trigger] s.chunks@[e]) == gc(s0.chunks@[e]) by {
            let nc = s.chunks@[e];
            let oc = s0.chunks@[e];
            assert forall|j: int| 0 <= j < nc.info@.len() implies live_size(#[trigger] nc.info@[j]) == marked_size(oc.info@[j]) by {
                let oi = oc.info@[j];
                Self::lemma_swept_bits(oi.flags);
            }
            lemma_sum_pointwise(nc.info@, |i: AllocInfo| live_size(i), oc.info@, |i: AllocInfo| marked_size(i));
        }
        lemma_sum_pointwise(s.chunks@, fc, s0.chunks@, gc);
    }

    /// Sweeping keeps a flag live exactly when it was live and marked, and clears the mark.
    proof fn lemma_swept_bits(f: u8)
        ensures
            (swept(f) & INITIALIZED != 0) == (f & INITIALIZED != 0 && f & VISITED != 0),
            swept(f) & INITIALIZED != 0 ==> swept(f) & VISITED == 0,
            f & !3u8 == 0 ==> swept(f) & !3u8 == 0,
    {
        assert((if f & 1u8 != 0 { if f & 2u8 == 0 { f & !1u8 } else { f & !2u8 } } else { f }) & 1u8 != 0 <==> (f & 1u8
            != 0 && f & 2u8 != 0)) by (bit_vector);
        assert((if f & 1u8 != 0 { if f & 2u8 == 0 { f & !1u8 } else { f & !2u8 } } else { f }) & 1u8 != 0 ==> (if f & 1u8
            != 0 { if f & 2u8 == 0 { f & !1u8 } else { f & !2u8 } } else { f }) & 2u8 == 0) by (bit_vector);
        assert(f & !3u8 == 0 ==> (if f & 1u8 != 0 { if f & 2u8 == 0 { f & !1u8 } else { f & !2u8 } } else { f }) & !3u8
            == 0) by (bit_vector);
    }

    /// The live sizes are at least the size of any live allocation.
    proof fn lemma_live_size_bound(&self, c: int, i: int)
        requires
            self.wf(),
            0 <= c < self.chunks@.len(),
            0 <= i < self.chunks@[c].info@.len(),
            self.chunks@[c].info@[i].initialized(),
        ensures
            self.rss >= self.chunks@[c].info@[i].total_alloc_size,
    {
        let fc = |ch: Chunk| live_totals(ch.info@);
        let fi = |inf: AllocInfo| live_size(inf);
        assert forall|e: int| 0 <= e < self.chunks@.len() implies fc(#[trigger] self.chunks@[e]) >= 0 by {
            lemma_sum_nonneg(self.chunks@[e].info@, fi);
        }
        lemma_sum_ge(self.chunks@[c].info@, i, fi);
        lemma_sum_ge(self.chunks@, c, fc);
    }

    /// Reclaiming one live allocation, and offering its space under its own info, keeps the
    /// allocator whole.
    proof fn lemma_free_step(old: &Allocator, new: &Allocator, c: int, i: int, freed: AllocInfo)
        requires
            old.wf(),
            0 <= c < old.chunks@.len(),
            0 <= i < old.chunks@[c].info@.len(),
            i < 65536,
            ({
                let oi = old.chunks@[c].info@[i];
                &&& oi.initialized()
                &&& freed.total_alloc_size == oi.total_alloc_size
                &&& freed.alloc_start == oi.alloc_start
                &&& freed.data_index == oi.data_index
                &&& freed.flags == oi.flags & !INITIALIZED
            }),
            new.chunks@ == old.chunks@.update(
                c,
                Chunk { data: old.chunks@[c].data, info: new.chunks@[c].info, at: old.chunks@[c].at },
            ),
            new.chunks@[c].info@ == old.chunks@[c].info@.update(i, freed),
            new.fl_ok(),
            new.items@ == old.items@.push((freed.total_alloc_size, c as u32, freed.alloc_start, Some(i as u16))),
            new.rss == old.rss - freed.total_alloc_size,
        ensures
            new.wf(),
    {
        let oc = old.chunks@[c];
        let nc = new.chunks@[c];
        let oi = oc.info@[i];
        let f = oi.flags;
        assert(f & !3u8 == 0 ==> (f & !1u8) & !3u8 == 0 && (f & !1u8) & 1u8 == 0) by (bit_vector);
        assert(oc.wf());
        assert forall|j: int| 0 <= j < nc.info@.len() && j != i implies #[trigger] nc.info@[j] == oc.info@[j] by {}
        assert(nc.wf()) by {
            assert forall|j: int| 0 <= j < nc.info@.len() implies layout_ok(nc.data@, #[trigger] nc.info@[j], j) by {
                assert(layout_ok(oc.data@, oc.info@[j], j));
            }
        }
        assert forall|e: int| 0 <= e < new.chunks@.len() implies (#[trigger] new.chunks@[e]).wf() by {
            if e != c {
                assert(old.chunks@[e].wf());
            }
        }
        if c == new.chunks@.len() - 1 {
            assert forall|j: int| 0 <= j < nc.info@.len() implies (#[trigger] nc.info@[j]).end() <= nc.at by {
                assert(old.chunks@.last() == oc);
                assert(oc.info@[j].end() <= oc.at);
            }
        }
        let z: FreeItem = (freed.total_alloc_size, c as u32, freed.alloc_start, Some(i as u16));
        let rest = old.items@;
        assert forall|a: int| 0 <= a < rest.len() implies new.item_ok(#[trigger] rest[a]) && Self::items_apart(rest[a], z) by {
            let y = rest[a];
            assert(old.item_ok(y));
            if y.1 as int == c {
                match y.3 {
                    Some(j) => {
                        assert(j as int != i);
                        assert(nc.info@[j as int] == oc.info@[j as int]);
                    },
                    None => {
                        assert forall|j: int| 0 <= j < nc.info@.len() implies disjoint(
                            (#[trigger] nc.info@[j]).start(), nc.info@[j].end(), y.2 as int, y.2 + y.0) by {
                            assert(disjoint(oc.info@[j].start(), oc.info@[j].end(), y.2 as int, y.2 + y.0));
                        }
                    },
                }
            } else {
                assert(new.chunks@[y.1 as int] == old.chunks@[y.1 as int]);
            }
        }
        assert(nc.info@[i] == freed);
        assert(new.item_ok(z));
        let items = new.items@;
        assert forall|a: int| 0 <= a < items.len() implies new.item_ok(#[trigger] items[a]) by {
            if a < rest.len() {
                assert(items[a] == rest[a]);
            }
        }
        assert forall|a: int, b: int| 0 <= a < items.len() && 0 <= b < items.len() && a != b implies Self::items_apart(
            #[trigger] items[a], #[trigger] items[b]) by {
            if a < rest.len() && b < rest.len() {
            } else if a < rest.len() {
                assert(Self::items_apart(items[a], z));
            } else if b < rest.len() {
                assert(Self::items_apart(items[b], z));
            }
        }
        let fc = |ch: Chunk| live_totals(ch.info@);
        let fi = |inf: AllocInfo| live_size(inf);
        lemma_sum_update(old.chunks@, c, nc, fc);
        lemma_sum_update(oc.info@, i, freed, fi);
        assert(live_size(freed) == 0);
    }

    /// One more info swept.
    proof fn lemma_swept_step(s0: &Allocator, before: &Allocator, after: &Allocator, c: int, i: int)
        requires
            Self::swept_upto(s0, before, c, i),
            0 <= c < before.chunks@.len(),
            0 <= i < before.chunks@[c].info@.len(),
            after.chunks@.len() == before.chunks@.len(),
            forall|e: int| 0 <= e < before.chunks@.len() && e != c ==> #[trigger] after.chunks@[e] == before.chunks@[e],
            after.chunks@[c].data@ == before.chunks@[c].data@,
            after.chunks@[c].at == before.chunks@[c].at,
            after.chunks@[c].info@.len() == before.chunks@[c].info@.len(),
            forall|j: int| 0 <= j < before.chunks@[c].info@.len() && j != i ==> #[trigger] after.chunks@[c].info@[j]
                == before.chunks@[c].info@[j],
            ({
                let bi = before.chunks@[c].info@[i];
                let ai = after.chunks@[c].info@[i];
                &&& ai.total_alloc_size == bi.total_alloc_size
                &&& ai.alloc_start == bi.alloc_start
                &&& ai.data_index == bi.data_index
                &&& ai.flags == swept(bi.flags)
            }),
        ensures
            Self::swept_upto(s0, after, c, i + 1),
    {
        assert forall|e: int| 0 <= e < s0.chunks@.len() implies {
            let oc = #[trigger] s0.chunks@[e];
            let nc = after.chunks@[e];
            &&& nc.data@ == oc.data@
            &&& nc.at == oc.at
            &&& nc.info@.len() == oc.info@.len()
            &&& forall|j: int| 0 <= j < oc.info@.len() ==> {
                let oi = #[trigger] oc.info@[j];
                let ni = nc.info@[j];
                &&& ni.total_alloc_size == oi.total_alloc_size
                &&& ni.alloc_start == oi.alloc_start
                &&& ni.data_index == oi.data_index
                &&& ni.flags == if e < c || (e == c && j < i + 1) {
                    swept(oi.flags)
                } else {
                    oi.flags
                }
            }
        } by {
            let oc = s0.chunks@[e];
            if e == c {
                assert forall|j: int| 0 <= j < oc.info@.len() implies {
                    let oi = #[trigger] oc.info@[j];
                    let ni = after.chunks@[e].info@[j];
                    &&& ni.total_alloc_size == oi.total_alloc_size
                    &&& ni.alloc_start == oi.alloc_start
                    &&& ni.data_index == oi.data_index
                    &&& ni.flags == if e < c || (e == c && j < i + 1) {
                        swept(oi.flags)
                    } else {
                        oi.flags
                    }
                } by {
                    let bi = before.chunks@[c].info@[j];
                    assert(bi.flags == if j < i { swept(oc.info@[j].flags) } else { oc.info@[j].flags });
                }
            }
        }
    }

    /// A whole chunk swept.
    proof fn lemma_swept_next_chunk(s0: &Allocator, s: &Allocator, c: int)
        requires
            0 <= c < s.chunks@.len(),
            Self::swept_upto(s0, s, c, s.chunks@[c].info@.len() as int),
        ensures
            Self::swept_upto(s0, s, c + 1, 0),
    {
    }

    /// After the sweep: the live allocations are those that were live and marked, unmarked now,
    /// with the same bytes.
    proof fn lemma_sweep_result(s0: &Allocator, s: &Allocator)
        requires
            s0.wf(),
            s.wf(),
            Self::swept_upto(s0, s, s0.chunks@.len() as int, 0),
        ensures
            forall|x: u32| #[trigger] s.live(x) == (s0.live(x) && s0.visited(x)),
            forall|x: u32| #[trigger] s.live(x) ==> Self::kept_bytes(s0, s, x) && !s.visited(x),
    {
        assert forall|x: u32| #[trigger] s.live(x) == (s0.live(x) && s0.visited(x)) && (s.live(x) ==> Self::kept_bytes(s0, s, x)
            && !s.visited(x)) by {
            let c = chunk_of(x);
            if 0 <= c < s0.chunks@.len() {
                let oc = s0.chunks@[c];
                let nc = s.chunks@[c];
                if s.live(x) {
                    let j = s.info_index(x);
                    s.lemma_info_index(x, j);
                    Self::lemma_swept_bits(oc.info@[j].flags);
                    s0.lemma_info_index(x, j);
                    assert forall|n: int| #[trigger] s.data_of(x, n) == s0.data_of(x, n) by {}
                    assert forall|n: int| #[trigger] s.metadata_of(x, n) == s0.metadata_of(x, n) by {}
                }
                if s0.live(x) && s0.visited(x) {
                    let j = s0.info_index(x);
                    s0.lemma_info_index(x, j);
                    Self::lemma_swept_bits(oc.info@[j].flags);
                    s.lemma_info_index(x, j);
                }
            }
        }
    }

    /// The last entry of the size at `k` is one of the items, and what the items promise holds of it.
    proof fn lemma_group_item(&self, k: int)
        requires
            self.wf(),
            0 <= k < self.free_list@.len(),
        ensures
            ({
                let g = self.free_list@[k];
                let e = free_entries(g.1).last();
                let x = (g.0, e.0, e.1, e.2);
                &&& free_entries(g.1).len() > 0
                &&& self.items@.contains(x)
                &&& self.item_ok(x)
            }),
    {
        broadcast use vstd::seq_lib::group_to_multiset_ensures;
        broadcast use vstd::multiset::group_multiset_axioms;
        let fl = self.free_list@;
        let g = fl[k];
        let e = free_entries(g.1).last();
        let x = (g.0, e.0, e.1, e.2);
        assert(group_items(g).last() == x);
        assert(group_items(g).contains(x)) by {
            assert(group_items(g)[group_items(g).len() - 1] == x);
        }
        lemma_free_items_remove(fl, k);
        assert(group_items(g).to_multiset().count(x) > 0);
        assert(free_items(fl.remove(k)).count(x) >= 0);
        assert(free_items(fl).count(x) > 0);
        assert(self.items@.to_multiset().count(x) > 0);
        let idx = choose|idx: int| 0 <= idx < self.items@.len() && self.items@[idx] == x;
        assert(self.item_ok(self.items@[idx]));
    }

    /// The number of chunks.
    pub fn chunk_count(&self) -> (r: usize)
        ensures
            r == self.spec_chunk_count(),
    {
        self.chunks.len()
    }

    /// The number of bytes that live allocations take, their paddings and headers included.
    pub fn rss(&self) -> (r: usize)
        requires
            self.wf(),
        ensures
            r == self.spec_rss(),
    {
        self.rss
    }
}

} // verus!
