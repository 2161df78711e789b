use vstd::prelude::*;
use vstd::arithmetic::div_mod::lemma_fundamental_div_mod;
use vstd::relations::injective_on;
use vstd::set_lib::{lemma_int_range, lemma_len_subset, lemma_map_size, set_int_range};

verus! {

/// The size of every chunk, in bytes.
pub const CHUNK_SIZE: usize = 4096;

/// The largest size of a value that can be allocated.
pub const MAX_VALUE_SIZE: usize = 1023;

/// The largest size of the metadata of an allocation.
pub const MAX_METADATA_SIZE: usize = 255;

/// The allocation has been made and not yet reclaimed.
pub const INITIALIZED: u8 = 1;

/// The last mark phase reached the allocation.
pub const VISITED: u8 = 2;

/// The bytes that lead up to `pos` reaching a multiple of `align`.
pub open spec fn pad(pos: int, align: int) -> int {
    (align - pos % align) % align
}

/// Where the pieces of an allocation go when it starts at `at`: the padding in front of the
/// metadata, the padding in front of the data, the offset of the data and the total size.
/// The final room check measures from `chunk_at` (the chunk's fill position), whatever `at` is.
/// Offsets are taken from the start of the chunk, whose memory is aligned to every alignment in
/// use.
pub open spec fn alloc_layout(chunk_at: int, at: int, size_t: int, align_t: int, size_m: int, align_m: int) -> Option<(int, int, int, int)> {
    if at + 3 > CHUNK_SIZE {
        None
    } else {
        let hp = pad(at + 2, align_m);
        if hp > 255 {
            None
        } else {
            let t1 = 2 + hp + size_m + 1;
            if at + t1 + 1 > CHUNK_SIZE {
                None
            } else {
                let dp = pad(at + t1, align_t);
                if dp > 255 {
                    None
                } else {
                    let total = t1 + dp + size_t;
                    if chunk_at + total > CHUNK_SIZE {
                        None
                    } else {
                        Some((hp, dp, at + t1 + dp, total))
                    }
                }
            }
        }
    }
}

/// The sizes and alignments that every allocation must meet.
pub open spec fn valid_payload(size_t: int, align_t: int, size_m: int, align_m: int) -> bool {
    &&& 1 <= size_t <= MAX_VALUE_SIZE
    &&& size_m <= MAX_METADATA_SIZE
    &&& 1 <= align_t
    &&& 1 <= align_m
    &&& size_m + align_t <= 255
}

/// The byte at `p` of a chunk after an allocation has been written at `s` with the given paddings,
/// info id `k`, metadata `m` and value `v`: a two-byte little-endian info id, the metadata, the
/// data padding (left as it was), one byte telling how far back the metadata starts, the value.
pub open spec fn byte_after_write(data: Seq<u8>, s: int, hp: int, dp: int, k: int, m: Seq<u8>, v: Seq<u8>, p: int) -> u8 {
    let idp = s + hp;
    let mp = idp + 2;
    let bp = mp + m.len() + dp;
    let d = bp + 1;
    if p == idp {
        (k % 256) as u8
    } else if p == idp + 1 {
        (k / 256) as u8
    } else if mp <= p < mp + m.len() {
        m[p - mp]
    } else if p == bp {
        (m.len() + dp + 1) as u8
    } else if d <= p < d + v.len() {
        v[p - d]
    } else {
        data[p]
    }
}

/// The chunk's bytes after an allocation has been written.
pub open spec fn data_after_write(data: Seq<u8>, s: int, hp: int, dp: int, k: int, m: Seq<u8>, v: Seq<u8>) -> Seq<u8> {
    Seq::new(data.len(), |p: int| byte_after_write(data, s, hp, dp, k, m, v, p))
}

/// The offset back from the data at which the metadata starts: the byte just before the data.
pub open spec fn back_offset(data: Seq<u8>, d: int) -> int {
    data[d - 1] as int
}

/// The offset of the metadata of the allocation whose data is at `d`.
pub open spec fn metadata_pos(data: Seq<u8>, d: int) -> int {
    d - back_offset(data, d)
}

/// The info id stored, little-endian, in the two bytes in front of the metadata.
pub open spec fn stored_info_id(data: Seq<u8>, d: int) -> int {
    data[metadata_pos(data, d) - 2] + 256 * data[metadata_pos(data, d) - 1]
}

/// What the chunk records of one allocation.
#[derive(Clone, Copy)]
pub struct AllocInfo {
    pub flags: u8,
    pub total_alloc_size: u16,
    pub alloc_start: u16,
    pub data_index: u16,
}

impl AllocInfo {
    pub open spec fn start(self) -> int {
        self.alloc_start as int
    }

    pub open spec fn end(self) -> int {
        self.alloc_start + self.total_alloc_size
    }

    pub open spec fn initialized(self) -> bool {
        self.flags & INITIALIZED != 0
    }

    pub open spec fn visited(self) -> bool {
        self.flags & VISITED != 0
    }
}

/// The bytes of the allocation with info `info` and id `k` lead from its data back to its metadata
/// and its info id, all within its range.
pub open spec fn layout_ok(data: Seq<u8>, info: AllocInfo, k: int) -> bool {
    let d = info.data_index as int;
    &&& info.start() + 3 <= d <= info.end()
    &&& 1 <= back_offset(data, d)
    &&& info.start() <= metadata_pos(data, d) - 2
    &&& stored_info_id(data, d) == k
}

/// Two ranges of a chunk do not overlap.
pub open spec fn disjoint(s1: int, e1: int, s2: int, e2: int) -> bool {
    e1 <= s2 || e2 <= s1
}

/// The index of a chunk in the allocator.
#[derive(Debug, Clone, Copy, PartialEq, Eq)]
pub struct ChunkId(pub u32);

/// The offset of an allocation's data in its chunk.
#[derive(Debug, Clone, Copy, PartialEq, Eq)]
pub struct LocalAllocId(pub u16);

/// The bytes `bytes` put in place at offset `at`.
pub open spec fn splice(data: Seq<u8>, at: int, bytes: Seq<u8>) -> Seq<u8> {
    Seq::new(data.len(), |p: int| if at <= p < at + bytes.len() { bytes[p - at] } else { data[p] })
}

/// The sum of `f` over a sequence.
pub open spec fn sum_of<T>(s: Seq<T>, f: spec_fn(T) -> int) -> int
    decreases s.len(),
{
    if s.len() == 0 {
        0
    } else {
        sum_of(s.drop_last(), f) + f(s.last())
    }
}

pub proof fn lemma_sum_update<T>(s: Seq<T>, i: int, x: T, f: spec_fn(T) -> int)
    requires
        0 <= i < s.len(),
    ensures
        sum_of(s.update(i, x), f) == sum_of(s, f) - f(s[i]) + f(x),
    decreases s.len(),
{
    if i == s.len() - 1 {
        assert(s.update(i, x).drop_last() =~= s.drop_last());
    } else {
        lemma_sum_update(s.drop_last(), i, x, f);
        assert(s.update(i, x).drop_last() =~= s.drop_last().update(i, x));
    }
}

pub proof fn lemma_sum_push<T>(s: Seq<T>, x: T, f: spec_fn(T) -> int)
    ensures
        sum_of(s.push(x), f) == sum_of(s, f) + f(x),
{
    assert(s.push(x).drop_last() =~= s);
}

pub proof fn lemma_sum_ge<T>(s: Seq<T>, i: int, f: spec_fn(T) -> int)
    requires
        0 <= i < s.len(),
        forall|j: int| 0 <= j < s.len() ==> f(#[trigger] s[j]) >= 0,
    ensures
        sum_of(s, f) >= f(s[i]),
    decreases s.len(),
{
    lemma_sum_nonneg(s.drop_last(), f);
    if i < s.len() - 1 {
        lemma_sum_ge(s.drop_last(), i, f);
    }
}

pub proof fn lemma_sum_nonneg<T>(s: Seq<T>, f: spec_fn(T) -> int)
    requires
        forall|j: int| 0 <= j < s.len() ==> f(#[trigger] s[j]) >= 0,
    ensures
        sum_of(s, f) >= 0,
    decreases s.len(),
{
    if s.len() > 0 {
        lemma_sum_nonneg(s.drop_last(), f);
    }
}

/// Sums of two sequences of the same length agree where the summed values agree pointwise.
pub proof fn lemma_sum_pointwise<T, U>(a: Seq<T>, f: spec_fn(T) -> int, b: Seq<U>, g: spec_fn(U) -> int)
    requires
        a.len() == b.len(),
        forall|j: int| 0 <= j < a.len() ==> f(#[trigger] a[j]) == g(b[j]),
    ensures
        sum_of(a, f) == sum_of(b, g),
    decreases a.len(),
{
    if a.len() > 0 {
        assert forall|j: int| 0 <= j < a.drop_last().len() implies f(#[trigger] a.drop_last()[j]) == g(b.drop_last()[j]) by {
            assert(a.drop_last()[j] == a[j]);
        }
        lemma_sum_pointwise(a.drop_last(), f, b.drop_last(), g);
        assert(f(a.last()) == g(b.last()));
    }
}

/// The bytes an allocation takes if it is live and the last mark phase reached it.
pub open spec fn marked_size(info: AllocInfo) -> int {
    if info.initialized() && info.visited() {
        info.total_alloc_size as int
    } else {
        0
    }
}

/// The sum of the sizes of the allocations that are live and marked.
pub open spec fn marked_totals(infos: Seq<AllocInfo>) -> int {
    sum_of(infos, |i: AllocInfo| marked_size(i))
}

/// The bytes an allocation takes while it is live.
pub open spec fn live_size(info: AllocInfo) -> int {
    if info.initialized() {
        info.total_alloc_size as int
    } else {
        0
    }
}

/// The sum of the sizes of the allocations that are live (initialized).
pub open spec fn live_totals(infos: Seq<AllocInfo>) -> int {
    sum_of(infos, |i: AllocInfo| live_size(i))
}

/// A fixed-size region that allocations are carved from, one after the other.
pub struct Chunk {
    pub data: Vec<u8>,
    pub info: Vec<AllocInfo>,
    pub at: usize,
}

/// The info of a live allocation.
pub open spec fn new_info(start: int, total: int, d: int) -> AllocInfo {
    AllocInfo { flags: INITIALIZED, total_alloc_size: total as u16, alloc_start: start as u16, data_index: d as u16 }
}

/// Writing an allocation at `s` of `total` bytes changes no byte outside `s..s + total`.
pub proof fn lemma_write_outside(data: Seq<u8>, s: int, hp: int, dp: int, k: int, m: Seq<u8>, v: Seq<u8>, p: int)
    requires
        hp >= 0,
        dp >= 0,
        p < s || p >= s + hp + 3 + m.len() + dp + v.len(),
        0 <= p < data.len(),
    ensures
        data_after_write(data, s, hp, dp, k, m, v)[p] == data[p],
{
}

/// An allocation elsewhere in the chunk keeps its layout when another is written.
pub proof fn lemma_write_keeps_layout(data: Seq<u8>, s: int, hp: int, dp: int, k: int, m: Seq<u8>, v: Seq<u8>, inf: AllocInfo, j: int)
    requires
        hp >= 0,
        dp >= 0,
        data.len() == CHUNK_SIZE,
        inf.end() <= CHUNK_SIZE,
        layout_ok(data, inf, j),
        disjoint(inf.start(), inf.end(), s, s + hp + 3 + m.len() + dp + v.len()),
    ensures
        layout_ok(data_after_write(data, s, hp, dp, k, m, v), inf, j),
{
    let d = inf.data_index as int;
    let nd = data_after_write(data, s, hp, dp, k, m, v);
    lemma_write_outside(data, s, hp, dp, k, m, v, d - 1);
    let mp = metadata_pos(data, d);
    lemma_write_outside(data, s, hp, dp, k, m, v, mp - 2);
    lemma_write_outside(data, s, hp, dp, k, m, v, mp - 1);
}

/// A freshly written allocation has its layout.
pub proof fn lemma_write_layout(data: Seq<u8>, s: int, hp: int, dp: int, k: int, m: Seq<u8>, v: Seq<u8>)
    requires
        0 <= s,
        hp >= 0,
        dp >= 0,
        0 <= k < 65536,
        m.len() + dp + 1 <= 255,
        s + hp + 3 + m.len() + dp + v.len() <= data.len(),
        data.len() == CHUNK_SIZE,
    ensures
        layout_ok(
            data_after_write(data, s, hp, dp, k, m, v),
            new_info(s, hp + 3 + m.len() + dp + v.len(), s + hp + 3 + m.len() + dp),
            k,
        ),
{
    let nd = data_after_write(data, s, hp, dp, k, m, v);
    let d = s + hp + 3 + m.len() + dp;
    assert(nd[d - 1] == (m.len() + dp + 1) as u8);
    assert(metadata_pos(nd, d) == s + hp + 2);
    lemma_fundamental_div_mod(k, 256);
    assert(nd[s + hp] == (k % 256) as u8);
    assert(nd[s + hp + 1] == (k / 256) as u8);
}

/// There is no room for an allocation.
#[derive(Debug)]
pub struct OutOfSpace;

/// Where the pieces of an allocation go.
pub struct AllocSizeInfo {
    pub header_padding: usize,
    pub data_padding: usize,
    pub data_index: u16,
    pub total: usize,
}

impl Chunk {
    /// The index of an info whose data sits at `local`.
    pub open spec fn has_data_at(&self, i: int, local: int) -> bool {
        0 <= i < self.info@.len() && self.info@[i].data_index == local
    }

    /// The shape of a chunk, and of every allocation recorded in it.
    pub open spec fn wf(&self) -> bool {
        &&& self.data@.len() == CHUNK_SIZE
        &&& self.at <= CHUNK_SIZE
        &&& forall|i: int| 0 <= i < self.info@.len() ==> {
            let inf = #[trigger] self.info@[i];
            &&& inf.total_alloc_size >= 3
            &&& inf.end() <= CHUNK_SIZE
            &&& inf.flags & !3u8 == 0
            &&& layout_ok(self.data@, inf, i)
        }
        &&& forall|i: int, j: int|
            0 <= i < self.info@.len() && 0 <= j < self.info@.len() && i != j ==> disjoint(
                #[trigger] self.info@[i].start(),
                self.info@[i].end(),
                #[trigger] self.info@[j].start(),
                self.info@[j].end(),
            )
    }

    /// No two infos start at the same offset, so a chunk has at most as many infos as bytes.
    pub proof fn lemma_info_count(&self)
        requires
            self.wf(),
        ensures
            self.info@.len() <= CHUNK_SIZE,
    {
        let n = self.info@.len() as int;
        let idx = set_int_range(0, n);
        let f = |i: int| self.info@[i].start();
        lemma_int_range(0, n);
        lemma_int_range(0, CHUNK_SIZE as int);
        assert(injective_on(f, idx)) by {
            assert forall|i: int, j: int| idx.contains(i) && idx.contains(j) && #[trigger] f(i) == #[trigger] f(j) implies i == j by {
                if i != j {
                    assert(disjoint(self.info@[i].start(), self.info@[i].end(), self.info@[j].start(), self.info@[j].end()));
                }
            }
        }
        let starts = idx.map(f);
        lemma_map_size(idx, starts, f);
        assert(starts.subset_of(set_int_range(0, CHUNK_SIZE as int))) by {
            assert forall|x: int| starts.contains(x) implies set_int_range(0, CHUNK_SIZE as int).contains(x) by {
                let i = choose|i: int| idx.contains(i) && f(i) == x;
                assert(self.info@[i].end() <= CHUNK_SIZE);
            }
        }
        lemma_len_subset(starts, set_int_range(0, CHUNK_SIZE as int));
    }

    /// Two infos never record their data at the same offset.
    pub proof fn lemma_data_index_unique(&self, i: int, j: int)
        requires
            self.wf(),
            0 <= i < self.info@.len(),
            0 <= j < self.info@.len(),
            self.info@[i].data_index == self.info@[j].data_index,
        ensures
            i == j,
    {
        if i != j {
            assert(disjoint(self.info@[i].start(), self.info@[i].end(), self.info@[j].start(), self.info@[j].end()));
            assert(layout_ok(self.data@, self.info@[i], i));
            assert(layout_ok(self.data@, self.info@[j], j));
        }
    }

    /// The offset of the data of the allocation at `local`.
    pub fn data(&self, local: LocalAllocId) -> (r: usize)
        ensures
            r == local.0,
    {
        local.0 as usize
    }

    /// The offset of the metadata of the allocation at `local`: as far back from the data as the
    /// byte in front of the data tells.
    pub fn metadata(&self, local: LocalAllocId) -> (r: usize)
        requires
            self.wf(),
            exists|i: int| self.has_data_at(i, local.0 as int),
        ensures
            r == metadata_pos(self.data@, local.0 as int),
    {
        let ghost i = choose|i: int| self.has_data_at(i, local.0 as int);
        assert(layout_ok(self.data@, self.info@[i], i));
        let id = local.0 as usize;
        let offset = self.data[id - 1];
        id - offset as usize
    }

    /// The info id stored in front of the metadata of the allocation at `local`.
    pub fn info_id(&self, local: LocalAllocId) -> (r: u16)
        requires
            self.wf(),
            exists|i: int| self.has_data_at(i, local.0 as int),
        ensures
            r == stored_info_id(self.data@, local.0 as int),
            forall|i: int| self.has_data_at(i, local.0 as int) ==> r == i,
    {
        let ghost i = choose|i: int| self.has_data_at(i, local.0 as int);
        assert(layout_ok(self.data@, self.info@[i], i));
        let id = local.0 as usize;
        let metadata_offset = self.data[id - 1] as usize;
        let info_index_offset = metadata_offset + 2;
        let p = id - info_index_offset;
        let lo = self.data[p] as u16;
        let hi = self.data[p + 1] as u16;
        proof {
            assert forall|j: int| self.has_data_at(j, local.0 as int) implies stored_info_id(self.data@, local.0 as int) == j by {
                assert(layout_ok(self.data@, self.info@[j], j));
            }
        }
        lo + 256 * hi
    }

    pub fn new() -> (r: Self)
        ensures
            r.wf(),
            r.at == 0,
            r.info@.len() == 0,
    {
        let mut data: Vec<u8> = Vec::new();
        let mut i: usize = 0;
        while i < CHUNK_SIZE
            invariant
                i <= CHUNK_SIZE,
                data@.len() == i,
            decreases CHUNK_SIZE - i,
        {
            data.push(0);
            i = i + 1;
        }
        Chunk { data, info: Vec::new(), at: 0 }
    }

    fn ensure_space(&self, bytes: usize) -> (r: Result<(), OutOfSpace>)
        requires
            self.at <= CHUNK_SIZE,
            bytes <= CHUNK_SIZE,
        ensures
            r is Ok <==> self.at + bytes <= CHUNK_SIZE,
    {
        if self.at + bytes > CHUNK_SIZE {
            Err(OutOfSpace)
        } else {
            Ok(())
        }
    }

    /// Computes the size that an allocation would take up at a given position. Returns an error if
    /// the allocation won't fit.
    pub fn size_for_alloc_at(&self, at: usize, size_t: usize, align_t: usize, size_m: usize, align_m: usize) -> (r: Result<AllocSizeInfo, OutOfSpace>)
        requires
            self.at <= CHUNK_SIZE,
            at <= CHUNK_SIZE,
            valid_payload(size_t as int, align_t as int, size_m as int, align_m as int),
        ensures
            match alloc_layout(self.at as int, at as int, size_t as int, align_t as int, size_m as int, align_m as int) {
                Some((hp, dp, d, total)) => r matches Ok(info) && info.header_padding == hp && info.data_padding == dp
                    && info.data_index == d && info.total == total,
                None => r is Err,
            },
    {
        let mut total: usize = 2;
        if at + total + 1 > CHUNK_SIZE {
            return Err(OutOfSpace);
        }
        let header_padding = (align_m - (at + total) % align_m) % align_m;
        if header_padding > 255 {
            return Err(OutOfSpace);
        }
        total = total + header_padding;
        total = total + size_m;
        total = total + 1;
        if at + total + 1 > CHUNK_SIZE {
            return Err(OutOfSpace);
        }
        let data_padding = (align_t - (at + total) % align_t) % align_t;
        if data_padding > 255 {
            return Err(OutOfSpace);
        }
        total = total + data_padding;
        let data_index = (at + total) as u16;
        total = total + size_t;
        match self.ensure_space(total) {
            Ok(()) => {},
            Err(e) => {
                return Err(e);
            },
        }
        Ok(AllocSizeInfo { header_padding, data_padding, data_index, total })
    }

    /// Writes one byte at the fill position and moves past it.
    fn push(&mut self, byte: u8) -> (r: Result<(), OutOfSpace>)
        requires
            old(self).data@.len() == CHUNK_SIZE,
            old(self).at <= CHUNK_SIZE,
        ensures
            r is Ok <==> old(self).at + 1 <= CHUNK_SIZE,
            final(self).info@ == old(self).info@,
            r is Ok ==> final(self).data@ == old(self).data@.update(old(self).at as int, byte)
                && final(self).at == old(self).at + 1,
            r is Err ==> *final(self) == *old(self),
    {
        match self.ensure_space(1) {
            Ok(()) => {},
            Err(e) => {
                return Err(e);
            },
        }
        self.data.set(self.at, byte);
        self.at = self.at + 1;
        Ok(())
    }

    /// Writes a two-byte number, little-endian, at the fill position and moves past it.
    fn push_u16(&mut self, n: u16) -> (r: Result<(), OutOfSpace>)
        requires
            old(self).data@.len() == CHUNK_SIZE,
            old(self).at <= CHUNK_SIZE,
        ensures
            r is Ok <==> old(self).at + 2 <= CHUNK_SIZE,
            final(self).info@ == old(self).info@,
            r is Ok ==> final(self).data@ == splice(old(self).data@, old(self).at as int, seq![(n % 256) as u8, (n / 256) as u8])
                && final(self).at == old(self).at + 2,
            r is Err ==> *final(self) == *old(self),
    {
        match self.ensure_space(2) {
            Ok(()) => {},
            Err(e) => {
                return Err(e);
            },
        }
        let ghost d0 = self.data@;
        self.data.set(self.at, (n % 256) as u8);
        self.data.set(self.at + 1, (n / 256) as u8);
        assert(self.data@ =~= splice(d0, self.at as int, seq![(n % 256) as u8, (n / 256) as u8]));
        self.at = self.at + 2;
        Ok(())
    }

    /// Copies the bytes of a value to the fill position and moves past them.
    fn write(&mut self, bytes: &[u8]) -> (r: Result<(), OutOfSpace>)
        requires
            old(self).data@.len() == CHUNK_SIZE,
            old(self).at <= CHUNK_SIZE,
            bytes@.len() <= CHUNK_SIZE,
        ensures
            r is Ok <==> old(self).at + bytes@.len() <= CHUNK_SIZE,
            final(self).info@ == old(self).info@,
            r is Ok ==> final(self).data@ == splice(old(self).data@, old(self).at as int, bytes@)
                && final(self).at == old(self).at + bytes@.len(),
            r is Err ==> *final(self) == *old(self),
    {
        match self.ensure_space(bytes.len()) {
            Ok(()) => {},
            Err(e) => {
                return Err(e);
            },
        }
        let ghost d0 = self.data@;
        let start = self.at;
        let mut i: usize = 0;
        while i < bytes.len()
            invariant
                i <= bytes@.len(),
                start + bytes@.len() <= CHUNK_SIZE,
                self.data@ == splice(d0, start as int, bytes@.subrange(0, i as int)),
                d0.len() == CHUNK_SIZE,
                self.info@ == old(self).info@,
                start == old(self).at,
            decreases bytes@.len() - i,
        {
            self.data.set(start + i, bytes[i]);
            i = i + 1;
            assert(self.data@ =~= splice(d0, start as int, bytes@.subrange(0, i as int)));
        }
        assert(bytes@.subrange(0, bytes@.len() as int) =~= bytes@);
        self.at = start + bytes.len();
        Ok(())
    }

    /// Writes the pieces of an allocation from the fill position on: the info id, the metadata,
    /// the back offset to the metadata and the value, each after its padding.
    fn write_alloc_data(&mut self, info_id: u16, header_padding: usize, data_padding: usize, value: &[u8], metadata: &[u8]) -> (r: LocalAllocId)
        requires
            old(self).data@.len() == CHUNK_SIZE,
            old(self).at + header_padding + 3 + metadata@.len() + data_padding + value@.len() <= CHUNK_SIZE,
            metadata@.len() + data_padding + 1 <= 255,
        ensures
            final(self).info@ == old(self).info@,
            final(self).data@ == data_after_write(old(self).data@, old(self).at as int, header_padding as int,
                data_padding as int, info_id as int, metadata@, value@),
            final(self).at == old(self).at + header_padding + 3 + metadata@.len() + data_padding + value@.len(),
            r.0 == old(self).at + header_padding + 3 + metadata@.len() + data_padding,
    {
        let ghost d0 = self.data@;
        let ghost s = self.at as int;
        self.at = self.at + header_padding;
        self.push_u16(info_id).unwrap();
        let metadata_pos = self.at;
        let ghost d1 = self.data@;
        self.write(metadata).unwrap();
        let ghost d2 = self.data@;
        self.at = self.at + data_padding;
        let back_offset_to_metadata = (self.at + 1 - metadata_pos) as u8;
        self.push(back_offset_to_metadata).unwrap();
        let id = self.at;
        let ghost d3 = self.data@;
        self.write(value).unwrap();
        assert(self.data@ =~= data_after_write(d0, s, header_padding as int, data_padding as int, info_id as int,
            metadata@, value@));
        LocalAllocId(id as u16)
    }

    /// Tries to allocate a value at the fill position of this chunk.
    pub fn try_alloc(&mut self, value: &[u8], align_t: usize, metadata: &[u8], align_m: usize) -> (r: Result<(LocalAllocId, usize), OutOfSpace>)
        requires
            old(self).wf(),
            valid_payload(value@.len() as int, align_t as int, metadata@.len() as int, align_m as int),
            old(self).info@.len() < 65535,
            forall|i: int| 0 <= i < old(self).info@.len() ==> (#[trigger] old(self).info@[i]).end() <= old(self).at,
        ensures
            match alloc_layout(old(self).at as int, old(self).at as int, value@.len() as int, align_t as int,
                metadata@.len() as int, align_m as int) {
                None => r is Err && *final(self) == *old(self),
                Some((hp, dp, d, total)) => {
                    &&& r matches Ok((id, size)) && id.0 == d && size == total
                    &&& final(self).wf()
                    &&& final(self).at == old(self).at + total
                    &&& final(self).info@ == old(self).info@.push(new_info(old(self).at as int, total, d))
                    &&& final(self).data@ == data_after_write(old(self).data@, old(self).at as int, hp, dp,
                        old(self).info@.len() as int, metadata@, value@)
                    &&& forall|i: int| 0 <= i < final(self).info@.len() ==> (#[trigger] final(self).info@[i]).end() <= final(self).at
                },
            },
    {
        let layout = match self.size_for_alloc_at(self.at, value.len(), align_t, metadata.len(), align_m) {
            Ok(v) => v,
            Err(e) => {
                return Err(e);
            },
        };
        let ghost old_self = *self;
        let info_id = self.info.len() as u16;
        let start = self.at;
        self.info.push(AllocInfo {
            flags: INITIALIZED,
            total_alloc_size: layout.total as u16,
            data_index: layout.data_index,
            alloc_start: start as u16,
        });
        let id = self.write_alloc_data(info_id, layout.header_padding, layout.data_padding, value, metadata);
        proof {
            let hp = layout.header_padding as int;
            let dp = layout.data_padding as int;
            let k = info_id as int;
            assert(new_info(start as int, layout.total as int, layout.data_index as int) == self.info@[k]);
            lemma_write_layout(old_self.data@, start as int, hp, dp, k, metadata@, value@);
            assert forall|i: int| 0 <= i < old_self.info@.len() implies layout_ok(self.data@, #[trigger] self.info@[i], i) by {
                lemma_write_keeps_layout(old_self.data@, start as int, hp, dp, k, metadata@, value@, old_self.info@[i], i);
            }
            assert(INITIALIZED & !3u8 == 0) by (bit_vector);
        }
        Ok((id, layout.total))
    }

    /// Tries to reuse the space of an earlier allocation, `allocation_start..allocation_start +
    /// old_total_allocation_size`, recording the new allocation under `info_id` when given and
    /// under a new info otherwise. Fails if the allocation does not fit there.
    pub fn try_alloc_at(
        &mut self,
        allocation_start: usize,
        old_total_allocation_size: u16,
        info_id: Option<u16>,
        value: &[u8],
        align_t: usize,
        metadata: &[u8],
        align_m: usize,
    ) -> (r: Result<(LocalAllocId, usize), OutOfSpace>)
        requires
            old(self).wf(),
            valid_payload(value@.len() as int, align_t as int, metadata@.len() as int, align_m as int),
            allocation_start + old_total_allocation_size <= CHUNK_SIZE,
            match info_id {
                Some(k) => k < old(self).info@.len(),
                None => old(self).info@.len() < 65535,
            },
            forall|j: int| 0 <= j < old(self).info@.len() && !(info_id == Some(j as u16)) ==> disjoint(
                (#[trigger] old(self).info@[j]).start(),
                old(self).info@[j].end(),
                allocation_start as int,
                allocation_start + old_total_allocation_size,
            ),
        ensures
            match alloc_layout(old(self).at as int, allocation_start as int, value@.len() as int, align_t as int,
                metadata@.len() as int, align_m as int) {
                Some((hp, dp, d, total)) => if total <= old_total_allocation_size {
                    let k = match info_id {
                        Some(k) => k as int,
                        None => old(self).info@.len() as int,
                    };
                    &&& r matches Ok((id, size)) && id.0 == d && size == total
                    &&& final(self).wf()
                    &&& final(self).at == old(self).at
                    &&& final(self).info@ == match info_id {
                        Some(k) => old(self).info@.update(k as int, new_info(allocation_start as int, total, d)),
                        None => old(self).info@.push(new_info(allocation_start as int, total, d)),
                    }
                    &&& final(self).data@ == data_after_write(old(self).data@, allocation_start as int, hp, dp, k,
                        metadata@, value@)
                } else {
                    r is Err && *final(self) == *old(self)
                },
                None => r is Err && *final(self) == *old(self),
            },
    {
        let layout = match self.size_for_alloc_at(allocation_start, value.len(), align_t, metadata.len(), align_m) {
            Ok(v) => {
                if v.total > old_total_allocation_size as usize {
                    return Err(OutOfSpace);
                }
                v
            },
            Err(e) => {
                return Err(e);
            },
        };
        let ghost old_self = *self;
        let alloc_info = AllocInfo {
            flags: INITIALIZED,
            total_alloc_size: layout.total as u16,
            alloc_start: allocation_start as u16,
            data_index: layout.data_index,
        };
        let info_id = match info_id {
            Some(info_id) => {
                self.info.set(info_id as usize, alloc_info);
                info_id
            },
            None => {
                let info_id = self.info.len() as u16;
                self.info.push(alloc_info);
                info_id
            },
        };
        let old_at = self.at;
        self.at = allocation_start;
        let id = self.write_alloc_data(info_id, layout.header_padding, layout.data_padding, value, metadata);
        self.at = old_at;
        proof {
            let hp = layout.header_padding as int;
            let dp = layout.data_padding as int;
            let k = info_id as int;
            lemma_write_layout(old_self.data@, allocation_start as int, hp, dp, k, metadata@, value@);
            assert forall|i: int| 0 <= i < self.info@.len() && i != k implies layout_ok(self.data@, #[trigger] self.info@[i], i) by {
                assert(self.info@[i] == old_self.info@[i]);
                lemma_write_keeps_layout(old_self.data@, allocation_start as int, hp, dp, k, metadata@, value@, old_self.info@[i], i);
            }
            assert(INITIALIZED & !3u8 == 0) by (bit_vector);
        }
        Ok((id, layout.total))
    }
}

} // verus!
