use vstd::prelude::*;
use vstd::slice::slice_to_vec;

verus! {

/// The low 14 bits of an object id's second half: the generation.
pub const GENERATION_MASK: u16 = 0b0011111111111111;

/// The high 2 bits of an object id's second half: the bin.
pub const BIN_MASK: u16 = 0b1100000000000000;

pub const BIN8: u16 = 0b0000000000000000;
pub const BIN32: u16 = 0b1000000000000000;
pub const BIN64: u16 = 0b0100000000000000;
pub const BINVAR: u16 = 0b1100000000000000;

/// The size class of a bin.
#[derive(Copy, Clone, Debug, PartialEq, Eq)]
pub enum BinKind {
    B8,
    B32,
    B64,
    Variable,
}

/// An object in a bin: its index there, and its generation and bin packed in 16 bits.
#[derive(Copy, Clone, Debug)]
pub struct ObjectId {
    pub id: u32,
    // generation: 14 bits
    // bin: 2 bits
    pub generation_and_bin: u16,
}

impl ObjectId {
    /// The generation and the bin, each shifted down.
    pub fn generation_and_bin(&self) -> (r: (u16, u16))
        ensures
            r.0 == self.generation_and_bin % 0x4000,
            r.1 == self.generation_and_bin / 0x4000,
    {
        let g = self.generation_and_bin;
        assert(g & 0x3FFFu16 == g % 0x4000 && (g & 0xC000u16) >> 14u16 == g / 0x4000) by (bit_vector);
        (g & GENERATION_MASK, (g & BIN_MASK) >> 14)
    }

    pub fn generation(&self) -> (r: u16)
        ensures
            r == self.generation_and_bin % 0x4000,
    {
        self.generation_and_bin().0
    }

    pub fn bin(&self) -> (r: u16)
        ensures
            r == self.generation_and_bin / 0x4000,
    {
        self.generation_and_bin().1
    }
}

/// The bytes of one value of a bin of `N`-byte values.
pub struct AlignedBuf<const N: usize> {
    pub buf: [u8; N],
}

impl<const N: usize> AlignedBuf<N> {
    pub fn new(buf: [u8; N]) -> (r: Self)
        ensures
            r.buf@ == buf@,
    {
        AlignedBuf { buf }
    }
}

/// A slot of a bin that can be reused.
#[derive(Copy, Clone, Debug)]
pub struct FreeEntry {
    pub index: u32,
}

/// What a bin records of one slot: its metadata (usually a vtable) and the generation it was
/// allocated in.
pub struct AllocInfo<M> {
    pub metadata: M,
    pub generation: u16,
}

/// The size class of `N`-byte bins.
pub open spec fn bin_kind(n: int) -> BinKind {
    if n == 8 {
        BinKind::B8
    } else if n == 32 {
        BinKind::B32
    } else {
        BinKind::B64
    }
}

/// The bin bits of `N`-byte bins.
pub open spec fn bin_kind_bits(n: int) -> u16 {
    if n == 8 {
        BIN8
    } else if n == 32 {
        BIN32
    } else {
        BIN64
    }
}

/// The size class of a bin of `N`-byte values; only 8, 32 and 64 are sizes of bins.
pub fn n_bin_kind<const N: usize>() -> (r: BinKind)
    requires
        N == 8 || N == 32 || N == 64,
    ensures
        r == bin_kind(N as int),
{
    if N == 8 {
        BinKind::B8
    } else if N == 32 {
        BinKind::B32
    } else {
        BinKind::B64
    }
}

/// The bin bits of a bin of `N`-byte values.
pub fn n_bin_kind_bits<const N: usize>() -> (r: u16)
    requires
        N == 8 || N == 32 || N == 64,
    ensures
        r == bin_kind_bits(N as int),
{
    if N == 8 {
        BIN8
    } else if N == 32 {
        BIN32
    } else {
        BIN64
    }
}

/// Values of `N` bytes, each in a slot of its own; freed slots are reused, the most recently freed
/// first.
pub struct Bin<const N: usize, M> {
    storage: Vec<AlignedBuf<N>>,
    free: Vec<FreeEntry>,
    info: Vec<AllocInfo<M>>,
    generation: u16,
}

impl<const N: usize, M> Bin<N, M> {
    /// Every slot has an info, and every freed slot is a slot.
    pub closed spec fn wf(&self) -> bool {
        &&& self.info@.len() == self.storage@.len()
        &&& self.storage@.len() <= u32::MAX
        &&& forall|k: int| 0 <= k < self.free@.len() ==> (#[trigger] self.free@[k]).index < self.storage@.len()
        &&& self.generation < 0x4000
    }

    /// The number of slots.
    pub closed spec fn slots(&self) -> nat {
        self.storage@.len()
    }

    /// The slots that are free, in the order they are reused last to first.
    pub closed spec fn free_slots(&self) -> Seq<u32> {
        self.free@.map_values(|e: FreeEntry| e.index)
    }

    /// The bytes in slot `i`.
    pub closed spec fn value_at(&self, i: int) -> Seq<u8> {
        self.storage@[i].buf@
    }

    /// The metadata of slot `i`.
    pub closed spec fn metadata_at(&self, i: int) -> M {
        self.info@[i].metadata
    }

    /// The generation slot `i` was allocated in.
    pub closed spec fn generation_at(&self, i: int) -> u16 {
        self.info@[i].generation
    }

    /// The current generation.
    pub closed spec fn spec_generation(&self) -> u16 {
        self.generation
    }

    pub fn new() -> (r: Self)
        ensures
            r.wf(),
            r.slots() == 0,
            r.free_slots() == Seq::<u32>::empty(),
            r.spec_generation() == 0,
    {
        let r = Bin { storage: Vec::new(), free: Vec::new(), info: Vec::new(), generation: 0 };
        assert(r.free_slots() =~= Seq::<u32>::empty());
        r
    }

    /// Stores a value of `N` bytes (whose alignment is at most `N`) with its metadata: in the most
    /// recently freed slot when there is one, else in a new slot.
    pub fn allocate(&mut self, value: [u8; N], metadata: M) -> (r: ObjectId)
        requires
            old(self).wf(),
            N == 8 || N == 32 || N == 64,
            old(self).free_slots().len() == 0 ==> old(self).slots() < u32::MAX,
        ensures
            final(self).wf(),
            r.generation_and_bin == old(self).spec_generation() | bin_kind_bits(N as int),
            final(self).spec_generation() == old(self).spec_generation(),
            old(self).free_slots().len() > 0 ==> r.id == old(self).free_slots().last() && final(self).free_slots()
                == old(self).free_slots().drop_last() && final(self).slots() == old(self).slots(),
            old(self).free_slots().len() == 0 ==> r.id == old(self).slots() && final(self).free_slots()
                == old(self).free_slots() && final(self).slots() == old(self).slots() + 1,
            final(self).value_at(r.id as int) == value@,
            final(self).metadata_at(r.id as int) == metadata,
            final(self).generation_at(r.id as int) == old(self).spec_generation(),
            forall|i: int| 0 <= i < old(self).slots() && i != r.id ==> #[trigger] final(self).value_at(i)
                == old(self).value_at(i) && final(self).metadata_at(i) == old(self).metadata_at(i)
                && final(self).generation_at(i) == old(self).generation_at(i),
    {
        let value = AlignedBuf::new(value);
        let free_entry = self.free.pop();
        let generation_and_bin = self.generation | n_bin_kind_bits::<N>();
        match free_entry {
            Some(free_entry) => {
                proof {
                    assert(self.free_slots() =~= old(self).free_slots().drop_last());
                }
                self.info.set(free_entry.index as usize, AllocInfo { metadata, generation: self.generation });
                self.storage.set(free_entry.index as usize, value);
                ObjectId { id: free_entry.index, generation_and_bin }
            },
            None => {
                let index = self.storage.len() as u32;
                self.storage.push(value);
                self.info.push(AllocInfo { metadata, generation: self.generation });
                ObjectId { id: index, generation_and_bin }
            },
        }
    }

    /// Frees the slot of the object, which must be of the slot's generation, for reuse.
    pub fn dealloc(&mut self, id: ObjectId)
        requires
            old(self).wf(),
            id.id < old(self).slots(),
            old(self).generation_at(id.id as int) == id.generation_and_bin % 0x4000,
        ensures
            final(self).wf(),
            final(self).free_slots() == old(self).free_slots().push(id.id),
            final(self).slots() == old(self).slots(),
            final(self).spec_generation() == old(self).spec_generation(),
            forall|i: int| 0 <= i < old(self).slots() ==> #[trigger] final(self).value_at(i) == old(self).value_at(i)
                && final(self).metadata_at(i) == old(self).metadata_at(i) && final(self).generation_at(i)
                == old(self).generation_at(i),
    {
        self.free.push(FreeEntry { index: id.id });
        assert(self.free_slots() =~= old(self).free_slots().push(id.id));
    }

    /// The value and the metadata of the object, which must be of the current generation, as is
    /// its slot.
    pub fn res(&self, id: ObjectId) -> (r: (&[u8; N], &M))
        requires
            self.wf(),
            id.id < self.slots(),
            id.generation_and_bin % 0x4000 == self.spec_generation(),
            self.generation_at(id.id as int) == self.spec_generation(),
        ensures
            r.0@ == self.value_at(id.id as int),
            *r.1 == self.metadata_at(id.id as int),
    {
        let i = id.id as usize;
        (&self.storage[i].buf, &self.info[i].metadata)
    }
}

/// The bytes of a slice of `N` bytes, as an array.
fn to_array<const N: usize>(v: &[u8]) -> (r: [u8; N])
    requires
        v@.len() == N,
    ensures
        r@ == v@,
{
    let mut a: [u8; N] = [0u8; N];
    let mut i: usize = 0;
    while i < N
        invariant
            i <= N,
            v@.len() == N,
            a@.len() == N,
            forall|j: int| 0 <= j < i ==> a@[j] == v@[j],
        decreases N - i,
    {
        a[i] = v[i];
        i = i + 1;
    }
    assert(a@ =~= v@);
    a
}

/// The bin, by the number in the top two bits of an id, that takes values of `n` bytes: 0 for 8,
/// 2 for 32, 1 for 64, and 3 (the variable bin) for values larger than 64 bytes.
pub open spec fn bin_for_len(n: int) -> int {
    if n == 8 {
        0
    } else if n == 32 {
        2
    } else if n == 64 {
        1
    } else {
        3
    }
}

/// The bin of an object, from the top two bits of its id.
pub open spec fn bin_of(id: ObjectId) -> int {
    (id.generation_and_bin / 0x4000) as int
}

/// Objects of any size with their metadata (`M`, usually a vtable): values of 8, 32 and 64 bytes
/// in a bin of their size; larger values each in a box of their own, whose reference takes a slot
/// of the variable bin. The box of variable-bin slot `i` is `boxes[i]`.
pub struct Allocator<M> {
    bin8: Bin<8, M>,
    bin32: Bin<32, M>,
    bin64: Bin<64, M>,
    binvar: Bin<8, M>,
    boxes: Vec<Vec<u8>>,
}

impl<M> Allocator<M> {
    /// Every bin is well formed and in generation 0, and every slot of the variable bin has its box.
    pub closed spec fn wf(&self) -> bool {
        &&& self.bin8.wf() && self.bin32.wf() && self.bin64.wf() && self.binvar.wf()
        &&& self.bin8.spec_generation() == 0 && self.bin32.spec_generation() == 0
        &&& self.bin64.spec_generation() == 0 && self.binvar.spec_generation() == 0
        &&& self.boxes@.len() == self.binvar.slots()
    }

    /// The number of slots of bin `b`.
    pub closed spec fn slot_count(&self, b: int) -> nat {
        if b == 0 {
            self.bin8.slots()
        } else if b == 2 {
            self.bin32.slots()
        } else if b == 1 {
            self.bin64.slots()
        } else {
            self.binvar.slots()
        }
    }

    /// The free slots of bin `b`, in the order they are reused last to first.
    pub closed spec fn free_of(&self, b: int) -> Seq<u32> {
        if b == 0 {
            self.bin8.free_slots()
        } else if b == 2 {
            self.bin32.free_slots()
        } else if b == 1 {
            self.bin64.free_slots()
        } else {
            self.binvar.free_slots()
        }
    }

    /// The value and the metadata in slot `i` of bin `b`.
    pub closed spec fn read(&self, b: int, i: int) -> (Seq<u8>, M) {
        if b == 0 {
            (self.bin8.value_at(i), self.bin8.metadata_at(i))
        } else if b == 2 {
            (self.bin32.value_at(i), self.bin32.metadata_at(i))
        } else if b == 1 {
            (self.bin64.value_at(i), self.bin64.metadata_at(i))
        } else {
            (self.boxes@[i]@, self.binvar.metadata_at(i))
        }
    }

    /// The generation that slot `i` of bin `b` was allocated in.
    pub closed spec fn generation_of(&self, b: int, i: int) -> u16 {
        if b == 0 {
            self.bin8.generation_at(i)
        } else if b == 2 {
            self.bin32.generation_at(i)
        } else if b == 1 {
            self.bin64.generation_at(i)
        } else {
            self.binvar.generation_at(i)
        }
    }

    /// Bin `b` holds the same slots, free slots, values, metadata and generations in both.
    pub open spec fn same_bin(a: &Self, c: &Self, b: int) -> bool {
        &&& a.slot_count(b) == c.slot_count(b)
        &&& a.free_of(b) == c.free_of(b)
        &&& forall|i: int| 0 <= i < a.slot_count(b) ==> #[trigger] c.read(b, i) == a.read(b, i)
            && c.generation_of(b, i) == a.generation_of(b, i)
    }

    /// The slot of bin `b` that the next allocation takes: the most recently freed one, or a new one.
    pub open spec fn next_slot(&self, b: int) -> int {
        if self.free_of(b).len() > 0 {
            self.free_of(b).last() as int
        } else {
            self.slot_count(b) as int
        }
    }

    pub fn new() -> (r: Self)
        ensures
            r.wf(),
            forall|b: int| 0 <= b < 4 ==> r.slot_count(b) == 0 && r.free_of(b) == Seq::<u32>::empty(),
    {
        Allocator { bin8: Bin::new(), bin32: Bin::new(), bin64: Bin::new(), binvar: Bin::new(), boxes: Vec::new() }
    }

    /// Stores a value (given by its bytes) with its metadata, in the bin for its size: in that
    /// bin's most recently freed slot when there is one, else in a new slot. A value of 8, 32 or
    /// 64 bytes is stored in place and its id names its slot; a larger one goes to a box of its
    /// own, and its id names slot 0 of the variable bin whatever slot the box took.
    pub fn allocate(&mut self, value: &[u8], metadata: M) -> (r: ObjectId)
        requires
            old(self).wf(),
            value@.len() == 8 || value@.len() == 32 || value@.len() == 64 || value@.len() > 64,
            old(self).free_of(bin_for_len(value@.len() as int)).len() == 0 ==> old(self).slot_count(
                bin_for_len(value@.len() as int),
            ) < u32::MAX,
        ensures
            final(self).wf(),
            r.generation_and_bin == bin_for_len(value@.len() as int) * 0x4000,
            r.id == if bin_for_len(value@.len() as int) == 3 {
                0
            } else {
                old(self).next_slot(bin_for_len(value@.len() as int))
            },
            final(self).read(bin_for_len(value@.len() as int), old(self).next_slot(bin_for_len(value@.len() as int)))
                == (value@, metadata),
            final(self).generation_of(bin_for_len(value@.len() as int), old(self).next_slot(bin_for_len(value@.len() as int)))
                == 0,
            final(self).free_of(bin_for_len(value@.len() as int)) == if old(self).free_of(bin_for_len(value@.len() as int)).len()
                > 0 {
                old(self).free_of(bin_for_len(value@.len() as int)).drop_last()
            } else {
                old(self).free_of(bin_for_len(value@.len() as int))
            },
            final(self).slot_count(bin_for_len(value@.len() as int)) == if old(self).free_of(
                bin_for_len(value@.len() as int),
            ).len() > 0 {
                old(self).slot_count(bin_for_len(value@.len() as int))
            } else {
                old(self).slot_count(bin_for_len(value@.len() as int)) + 1
            },
            forall|i: int|
                0 <= i < old(self).slot_count(bin_for_len(value@.len() as int)) && i != old(self).next_slot(
                    bin_for_len(value@.len() as int),
                ) ==> #[trigger] final(self).read(bin_for_len(value@.len() as int), i) == old(self).read(
                    bin_for_len(value@.len() as int),
                    i,
                ) && final(self).generation_of(bin_for_len(value@.len() as int), i) == old(self).generation_of(
                    bin_for_len(value@.len() as int),
                    i,
                ),
            forall|b2: int| 0 <= b2 < 4 && b2 != bin_for_len(value@.len() as int) ==> #[trigger] Self::same_bin(old(self), final(self), b2),
    {
        let n = value.len();
        if n == 8 {
            let id = self.bin8.allocate(to_array::<8>(value), metadata);
            assert(0u16 | BIN8 == 0) by (bit_vector);
            assert forall|i: int| 0 <= i < old(self).slot_count(0) && i != old(self).next_slot(0) implies #[trigger] self.read(0, i)
                == old(self).read(0, i) && self.generation_of(0, i) == old(self).generation_of(0, i) by {
                assert(self.bin8.value_at(i) == old(self).bin8.value_at(i));
            }
            assert(bin_for_len(value@.len() as int) == 0);
            assert(forall|i: int|
                0 <= i < old(self).slot_count(bin_for_len(value@.len() as int)) && i != old(self).next_slot(
                    bin_for_len(value@.len() as int),
                ) ==> #[trigger] self.read(bin_for_len(value@.len() as int), i) == old(self).read(
                    bin_for_len(value@.len() as int),
                    i,
                ));
            id
        } else if n == 32 {
            let id = self.bin32.allocate(to_array::<32>(value), metadata);
            assert forall|i: int| 0 <= i < old(self).slot_count(2) && i != old(self).next_slot(2) implies #[trigger] self.read(2, i)
                == old(self).read(2, i) && self.generation_of(2, i) == old(self).generation_of(2, i) by {
                assert(self.bin32.value_at(i) == old(self).bin32.value_at(i));
            }
            assert(0u16 | BIN32 == 0x8000) by (bit_vector);
            id
        } else if n == 64 {
            let id = self.bin64.allocate(to_array::<64>(value), metadata);
            assert forall|i: int| 0 <= i < old(self).slot_count(1) && i != old(self).next_slot(1) implies #[trigger] self.read(1, i)
                == old(self).read(1, i) && self.generation_of(1, i) == old(self).generation_of(1, i) by {
                assert(self.bin64.value_at(i) == old(self).bin64.value_at(i));
            }
            assert(0u16 | BIN64 == 0x4000) by (bit_vector);
            id
        } else {
            let slot = self.binvar.allocate([0u8; 8], metadata);
            let s = slot.id as usize;
            let boxed = slice_to_vec(value);
            if s < self.boxes.len() {
                self.boxes.set(s, boxed);
            } else {
                self.boxes.push(boxed);
            }
            let g = slot.generation();
            assert forall|i: int| 0 <= i < old(self).slot_count(3) && i != old(self).next_slot(3) implies #[trigger] self.read(3, i)
                == old(self).read(3, i) && self.generation_of(3, i) == old(self).generation_of(3, i) by {
                assert(self.binvar.value_at(i) == old(self).binvar.value_at(i));
                assert(self.boxes@[i] == old(self).boxes@[i]);
            }
            assert(0u16 | BIN8 == 0 && (0u16 % 0x4000) | BINVAR == 0xC000) by (bit_vector);
            ObjectId { id: 0, generation_and_bin: g | BINVAR }
        }
    }

    /// Frees the object's slot in its bin for reuse; the slot must be of the object's generation.
    pub fn dealloc(&mut self, id: ObjectId)
        requires
            old(self).wf(),
            id.id < old(self).slot_count(bin_of(id)),
            old(self).generation_of(bin_of(id), id.id as int) == id.generation_and_bin % 0x4000,
        ensures
            final(self).wf(),
            final(self).free_of(bin_of(id)) == old(self).free_of(bin_of(id)).push(id.id),
            final(self).slot_count(bin_of(id)) == old(self).slot_count(bin_of(id)),
            forall|i: int| 0 <= i < old(self).slot_count(bin_of(id)) ==> #[trigger] final(self).read(bin_of(id), i)
                == old(self).read(bin_of(id), i) && final(self).generation_of(bin_of(id), i) == old(self).generation_of(
                bin_of(id),
                i,
            ),
            forall|b2: int| 0 <= b2 < 4 && b2 != bin_of(id) ==> #[trigger] Self::same_bin(old(self), final(self), b2),
    {
        let bits = id.generation_and_bin & BIN_MASK;
        let g = id.generation_and_bin;
        assert((g & 0xC000u16 == 0u16) == (g / 0x4000 == 0) && (g & 0xC000u16 == 0x8000u16) == (g / 0x4000 == 2)
            && (g & 0xC000u16 == 0x4000u16) == (g / 0x4000 == 1)) by (bit_vector);
        if bits == BIN8 {
            self.bin8.dealloc(id);
            assert(bin_of(id) == 0);
            assert forall|i: int| 0 <= i < old(self).slot_count(0) implies #[trigger] self.read(0, i) == old(self).read(0, i)
                && self.generation_of(0, i) == old(self).generation_of(0, i) by {
                assert(self.bin8.value_at(i) == old(self).bin8.value_at(i));
            }
        } else if bits == BIN32 {
            self.bin32.dealloc(id);
            assert(bin_of(id) == 2);
            assert forall|i: int| 0 <= i < old(self).slot_count(2) implies #[trigger] self.read(2, i) == old(self).read(2, i)
                && self.generation_of(2, i) == old(self).generation_of(2, i) by {
                assert(self.bin32.value_at(i) == old(self).bin32.value_at(i));
            }
        } else if bits == BIN64 {
            self.bin64.dealloc(id);
            assert(bin_of(id) == 1);
            assert forall|i: int| 0 <= i < old(self).slot_count(1) implies #[trigger] self.read(1, i) == old(self).read(1, i)
                && self.generation_of(1, i) == old(self).generation_of(1, i) by {
                assert(self.bin64.value_at(i) == old(self).bin64.value_at(i));
            }
        } else {
            let gen = id.generation();
            assert(gen < 0x4000 ==> (gen | 0u16) % 0x4000 == gen) by (bit_vector);
            self.binvar.dealloc(ObjectId { id: id.id, generation_and_bin: gen | BIN8 });
            assert(bin_of(id) == 3);
            assert forall|i: int| 0 <= i < old(self).slot_count(3) implies #[trigger] self.read(3, i) == old(self).read(3, i)
                && self.generation_of(3, i) == old(self).generation_of(3, i) by {
                assert(self.binvar.value_at(i) == old(self).binvar.value_at(i));
            }
        }
    }

    /// The value and the metadata of the object, which must be of generation 0, as is its slot.
    pub fn res(&self, id: ObjectId) -> (r: (&[u8], &M))
        requires
            self.wf(),
            id.id < self.slot_count(bin_of(id)),
            id.generation_and_bin % 0x4000 == 0,
            self.generation_of(bin_of(id), id.id as int) == 0,
        ensures
            (r.0@, *r.1) == self.read(bin_of(id), id.id as int),
    {
        let bits = id.generation_and_bin & BIN_MASK;
        let g = id.generation_and_bin;
        assert((g & 0xC000u16 == 0u16) == (g / 0x4000 == 0) && (g & 0xC000u16 == 0x8000u16) == (g / 0x4000 == 2)
            && (g & 0xC000u16 == 0x4000u16) == (g / 0x4000 == 1)) by (bit_vector);
        if bits == BIN8 {
            let (v, m) = self.bin8.res(id);
            (v.as_slice(), m)
        } else if bits == BIN32 {
            let (v, m) = self.bin32.res(id);
            (v.as_slice(), m)
        } else if bits == BIN64 {
            let (v, m) = self.bin64.res(id);
            (v.as_slice(), m)
        } else {
            let gen = id.generation();
            assert(gen == 0 ==> (gen | 0u16) % 0x4000 == 0) by (bit_vector);
            let (_slot, m) = self.binvar.res(ObjectId { id: id.id, generation_and_bin: gen | BIN8 });
            (self.boxes[id.id as usize].as_slice(), m)
        }
    }
}

} // verus!
