use vstd::prelude::*;

verus! {

/// A growable byte buffer that follows the growth policy of an allocation aligned to 8 bytes: the
/// capacity doubles, or grows to what is needed, and stays within the largest size such an
/// allocation can have. It keeps its contents in a `Vec` and its capacity as a count; no
/// allocation of that capacity or alignment stands behind it, and it hands out no pointer.
pub struct AlignedBuf {
    bytes: Vec<u8>,
    cap: usize,
}

/// The largest capacity an allocation aligned to 8 bytes can have.
pub open spec fn max_capacity() -> int {
    isize::MAX - 7
}

/// The capacity after growing to make room for `additional` more bytes.
pub open spec fn grown_capacity(cap: int, len: int, additional: int) -> int {
    if cap * 2 >= len + additional {
        cap * 2
    } else {
        len + additional
    }
}

/// Whether a buffer of capacity `cap` that is filled byte by byte up to `target` bytes stays
/// within the largest capacity each time it grows.
pub open spec fn growth_fits(cap: int, target: int) -> bool
    decreases target - cap,
{
    if cap >= target || cap < 0 {
        true
    } else {
        let next = grown_capacity(cap, cap, 1);
        next <= max_capacity() && (next >= target || growth_fits(next, target))
    }
}

impl AlignedBuf {
    /// The bytes written so far.
    pub closed spec fn view(&self) -> Seq<u8> {
        self.bytes@
    }

    /// The capacity the buffer has grown to.
    pub closed spec fn capacity(&self) -> nat {
        self.cap as nat
    }

    /// The contents fit in the capacity, and the capacity in an allocation.
    pub open spec fn wf(&self) -> bool {
        &&& self@.len() <= self.capacity()
        &&& self.capacity() <= max_capacity()
    }

    pub fn new() -> (r: Self)
        ensures
            r.wf(),
            r@ == Seq::<u8>::empty(),
            r.capacity() == 0,
    {
        AlignedBuf { bytes: Vec::new(), cap: 0 }
    }

    /// Only call this if growing is necessary. If you just want to make space that might already
    /// be available, call reserve()
    fn grow_amortized(&mut self, additional: usize)
        requires
            old(self).wf(),
            additional > 0,
            grown_capacity(old(self).capacity() as int, old(self)@.len() as int, additional as int) <= max_capacity(),
        ensures
            final(self).wf(),
            final(self)@ == old(self)@,
            final(self).capacity() == grown_capacity(old(self).capacity() as int, old(self)@.len() as int, additional as int),
    {
        let doubled = self.cap * 2;
        let needed = self.bytes.len() + additional;
        let new_cap = if doubled >= needed { doubled } else { needed };
        self.cap = new_cap;
    }

    /// Makes sure that `bytes` more bytes fit without growing again.
    pub fn reserve(&mut self, bytes: usize)
        requires
            old(self).wf(),
            old(self)@.len() + bytes > old(self).capacity() ==> grown_capacity(
                old(self).capacity() as int,
                old(self)@.len() as int,
                bytes as int,
            ) <= max_capacity(),
        ensures
            final(self).wf(),
            final(self)@ == old(self)@,
            final(self).capacity() == if old(self)@.len() + bytes > old(self).capacity() {
                grown_capacity(old(self).capacity() as int, old(self)@.len() as int, bytes as int)
            } else {
                old(self).capacity() as int
            },
            final(self)@.len() + bytes <= final(self).capacity(),
    {
        if self.bytes.len() + bytes > self.cap {
            self.grow_amortized(bytes);
        }
    }

    pub fn len(&self) -> (r: usize)
        ensures
            r == self@.len(),
    {
        self.bytes.len()
    }

    /// Appends one byte, growing when the buffer is full.
    pub fn push(&mut self, byte: u8)
        requires
            old(self).wf(),
            old(self)@.len() == old(self).capacity() ==> grown_capacity(
                old(self).capacity() as int,
                old(self)@.len() as int,
                1,
            ) <= max_capacity(),
        ensures
            final(self).wf(),
            final(self)@ == old(self)@.push(byte),
            final(self).capacity() == if old(self)@.len() == old(self).capacity() {
                grown_capacity(old(self).capacity() as int, old(self)@.len() as int, 1)
            } else {
                old(self).capacity() as int
            },
    {
        if self.bytes.len() == self.cap {
            self.grow_amortized(1);
        }
        self.bytes.push(byte);
    }

    /// Appends `count` copies of `byte`.
    pub fn push_n(&mut self, byte: u8, count: usize)
        requires
            old(self).wf(),
            growth_fits(old(self).capacity() as int, old(self)@.len() + count),
        ensures
            final(self).wf(),
            final(self)@ == old(self)@ + Seq::new(count as nat, |i: int| byte),
    {
        let mut k: usize = 0;
        while k < count
            invariant
                k <= count,
                self.wf(),
                self@ == old(self)@ + Seq::new(k as nat, |i: int| byte),
                self@.len() == old(self)@.len() + k,
                growth_fits(self.capacity() as int, old(self)@.len() + count),
            decreases count - k,
        {
            self.push(byte);
            k = k + 1;
            assert(self@ =~= old(self)@ + Seq::new(k as nat, |i: int| byte));
        }
    }
}

} // verus!
