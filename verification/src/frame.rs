use std::collections::BTreeMap;
use vstd::prelude::*;

verus! {

/// A bytecode instruction pointer.
#[derive(Debug, Clone, Copy, PartialEq, Eq)]
pub struct Ip(pub u32);

/// A `try` block that is currently active in some frame.
#[derive(Debug, Clone, Copy)]
pub struct TryBlock {
    pub catch_ip: Option<usize>,
    pub finally_ip: Option<usize>,
    /// The frame index
    pub frame_idx: usize,
}

/// What a module exports: its default export, if any, and its named exports in order.
#[derive(Debug, Clone, Default)]
pub struct Exports<V> {
    pub default: Option<V>,
    pub named: Vec<(String, V)>,
}

/// What kind of frame a frame is: `O` identifies an object, `V` is a value.
pub enum FrameState<O, V> {
    /// Regular function
    Function {
        /// If this is a constructor call, then this is the target constructor that `new` was
        /// applied to (for non-inheriting classes this is simply the class itself, but may also be
        /// a subclass during evaluation of a superclass constructor).
        /// Only `None` for non-constructor calls.
        new_target: Option<O>,
        /// Whether this frame is a flat function call
        is_flat_call: bool,
    },
    /// Top level frame of a module
    Module(Exports<V>),
}

/// Counts the number of backjumps to one loop header.
#[derive(Debug, Clone, Copy)]
pub struct LoopCounter(pub u32);

/// The threshold above which a loop counts as hot.
pub const HOT_LOOP_THRESHOLD: u32 = 100;

impl LoopCounter {
    pub open spec fn count(self) -> nat {
        self.0 as nat
    }

    /// A counter that has not seen any backjump yet.
    pub fn new() -> (r: Self)
        ensures
            r.count() == 0,
    {
        LoopCounter(0)
    }

    /// Records one more backjump.
    pub fn inc(&mut self)
        requires
            old(self).count() < u32::MAX,
        ensures
            final(self).count() == old(self).count() + 1,
    {
        self.0 = self.0 + 1;
    }

    /// A loop is hot once it has jumped back more than `HOT_LOOP_THRESHOLD` times.
    pub fn is_hot(&self) -> (r: bool)
        ensures
            r == (self.count() > HOT_LOOP_THRESHOLD),
    {
        self.0 > HOT_LOOP_THRESHOLD
    }
}

/// One loop counter per loop header, keyed by the header's bytecode offset.
#[derive(Debug)]
pub struct LoopCounterMap(BTreeMap<usize, LoopCounter>);

/// The value of key `k` of a `BTreeMap` (`BTreeMap::entry(k).or_insert(v)`): the value it has, or
/// `v`, inserted first, where it has none. Through the returned reference the caller may change
/// the value; the map then holds what it is left at.
#[verifier::external_body]
fn entry_or_insert<V>(m: &mut BTreeMap<usize, V>, k: usize, v: V) -> (r: &mut V)
    ensures
        old(m)@.contains_key(k) ==> *r == old(m)@[k],
        !old(m)@.contains_key(k) ==> *r == v,
        final(m)@ == old(m)@.insert(k, *final(r)),
{
    m.entry(k).or_insert(v)
}

/// The counts of the counters of a map.
pub open spec fn counts(m: Map<usize, LoopCounter>) -> Map<usize, nat> {
    m.map_values(|x: LoopCounter| x.count())
}

/// Setting the counter of a header and then taking the counts is taking the counts and then
/// setting the count of that header.
proof fn lemma_counts_insert(m: Map<usize, LoopCounter>)
    ensures
        forall|k: usize, c: LoopCounter| #[trigger] counts(m.insert(k, c)) == counts(m).insert(k, c.count()),
{
    assert forall|k: usize, c: LoopCounter| #[trigger] counts(m.insert(k, c)) == counts(m).insert(k, c.count()) by {
        assert(counts(m.insert(k, c)) =~= counts(m).insert(k, c.count()));
    }
}

impl LoopCounterMap {
    /// The counters, by loop header.
    pub closed spec fn view(&self) -> Map<usize, nat> {
        counts(self.0@)
    }

    /// No counter for any loop header yet.
    pub fn new() -> (r: Self)
        ensures
            r@ == Map::<usize, nat>::empty(),
    {
        let r = LoopCounterMap(BTreeMap::new());
        assert(r@ =~= Map::<usize, nat>::empty());
        r
    }

    /// Returns the counter of the loop header `id`, creating a fresh one (at zero) if there is none yet.
    pub fn get_or_insert(&mut self, id: usize) -> (r: &mut LoopCounter)
        ensures
            old(self)@.contains_key(id) ==> r.count() == old(self)@[id],
            !old(self)@.contains_key(id) ==> r.count() == 0,
            final(self)@ == old(self)@.insert(id, final(r).count()),
    {
        proof {
            lemma_counts_insert(self.0@);
        }
        entry_or_insert(&mut self.0, id, LoopCounter(0))
    }
}

} // verus!
