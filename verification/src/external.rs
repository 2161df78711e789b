//! The handles that each live local scope keeps rooted.
//!
//! A local scope registers the objects it creates here, under its own identity, so that the
//! collector keeps them alive while the scope exists; when the scope ends, its whole list is
//! removed at once.
use rustc_hash::FxHashMap;
use vstd::prelude::*;

use crate::fxmap::{map_insert, map_new, map_remove};

verus! {

/// The handles registered under a scope, none where the scope has no entry.
pub open spec fn refs_of<H>(m: Map<u64, Seq<H>>, scope: u64) -> Seq<H> {
    if m.contains_key(scope) {
        m[scope]
    } else {
        Seq::empty()
    }
}

/// The rooted handles of each live scope, keyed by the scope's identity.
#[derive(Debug)]
pub struct Externals<H>(FxHashMap<u64, Vec<H>>);

impl<H> View for Externals<H> {
    type V = Map<u64, Seq<H>>;

    closed spec fn view(&self) -> Map<u64, Seq<H>> {
        self.0@.map_values(|v: Vec<H>| v@)
    }
}

impl<H> Externals<H> {
    /// No scope has any handle rooted.
    pub fn new() -> (r: Self)
        ensures
            r@ == Map::<u64, Seq<H>>::empty(),
    {
        let m = map_new();
        proof {
            assert(m@.map_values(|v: Vec<H>| v@) =~= Map::<u64, Seq<H>>::empty());
        }
        Externals(m)
    }

    /// Takes the list of a scope out of the map, leaving an empty list to fill in its place.
    fn take_list(&mut self, scope: u64) -> (r: Vec<H>)
        ensures
            r@ == refs_of(old(self)@, scope),
            final(self).0@ == old(self).0@.remove(scope),
    {
        match map_remove(&mut self.0, scope) {
            Some(v) => v,
            None => Vec::new(),
        }
    }

    /// Roots all of `refs` under `scope`, after those it already has.
    pub fn extend_from_scope(&mut self, scope: u64, refs: Vec<H>)
        ensures
            final(self)@ == old(self)@.insert(scope, refs_of(old(self)@, scope) + refs@),
    {
        let ghost added = refs@;
        let mut list = self.take_list(scope);
        let mut refs = refs;
        list.append(&mut refs);
        map_insert(&mut self.0, scope, list);
        proof {
            assert(self@ =~= old(self)@.insert(scope, refs_of(old(self)@, scope) + added));
        }
    }

    /// Roots one handle under `scope`, after those it already has.
    pub fn add_single(&mut self, scope: u64, handle: H)
        ensures
            final(self)@ == old(self)@.insert(scope, refs_of(old(self)@, scope).push(handle)),
    {
        let mut list = self.take_list(scope);
        list.push(handle);
        map_insert(&mut self.0, scope, list);
        proof {
            assert(self@ =~= old(self)@.insert(scope, refs_of(old(self)@, scope).push(handle)));
        }
    }

    /// Forgets the handles of a scope that ends and gives them back, if it had an entry.
    pub fn remove(&mut self, scope: u64) -> (r: Option<Vec<H>>)
        ensures
            final(self)@ == old(self)@.remove(scope),
            old(self)@.contains_key(scope) ==> (r matches Some(v) && v@ == old(self)@[scope]),
            !old(self)@.contains_key(scope) ==> r is None,
    {
        let r = map_remove(&mut self.0, scope);
        proof {
            assert(self@ =~= old(self)@.remove(scope));
        }
        r
    }
}

/// What a scope roots one handle at a time it gets back, in order, when it ends; the other
/// scopes keep their handles.
pub proof fn lemma_add_then_remove<H>(m: Map<u64, Seq<H>>, scope: u64, handle: H, other: u64)
    requires
        other != scope,
    ensures
        ({
            let added = m.insert(scope, refs_of(m, scope).push(handle));
            &&& added[scope] == refs_of(m, scope).push(handle)
            &&& added.remove(scope).contains_key(other) == m.contains_key(other)
            &&& m.contains_key(other) ==> added.remove(scope)[other] == m[other]
        }),
{
}

} // verus!
