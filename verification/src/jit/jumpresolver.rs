use rustc_hash::FxHashMap;
use vstd::prelude::*;

use crate::frame::Ip;
use crate::fxmap::{map_insert, map_new, map_remove};

verus! {

/// Offset in the code buffer of the 4-byte displacement of a jump.
pub type PatchSite = u32;

/// Offset of an instruction in the emitted x86 code.
pub type X86Ip = u32;

/// What is known of one jump target: either the jumps still waiting for it, or where it is.
#[derive(Debug)]
pub enum PatchData {
    Unresolved { references: Vec<PatchSite> },
    Resolved { x86_ip: X86Ip },
}

/// The state of a jump target, as plain values.
pub enum LabelState {
    Unresolved(Seq<PatchSite>),
    Resolved(X86Ip),
}

impl PatchData {
    pub open spec fn state(self) -> LabelState {
        match self {
            PatchData::Unresolved { references } => LabelState::Unresolved(references@),
            PatchData::Resolved { x86_ip } => LabelState::Resolved(x86_ip),
        }
    }

    /// A target that no jump refers to yet.
    pub fn default() -> (r: Self)
        ensures
            r.state() == LabelState::Unresolved(Seq::<PatchSite>::empty()),
    {
        PatchData::Unresolved { references: Vec::new() }
    }
}

/// Labels of code locations that the emitter itself introduces.
#[derive(Debug, Clone, Copy, PartialEq, Eq, Hash)]
pub enum InternalLabel {
    StubStatusHandler,
    Epilogue,
}

impl InternalLabel {
    /// The key of this label in the label map.
    pub open spec fn key(self) -> u64 {
        match self {
            InternalLabel::StubStatusHandler => 0,
            InternalLabel::Epilogue => 1,
        }
    }

    pub fn index(self) -> (r: u64)
        ensures
            r == self.key(),
    {
        match self {
            InternalLabel::StubStatusHandler => 0,
            InternalLabel::Epilogue => 1,
        }
    }
}

/// Resolves branches from bytecode IPs to emitted x86 offsets.
///
/// - `user_labels` tracks bytecode targets and whether they are resolved.
/// - `internal_labels` tracks the emitter's own labels, such as the stub status slow-path handler.
#[derive(Debug)]
pub struct JumpResolver {
    user_labels: Vec<PatchData>,
    internal_labels: FxHashMap<u64, PatchData>,
}

impl JumpResolver {
    /// The state of each bytecode label.
    pub closed spec fn user_view(self) -> Seq<LabelState> {
        self.user_labels@.map_values(|p: PatchData| p.state())
    }

    /// The state of each internal label; a label that was never used is unresolved and unreferenced.
    pub closed spec fn internal_view(self, label: InternalLabel) -> LabelState {
        if self.internal_labels@.contains_key(label.key()) {
            self.internal_labels@[label.key()].state()
        } else {
            LabelState::Unresolved(Seq::empty())
        }
    }

    /// A resolver for bytecode of `bytecode_len` instructions: one label per instruction and one
    /// for the end of the bytecode, none of them resolved or referenced.
    pub fn new(bytecode_len: usize) -> (r: Self)
        requires
            bytecode_len < usize::MAX,
        ensures
            r.user_view().len() == bytecode_len + 1,
            forall|i: int| 0 <= i <= bytecode_len ==> r.user_view()[i] == LabelState::Unresolved(Seq::<PatchSite>::empty()),
            forall|l: InternalLabel| r.internal_view(l) == LabelState::Unresolved(Seq::<PatchSite>::empty()),
    {
        let mut user_labels: Vec<PatchData> = Vec::new();
        let mut i: usize = 0;
        while i <= bytecode_len
            invariant
                i <= bytecode_len + 1,
                bytecode_len < usize::MAX,
                user_labels@.len() == i,
                forall|j: int| 0 <= j < i ==> user_labels@[j].state() == LabelState::Unresolved(Seq::<PatchSite>::empty()),
            decreases bytecode_len + 1 - i,
        {
            user_labels.push(PatchData::default());
            i = i + 1;
        }
        JumpResolver { user_labels, internal_labels: map_new() }
    }

    /// Returns the resolved x86 target if already known; otherwise records
    /// this patch site as unresolved and returns `None`.
    pub fn add_user_reference(&mut self, target_bc_ip: Ip, patch_site: PatchSite) -> (r: Option<X86Ip>)
        requires
            (target_bc_ip.0 as int) < old(self).user_view().len(),
        ensures
            final(self).user_view().len() == old(self).user_view().len(),
            forall|i: int| 0 <= i < old(self).user_view().len() && i != target_bc_ip.0 as int
                ==> final(self).user_view()[i] == old(self).user_view()[i],
            forall|l: InternalLabel| final(self).internal_view(l) == old(self).internal_view(l),
            match old(self).user_view()[target_bc_ip.0 as int] {
                LabelState::Resolved(x) => r == Some(x) && final(self).user_view()[target_bc_ip.0 as int] == LabelState::Resolved(x),
                LabelState::Unresolved(refs) => r is None && final(self).user_view()[target_bc_ip.0 as int] == LabelState::Unresolved(refs.push(patch_site)),
            },
    {
        let idx = target_bc_ip.0 as usize;
        let ghost old_labels = self.user_labels@;
        let mut slot = PatchData::default();
        std::mem::swap(&mut slot, &mut self.user_labels[idx]);
        let r = match slot {
            PatchData::Resolved { x86_ip } => {
                self.user_labels.set(idx, PatchData::Resolved { x86_ip });
                Some(x86_ip)
            },
            PatchData::Unresolved { references } => {
                let mut references = references;
                references.push(patch_site);
                self.user_labels.set(idx, PatchData::Unresolved { references });
                None
            },
        };
        assert(self.user_labels@ == old_labels.update(idx as int, self.user_labels@[idx as int]));
        r
    }

    /// Marks a bytecode label as resolved and returns any patch sites that
    /// previously referenced it.
    pub fn resolve_user_label(&mut self, bc_ip: Ip, x86_ip: X86Ip) -> (r: Vec<PatchSite>)
        requires
            (bc_ip.0 as int) < old(self).user_view().len(),
            old(self).user_view()[bc_ip.0 as int] is Unresolved,
        ensures
            final(self).user_view() == old(self).user_view().update(bc_ip.0 as int, LabelState::Resolved(x86_ip)),
            forall|l: InternalLabel| final(self).internal_view(l) == old(self).internal_view(l),
            old(self).user_view()[bc_ip.0 as int] == LabelState::Unresolved(r@),
    {
        let idx = bc_ip.0 as usize;
        let ghost old_labels = self.user_labels@;
        let mut slot = PatchData::Resolved { x86_ip };
        std::mem::swap(&mut slot, &mut self.user_labels[idx]);
        proof {
            assert(self.user_labels@ == old_labels.update(idx as int, PatchData::Resolved { x86_ip }));
            assert(self.user_view() =~= old(self).user_view().update(idx as int, LabelState::Resolved(x86_ip)));
        }
        match slot {
            PatchData::Unresolved { references } => references,
            PatchData::Resolved { .. } => {
                proof {
                    assert(false);
                }
                Vec::new()
            },
        }
    }

    /// Returns the resolved x86 target of an internal label if already known; otherwise records
    /// this patch site as unresolved and returns `None`.
    pub fn add_internal_reference(&mut self, label: InternalLabel, patch_site: PatchSite) -> (r: Option<X86Ip>)
        ensures
            final(self).user_view() == old(self).user_view(),
            forall|l: InternalLabel| l != label ==> final(self).internal_view(l) == old(self).internal_view(l),
            match old(self).internal_view(label) {
                LabelState::Resolved(x) => r == Some(x) && final(self).internal_view(label) == LabelState::Resolved(x),
                LabelState::Unresolved(refs) => r is None && final(self).internal_view(label) == LabelState::Unresolved(refs.push(patch_site)),
            },
    {
        let key = label.index();
        let slot = match map_remove(&mut self.internal_labels, key) {
            Some(slot) => slot,
            None => PatchData::default(),
        };
        let r = match slot {
            PatchData::Resolved { x86_ip } => {
                map_insert(&mut self.internal_labels, key, PatchData::Resolved { x86_ip });
                Some(x86_ip)
            },
            PatchData::Unresolved { references } => {
                let mut references = references;
                references.push(patch_site);
                map_insert(&mut self.internal_labels, key, PatchData::Unresolved { references });
                None
            },
        };
        proof {
            assert forall|l: InternalLabel| l != label implies final_internal_same(old(self).internal_labels@, self.internal_labels@, l) by {
                assert(l.key() != label.key());
            }
        }
        r
    }

    /// Marks an internal label as resolved and returns any patch sites that previously referenced it.
    pub fn resolve_internal_label(&mut self, label: InternalLabel, x86_ip: X86Ip) -> (r: Vec<PatchSite>)
        requires
            old(self).internal_view(label) is Unresolved,
        ensures
            final(self).user_view() == old(self).user_view(),
            forall|l: InternalLabel| l != label ==> final(self).internal_view(l) == old(self).internal_view(l),
            final(self).internal_view(label) == LabelState::Resolved(x86_ip),
            old(self).internal_view(label) == LabelState::Unresolved(r@),
    {
        let key = label.index();
        let slot = match map_remove(&mut self.internal_labels, key) {
            Some(slot) => slot,
            None => PatchData::default(),
        };
        map_insert(&mut self.internal_labels, key, PatchData::Resolved { x86_ip });
        proof {
            assert forall|l: InternalLabel| l != label implies final_internal_same(old(self).internal_labels@, self.internal_labels@, l) by {
                assert(l.key() != label.key());
            }
        }
        match slot {
            PatchData::Unresolved { references } => references,
            PatchData::Resolved { .. } => {
                proof {
                    assert(false);
                }
                Vec::new()
            },
        }
    }
}

/// Two label maps agree on the entry of `l`.
spec fn final_internal_same(a: Map<u64, PatchData>, b: Map<u64, PatchData>, l: InternalLabel) -> bool {
    &&& a.contains_key(l.key()) == b.contains_key(l.key())
    &&& a.contains_key(l.key()) ==> a[l.key()] == b[l.key()]
}

} // verus!
