//! The ledger kept for one connected peer: its identity and its wantlist.

use vstd::prelude::*;

use crate::block::{BlockId, PeerId};
use crate::message::WantKind;
use crate::wantlist::{WantEntry, Wantlist};

verus! {

/// Per-peer state: the peer's identity and what it currently wants.
#[derive(Debug, Clone)]
pub struct Ledger {
    pub partner: PeerId,
    pub wantlist: Wantlist,
}

impl Ledger {
    pub open spec fn wf(self) -> bool {
        self.wantlist.wf()
    }

    /// The wantlist entry stored for `id`, if any.
    pub open spec fn spec_get(self, id: BlockId) -> Option<WantEntry> {
        self.wantlist.spec_get(id)
    }

    pub fn new(partner: PeerId) -> (l: Ledger)
        ensures
            l.wf(),
            l.partner == partner,
            l.wantlist@ =~= Seq::<WantEntry>::empty(),
            forall|id: BlockId| l.spec_get(id) is None,
    {
        Ledger { partner, wantlist: Wantlist::new() }
    }

    pub fn partner(&self) -> (p: PeerId)
        ensures
            p == self.partner,
    {
        self.partner
    }

    /// Record a want: insert or replace the entry for `id`.
    pub fn wants(&mut self, id: BlockId, priority: i32, kind: WantKind, send_dont_have: bool)
        requires
            old(self).wf(),
        ensures
            final(self).wf(),
            final(self).partner == old(self).partner,
            final(self).spec_get(id) == (Some(
                WantEntry { id, priority, kind, send_dont_have },
            )),
            forall|id2: BlockId| id2 != id ==> final(self).spec_get(id2) == old(
                self,
            ).spec_get(id2),
    {
        self.wantlist.insert(WantEntry { id, priority, kind, send_dont_have });
    }

    /// Withdraw the want for `id`, returning the entry that was stored.
    pub fn cancel(&mut self, id: &BlockId) -> (r: Option<WantEntry>)
        requires
            old(self).wf(),
        ensures
            final(self).wf(),
            final(self).partner == old(self).partner,
            r == old(self).spec_get(*id),
            final(self).spec_get(*id) is None,
            forall|id2: BlockId| id2 != *id ==> final(self).spec_get(id2) == old(
                self,
            ).spec_get(id2),
    {
        self.wantlist.remove(id)
    }

    /// Drop the entry for `id` only if its kind matches; a no-op otherwise.
    pub fn remove_kind(&mut self, id: &BlockId, kind: WantKind) -> (r: Option<WantEntry>)
        requires
            old(self).wf(),
        ensures
            final(self).wf(),
            final(self).partner == old(self).partner,
            match old(self).spec_get(*id) {
                Some(e) if e.kind == kind => r == Some(e) && final(self).spec_get(*id)
                    is None,
                _ => r is None && final(self).spec_get(*id) == old(self).spec_get(*id),
            },
            forall|id2: BlockId| id2 != *id ==> final(self).spec_get(id2) == old(
                self,
            ).spec_get(id2),
    {
        self.wantlist.remove_kind(id, kind)
    }

    pub fn get(&self, id: &BlockId) -> (r: Option<&WantEntry>)
        requires
            self.wf(),
        ensures
            match r {
                Some(e) => self.spec_get(*id) == Some(*e),
                None => self.spec_get(*id) is None,
            },
    {
        self.wantlist.get(id)
    }

    /// All current entries.
    pub fn entries(&self) -> (r: &Vec<WantEntry>)
        ensures
            r@ == self.wantlist@,
    {
        self.wantlist.entries()
    }

    /// Empty the wantlist. The caller is responsible for purging any tasks
    /// and reverse-index records that matched the dropped entries.
    pub fn clear_wantlist(&mut self)
        ensures
            final(self).wf(),
            final(self).partner == old(self).partner,
            final(self).wantlist@ =~= Seq::<WantEntry>::empty(),
            forall|id: BlockId| final(self).spec_get(id) is None,
    {
        self.wantlist.clear();
    }
}

} // verus!
