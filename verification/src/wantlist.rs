//! A wantlist: the set of blocks one peer currently asks for.
//!
//! At most one entry per block identifier; inserting an entry for an
//! identifier that is already present replaces the old entry.

use vstd::prelude::*;

use crate::block::BlockId;
use crate::keyed::{
    get_by, has_key, key_at, lemma_get_by_index, lemma_get_by_push, lemma_get_by_remove,
    unique_keys,
};
use crate::message::WantKind;

verus! {

/// One wantlist item: identifier, priority, want kind and whether a negative
/// answer (`DontHave`) was asked for.
#[derive(Debug, Clone, Copy, PartialEq, Eq, Structural)]
pub struct WantEntry {
    pub id: BlockId,
    pub priority: i32,
    pub kind: WantKind,
    pub send_dont_have: bool,
}

/// Spec-level key projection for wantlist items.
pub open spec fn want_key() -> spec_fn(WantEntry) -> BlockId {
    |e: WantEntry| e.id
}

/// A peer's wantlist, one entry per block identifier.
#[derive(Debug, Clone, PartialEq, Eq)]
pub struct Wantlist {
    pub entries: Vec<WantEntry>,
}

impl Wantlist {
    /// No two entries share a block identifier.
    pub open spec fn wf(self) -> bool {
        unique_keys(self.entries@, want_key())
    }

    /// The entry stored for `id`, if any.
    pub open spec fn spec_get(self, id: BlockId) -> Option<WantEntry> {
        get_by(self.entries@, want_key(), id)
    }

    /// All entries, in insertion order.
    pub open spec fn view(self) -> Seq<WantEntry> {
        self.entries@
    }

    pub fn new() -> (w: Wantlist)
        ensures
            w.wf(),
            w@ =~= Seq::<WantEntry>::empty(),
            forall|id: BlockId| w.spec_get(id) is None,
    {
        Wantlist { entries: Vec::new() }
    }

    pub fn len(&self) -> (n: usize)
        ensures
            n == self@.len(),
    {
        self.entries.len()
    }

    /// All entries as a slice, for callers that walk the wantlist.
    pub fn entries(&self) -> (r: &Vec<WantEntry>)
        ensures
            r@ == self@,
    {
        &self.entries
    }

    /// Index of the entry for `id`, if one is stored.
    fn index_of(&self, id: &BlockId) -> (r: Option<usize>)
        requires
            self.wf(),
        ensures
            match r {
                Some(i) => i < self@.len() && self@[i as int].id == *id && self.spec_get(*id)
                    == Some(self@[i as int]),
                None => self.spec_get(*id) is None,
            },
    {
        let n = self.entries.len();
        for i in 0..n
            invariant
                n == self@.len(),
                self.wf(),
                forall|k: int| 0 <= k < i ==> self@[k].id != *id,
        {
            if self.entries[i].id == *id {
                proof {
                    lemma_get_by_index(self@, want_key(), i as int);
                }
                return Some(i);
            }
        }
        proof {
            assert(!has_key(self@, want_key(), *id));
        }
        None
    }

    pub fn get(&self, id: &BlockId) -> (r: Option<&WantEntry>)
        requires
            self.wf(),
        ensures
            match r {
                Some(e) => self.spec_get(*id) == Some(*e),
                None => self.spec_get(*id) is None,
            },
    {
        match self.index_of(id) {
            Some(i) => Some(&self.entries[i]),
            None => None,
        }
    }

    pub fn contains(&self, id: &BlockId) -> (r: bool)
        requires
            self.wf(),
        ensures
            r == (self.spec_get(*id) is Some),
    {
        self.index_of(id).is_some()
    }

    /// Insert `e`, replacing any entry already stored for `e.id`.
    pub fn insert(&mut self, e: WantEntry)
        requires
            old(self).wf(),
        ensures
            final(self).wf(),
            final(self).spec_get(e.id) == Some(e),
            forall|id: BlockId| id != e.id ==> final(self).spec_get(id) == old(self).spec_get(
                id,
            ),
    {
        self.remove(&e.id);
        proof {
            lemma_get_by_push(self.entries@, want_key(), e);
        }
        self.entries.push(e);
    }

    /// Remove and return the entry for `id`, if one is stored.
    pub fn remove(&mut self, id: &BlockId) -> (r: Option<WantEntry>)
        requires
            old(self).wf(),
        ensures
            final(self).wf(),
            r == old(self).spec_get(*id),
            final(self).spec_get(*id) is None,
            forall|id2: BlockId| id2 != *id ==> final(self).spec_get(id2) == old(
                self,
            ).spec_get(id2),
    {
        match self.index_of(id) {
            Some(i) => {
                proof {
                    lemma_get_by_remove(self.entries@, want_key(), i as int);
                }
                let e = self.entries.remove(i);
                Some(e)
            },
            None => None,
        }
    }

    /// Remove the entry for `id` only if it is stored with kind `kind`.
    ///
    /// Used after a want has been satisfied: removing the `Fetch` entry of a
    /// block must not disturb a `Probe` entry and the other way round.
    pub fn remove_kind(&mut self, id: &BlockId, kind: WantKind) -> (r: Option<WantEntry>)
        requires
            old(self).wf(),
        ensures
            final(self).wf(),
            match old(self).spec_get(*id) {
                Some(e) if e.kind == kind => r == Some(e) && final(self).spec_get(*id)
                    is None,
                _ => r is None && final(self).spec_get(*id) == old(self).spec_get(*id),
            },
            forall|id2: BlockId| id2 != *id ==> final(self).spec_get(id2) == old(
                self,
            ).spec_get(id2),
    {
        match self.index_of(id) {
            Some(i) => {
                if self.entries[i].kind == kind {
                    proof {
                        lemma_get_by_remove(self.entries@, want_key(), i as int);
                    }
                    let e = self.entries.remove(i);
                    Some(e)
                } else {
                    None
                }
            },
            None => None,
        }
    }

    /// Drop every entry.
    pub fn clear(&mut self)
        ensures
            final(self).wf(),
            final(self)@ =~= Seq::<WantEntry>::empty(),
            forall|id: BlockId| final(self).spec_get(id) is None,
    {
        self.entries.clear();
    }
}

} // verus!
