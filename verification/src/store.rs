//! The local block store and the gateway the engine reads it through.
//!
//! The store maps block identifiers to block data, one block per identifier.
//! `BlockstoreManager` is the engine's access layer: single lookups plus the
//! batched forms used to size and fetch many blocks in one call.

use vstd::prelude::*;

use crate::block::{Block, BlockId};
use crate::keyed::{
    get_by, has_key, key_at, lemma_get_by_index, lemma_get_by_push, lemma_get_by_remove,
    unique_keys,
};

verus! {

/// Spec-level key projection for stored blocks.
pub open spec fn block_key() -> spec_fn(Block) -> BlockId {
    |b: Block| b.id
}

/// An in-memory block store: at most one block per identifier.
#[derive(Debug, Clone)]
pub struct Store {
    pub blocks: Vec<Block>,
}

impl Store {
    pub open spec fn wf(self) -> bool {
        unique_keys(self.blocks@, block_key())
    }

    /// The block stored under `id`, if any.
    pub open spec fn spec_get(self, id: BlockId) -> Option<Block> {
        get_by(self.blocks@, block_key(), id)
    }

    /// The size of the block stored under `id`, if any.
    pub open spec fn size_of(self, id: BlockId) -> Option<int> {
        match self.spec_get(id) {
            Some(b) => Some(b.data@.len() as int),
            None => None,
        }
    }

    pub fn new() -> (s: Store)
        ensures
            s.wf(),
            forall|id: BlockId| s.spec_get(id) is None,
    {
        Store { blocks: Vec::new() }
    }

    /// Index of the block for `id`, if any.
    fn index_of(&self, id: &BlockId) -> (r: Option<usize>)
        requires
            self.wf(),
        ensures
            match r {
                Some(i) => i < self.blocks@.len() && self.blocks@[i as int].id == *id
                    && self.spec_get(*id) == Some(self.blocks@[i as int]),
                None => self.spec_get(*id) is None,
            },
    {
        let n = self.blocks.len();
        for i in 0..n
            invariant
                n == self.blocks@.len(),
                self.wf(),
                forall|k: int| 0 <= k < i ==> self.blocks@[k].id != *id,
        {
            if self.blocks[i].id == *id {
                proof {
                    lemma_get_by_index(self.blocks@, block_key(), i as int);
                }
                return Some(i);
            }
        }
        proof {
            assert(!has_key(self.blocks@, block_key(), *id));
        }
        None
    }

    /// Store `b`, replacing any block already stored under its identifier.
    pub fn put(&mut self, b: Block)
        requires
            old(self).wf(),
        ensures
            final(self).wf(),
            final(self).spec_get(b.id) == Some(b),
            forall|id: BlockId|
                id != b.id ==> final(self).spec_get(id) == old(self).spec_get(id),
    {
        match self.index_of(&b.id) {
            Some(i) => {
                proof {
                    lemma_get_by_remove(self.blocks@, block_key(), i as int);
                }
                self.blocks.remove(i);
            },
            None => {},
        }
        proof {
            lemma_get_by_push(self.blocks@, block_key(), b);
        }
        self.blocks.push(b);
    }

    pub fn has(&self, id: &BlockId) -> (r: bool)
        requires
            self.wf(),
        ensures
            r == (self.spec_get(*id) is Some),
    {
        self.index_of(id).is_some()
    }

    pub fn get_size(&self, id: &BlockId) -> (r: Option<usize>)
        requires
            self.wf(),
        ensures
            match self.size_of(*id) {
                Some(n) => r == Some(n as usize),
                None => r is None,
            },
    {
        match self.index_of(id) {
            Some(i) => Some(self.blocks[i].data.len()),
            None => None,
        }
    }

    /// A copy of the block stored under `id`, if any.
    pub fn get(&self, id: &BlockId) -> (r: Option<Block>)
        requires
            self.wf(),
        ensures
            match self.spec_get(*id) {
                Some(b) => r is Some && r->Some_0.id == b.id && r->Some_0.data@ == b.data@,
                None => r is None,
            },
    {
        match self.index_of(id) {
            Some(i) => {
                let b = &self.blocks[i];
                Some(Block { id: b.id, data: copy_bytes(&b.data) })
            },
            None => None,
        }
    }
}

/// A copy of a block, byte for byte.
pub fn clone_block(b: &Block) -> (r: Block)
    ensures
        r.id == b.id,
        r.data@ == b.data@,
{
    Block { id: b.id, data: copy_bytes(&b.data) }
}

/// A byte-for-byte copy of a data buffer.
fn copy_bytes(data: &Vec<u8>) -> (r: Vec<u8>)
    ensures
        r@ == data@,
{
    let n = data.len();
    let mut out: Vec<u8> = Vec::new();
    for i in 0..n
        invariant
            n == data@.len(),
            out@ =~= data@.subrange(0, i as int),
    {
        out.push(data[i]);
        proof {
            assert(out@ =~= data@.subrange(0, i + 1 as int));
        }
    }
    proof {
        assert(data@.subrange(0, n as int) =~= data@);
    }
    out
}

/// One entry of a batched size answer.
#[derive(Debug, Clone, Copy, PartialEq, Eq, Structural)]
pub struct IdSize {
    pub id: BlockId,
    pub size: usize,
}

/// Spec-level key projection for size answers.
pub open spec fn idsize_key() -> spec_fn(IdSize) -> BlockId {
    |e: IdSize| e.id
}

/// Identity projection, to read an identifier list as a set of keys.
pub open spec fn id_self_key() -> spec_fn(BlockId) -> BlockId {
    |i: BlockId| i
}

/// The engine's access layer over the store.
///
/// `worker_count` records the bound on concurrent store operations the
/// embedder runs this gateway under; the gateway itself answers one call at
/// a time, so the bound holds trivially here.
#[derive(Debug, Clone)]
pub struct BlockstoreManager {
    pub store: Store,
    pub worker_count: usize,
}

impl BlockstoreManager {
    pub open spec fn wf(self) -> bool {
        self.store.wf()
    }

    pub fn new(store: Store, worker_count: usize) -> (m: BlockstoreManager)
        requires
            store.wf(),
        ensures
            m.wf(),
            m.store == store,
            m.worker_count == worker_count,
    {
        BlockstoreManager { store, worker_count }
    }

    pub fn has(&self, id: &BlockId) -> (r: bool)
        requires
            self.wf(),
        ensures
            r == (self.store.spec_get(*id) is Some),
    {
        self.store.has(id)
    }

    pub fn get_size(&self, id: &BlockId) -> (r: Option<usize>)
        requires
            self.wf(),
        ensures
            match self.store.size_of(*id) {
                Some(n) => r == Some(n as usize),
                None => r is None,
            },
    {
        self.store.get_size(id)
    }

    pub fn get(&self, id: &BlockId) -> (r: Option<Block>)
        requires
            self.wf(),
        ensures
            match self.store.spec_get(*id) {
                Some(b) => r is Some && r->Some_0.id == b.id && r->Some_0.data@ == b.data@,
                None => r is None,
            },
    {
        self.store.get(id)
    }

    /// Record a block in the store.
    pub fn put(&mut self, b: Block)
        requires
            old(self).wf(),
        ensures
            final(self).wf(),
            final(self).worker_count == old(self).worker_count,
            final(self).store.spec_get(b.id) == Some(b),
            forall|id: BlockId|
                id != b.id ==> final(self).store.spec_get(id) == old(self).store.spec_get(id),
    {
        self.store.put(b);
    }

    /// Sizes for every queried identifier the store knows, one entry per
    /// identifier; identifiers the store does not know are absent from the
    /// answer. The query names each identifier once.
    #[verifier::rlimit(100)]
    pub fn get_block_sizes(&self, ids: &Vec<BlockId>) -> (r: Vec<IdSize>)
        requires
            self.wf(),
            unique_keys(ids@, id_self_key()),
        ensures
            unique_keys(r@, idsize_key()),
            forall|k: int|
                0 <= k < r@.len() ==> {
                    let e = #[trigger] r@[k];
                    ids@.contains(e.id) && self.store.size_of(e.id) == Some(e.size as int)
                },
            forall|j: int|
                0 <= j < ids@.len() && self.store.size_of(#[trigger] ids@[j]) is Some ==> exists|
                    k: int,
                |
                    0 <= k < r@.len() && r@[k].id == ids@[j],
    {
        let n = ids.len();
        let mut out: Vec<IdSize> = Vec::new();
        for j in 0..n
            invariant
                n == ids@.len(),
                self.wf(),
                unique_keys(ids@, id_self_key()),
                unique_keys(out@, idsize_key()),
                forall|j2: int|
                    j <= j2 < n ==> !has_key(out@, idsize_key(), #[trigger] ids@[j2]),
                forall|k: int|
                    0 <= k < out@.len() ==> {
                        let e = #[trigger] out@[k];
                        ids@.contains(e.id) && self.store.size_of(e.id) == Some(e.size as int)
                    },
                forall|j2: int|
                    0 <= j2 < j && self.store.size_of(#[trigger] ids@[j2]) is Some ==> exists|
                        k: int,
                    |
                        0 <= k < out@.len() && out@[k].id == ids@[j2],
        {
            match self.store.get_size(&ids[j]) {
                Some(sz) => {
                    let ghost old_out = out@;
                    proof {
                        lemma_get_by_push(old_out, idsize_key(), IdSize { id: ids@[j as int], size: sz });
                    }
                    out.push(IdSize { id: ids[j], size: sz });
                    proof {
                        assert(out@[out@.len() - 1].id == ids@[j as int]);
                        assert(ids@.contains(ids@[j as int]));
                        assert forall|j2: int|
                            j + 1 <= j2 < n implies !has_key(
                            out@,
                            idsize_key(),
                            #[trigger] ids@[j2],
                        ) by {
                            assert(id_self_key()(ids@[j2]) != id_self_key()(ids@[j as int]));
                            assert(has_key(out@, idsize_key(), ids@[j2]) == has_key(
                                old_out,
                                idsize_key(),
                                ids@[j2],
                            ));
                        }
                        assert forall|k: int| 0 <= k < out@.len() implies {
                            let e = #[trigger] out@[k];
                            ids@.contains(e.id) && self.store.size_of(e.id) == Some(
                                e.size as int,
                            )
                        } by {
                            if k < out@.len() - 1 {
                                assert(out@[k] == old_out[k]);
                            } else {
                                let b = self.store.spec_get(ids@[j as int])->Some_0;
                                assert(b.data.len() == b.data@.len());
                            }
                        }
                        assert forall|j2: int|
                            0 <= j2 < j + 1 && self.store.size_of(#[trigger] ids@[j2])
                                is Some implies exists|k: int|
                            0 <= k < out@.len() && out@[k].id == ids@[j2] by {
                            if j2 < j {
                                let k = choose|k: int|
                                    0 <= k < old_out.len() && old_out[k].id == ids@[j2];
                                assert(out@[k].id == ids@[j2]);
                            } else {
                                assert(out@[out@.len() - 1].id == ids@[j2]);
                            }
                        }
                    }
                },
                None => {},
            }
        }
        out
    }

    /// The blocks stored under the queried identifiers, one per identifier;
    /// identifiers the store does not know are absent from the answer. The
    /// query names each identifier once.
    #[verifier::rlimit(100)]
    pub fn get_blocks(&self, ids: &Vec<BlockId>) -> (r: Vec<Block>)
        requires
            self.wf(),
            unique_keys(ids@, id_self_key()),
        ensures
            unique_keys(r@, block_key()),
            forall|k: int|
                0 <= k < r@.len() ==> {
                    let b = #[trigger] r@[k];
                    ids@.contains(b.id) && self.store.spec_get(b.id) is Some
                        && self.store.spec_get(b.id)->Some_0.data@ == b.data@
                },
            forall|j: int|
                0 <= j < ids@.len() && self.store.spec_get(#[trigger] ids@[j]) is Some ==> exists|
                    k: int,
                |
                    0 <= k < r@.len() && r@[k].id == ids@[j],
    {
        let n = ids.len();
        let mut out: Vec<Block> = Vec::new();
        for j in 0..n
            invariant
                n == ids@.len(),
                self.wf(),
                unique_keys(ids@, id_self_key()),
                unique_keys(out@, block_key()),
                forall|j2: int|
                    j <= j2 < n ==> !has_key(out@, block_key(), #[trigger] ids@[j2]),
                forall|k: int|
                    0 <= k < out@.len() ==> {
                        let b = #[trigger] out@[k];
                        ids@.contains(b.id) && self.store.spec_get(b.id) is Some
                            && self.store.spec_get(b.id)->Some_0.data@ == b.data@
                    },
                forall|j2: int|
                    0 <= j2 < j && self.store.spec_get(#[trigger] ids@[j2]) is Some ==> exists|
                        k: int,
                    |
                        0 <= k < out@.len() && out@[k].id == ids@[j2],
        {
            match self.store.get(&ids[j]) {
                Some(b) => {
                    let ghost old_out = out@;
                    proof {
                        assert(b.id == ids@[j as int]);
                        lemma_get_by_push(old_out, block_key(), b);
                    }
                    out.push(b);
                    proof {
                        assert(out@[out@.len() - 1].id == ids@[j as int]);
                        assert(ids@.contains(ids@[j as int]));
                        assert forall|j2: int|
                            j + 1 <= j2 < n implies !has_key(
                            out@,
                            block_key(),
                            #[trigger] ids@[j2],
                        ) by {
                            assert(id_self_key()(ids@[j2]) != id_self_key()(ids@[j as int]));
                            assert(has_key(out@, block_key(), ids@[j2]) == has_key(
                                old_out,
                                block_key(),
                                ids@[j2],
                            ));
                        }
                        assert forall|k: int| 0 <= k < out@.len() implies {
                            let b2 = #[trigger] out@[k];
                            ids@.contains(b2.id) && self.store.spec_get(b2.id) is Some
                                && self.store.spec_get(b2.id)->Some_0.data@ == b2.data@
                        } by {
                            if k < out@.len() - 1 {
                                assert(out@[k] == old_out[k]);
                            }
                        }
                        assert forall|j2: int|
                            0 <= j2 < j + 1 && self.store.spec_get(#[trigger] ids@[j2])
                                is Some implies exists|k: int|
                            0 <= k < out@.len() && out@[k].id == ids@[j2] by {
                            if j2 < j {
                                let k = choose|k: int|
                                    0 <= k < old_out.len() && old_out[k].id == ids@[j2];
                                assert(out@[k].id == ids@[j2]);
                            } else {
                                assert(out@[out@.len() - 1].id == ids@[j2]);
                            }
                        }
                    }
                },
                None => {},
            }
        }
        out
    }
}

} // verus!
