//! Wire-shape of the messages the engine consumes and produces.
//!
//! Inbound: a possibly-`full` wantlist of entries. Outbound: a count of
//! pending bytes, blocks, and block presences (`Have` / `DontHave`).
//! The codec that frames these on the wire lives outside the engine.

use vstd::prelude::*;

use crate::block::{Block, BlockId};
use crate::keyed::{get_by, has_key, unique_keys};

verus! {

/// The two kinds of interest a peer can announce: `Probe` asks for presence
/// information only, `Fetch` asks for the block data.
#[derive(Debug, Clone, Copy, PartialEq, Eq, Structural)]
pub enum WantKind {
    Probe,
    Fetch,
}

/// One entry of an inbound wantlist message.
#[derive(Debug, Clone, Copy, PartialEq, Eq, Structural)]
pub struct Entry {
    pub id: BlockId,
    pub priority: i32,
    pub kind: WantKind,
    pub cancel: bool,
    pub send_dont_have: bool,
}

/// Presence signal kinds for a block the engine was asked about.
#[derive(Debug, Clone, Copy, PartialEq, Eq, Structural)]
pub enum PresenceKind {
    Have,
    DontHave,
}

/// A `(block id, Have | DontHave)` pair on an outbound message.
#[derive(Debug, Clone, Copy, PartialEq, Eq, Structural)]
pub struct BlockPresence {
    pub id: BlockId,
    pub typ: PresenceKind,
}

/// Encoded length of a block identifier on the wire. Identifiers are
/// content hashes of one fixed digest size, so the length is stable.
pub const ID_ENCODED_LEN: usize = 36;

/// Framing overhead of one presence entry around the encoded identifier.
pub const PRESENCE_OVERHEAD: usize = 6;

impl BlockPresence {
    /// Projected on-wire cost of a presence entry for one block identifier.
    pub fn encoded_len_for_id(_id: &BlockId) -> (n: usize)
        ensures
            n == spec_presence_len(),
    {
        ID_ENCODED_LEN + PRESENCE_OVERHEAD
    }
}

/// Spec twin of [`BlockPresence::encoded_len_for_id`].
pub open spec fn spec_presence_len() -> int {
    ID_ENCODED_LEN + PRESENCE_OVERHEAD
}

/// Spec-level key projection for wantlist entries.
pub open spec fn entry_key() -> spec_fn(Entry) -> BlockId {
    |e: Entry| e.id
}

/// The entry for `id` in an inbound entry list, if any.
pub open spec fn find_entry(s: Seq<Entry>, id: BlockId) -> Option<Entry> {
    get_by(s, entry_key(), id)
}

/// A message exchanged with one peer.
///
/// The same shape serves both directions, as on the wire: inbound messages
/// carry `entries` (and the `full` flag), outbound messages carry
/// `pending_bytes`, `blocks` and `block_presences`.
#[derive(Debug, Clone, PartialEq, Eq)]
pub struct Message {
    pub full: bool,
    pub entries: Vec<Entry>,
    pub pending_bytes: u64,
    pub blocks: Vec<Block>,
    pub block_presences: Vec<BlockPresence>,
}

impl Message {
    /// Entries mention no block identifier twice.
    pub open spec fn wf(self) -> bool {
        unique_keys(self.entries@, entry_key())
    }

    /// The entry for `id`, if the message carries one.
    pub open spec fn entry_for(self, id: BlockId) -> Option<Entry> {
        find_entry(self.entries@, id)
    }

    pub fn new(full: bool) -> (m: Message)
        ensures
            m.full == full,
            m.entries@ =~= Seq::<Entry>::empty(),
            m.blocks@ =~= Seq::<Block>::empty(),
            m.block_presences@ =~= Seq::<BlockPresence>::empty(),
            m.pending_bytes == 0,
            m.wf(),
    {
        Message {
            full,
            entries: Vec::new(),
            pending_bytes: 0,
            blocks: Vec::new(),
            block_presences: Vec::new(),
        }
    }

    pub fn full(&self) -> (r: bool)
        ensures
            r == self.full,
    {
        self.full
    }

    pub fn set_pending_bytes(&mut self, n: u64)
        ensures
            *final(self) == (Message { pending_bytes: n, ..*old(self) }),
    {
        self.pending_bytes = n;
    }

    /// Add one wantlist entry (used by the side that composes requests).
    pub fn push_entry(&mut self, e: Entry)
        ensures
            *final(self) == (Message { entries: final(self).entries, ..*old(self) }),
            final(self).entries@ == old(self).entries@.push(e),
    {
        self.entries.push(e);
    }

    pub fn add_have(&mut self, id: BlockId)
        ensures
            *final(self) == (Message {
                block_presences: final(self).block_presences,
                ..*old(self)
            }),
            final(self).block_presences@ == (old(self).block_presences@.push(
                BlockPresence { id, typ: PresenceKind::Have },
            )),
    {
        self.block_presences.push(BlockPresence { id, typ: PresenceKind::Have });
    }

    pub fn add_dont_have(&mut self, id: BlockId)
        ensures
            *final(self) == (Message {
                block_presences: final(self).block_presences,
                ..*old(self)
            }),
            final(self).block_presences@ == (old(self).block_presences@.push(
                BlockPresence { id, typ: PresenceKind::DontHave },
            )),
    {
        self.block_presences.push(BlockPresence { id, typ: PresenceKind::DontHave });
    }

    pub fn add_block(&mut self, b: Block)
        ensures
            *final(self) == (Message { blocks: final(self).blocks, ..*old(self) }),
            final(self).blocks@ == old(self).blocks@.push(b),
    {
        self.blocks.push(b);
    }

    /// True if the message carries no entries, blocks or presences.
    pub fn is_empty(&self) -> (r: bool)
        ensures
            r == (self.entries@.len() == 0 && self.blocks@.len() == 0
                && self.block_presences@.len() == 0),
    {
        self.entries.is_empty() && self.blocks.is_empty() && self.block_presences.is_empty()
    }
}

/// True if `id` is the identifier of some block in `blocks`.
pub open spec fn blocks_mention(blocks: Seq<Block>, id: BlockId) -> bool {
    exists|k: int| 0 <= k < blocks.len() && blocks[k].id == id
}

/// Spec-level key projection for presences.
pub open spec fn presence_key() -> spec_fn(BlockPresence) -> BlockId {
    |p: BlockPresence| p.id
}

/// True if `id` is mentioned by some presence in `presences`.
pub open spec fn presences_mention(presences: Seq<BlockPresence>, id: BlockId) -> bool {
    exists|k: int| 0 <= k < presences.len() && presences[k].id == id
}

/// True if an outbound message mentions `id` at all, as a block or presence.
pub open spec fn message_mentions(m: Message, id: BlockId) -> bool {
    blocks_mention(m.blocks@, id) || presences_mention(m.block_presences@, id)
}

} // verus!
