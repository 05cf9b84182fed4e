//! Block identifiers, blocks and peer identities.
//!
//! A `BlockId` stands for an opaque content-derived identifier with a stable
//! encoded length; a `PeerId` stands for an opaque peer identity. The engine
//! only ever compares and stores them, so both are carried as plain integers.

use vstd::prelude::*;

verus! {

/// Opaque content identifier for a block.
#[derive(Debug, Clone, Copy, PartialEq, Eq, Hash, Structural)]
pub struct BlockId {
    pub key: u64,
}

/// Opaque identity of a remote peer.
#[derive(Debug, Clone, Copy, PartialEq, Eq, Hash, Structural)]
pub struct PeerId {
    pub id: u64,
}

/// An immutable block: an identifier plus the data it names.
#[derive(Debug, Clone, PartialEq, Eq)]
#[verifier::ext_equal]
pub struct Block {
    pub id: BlockId,
    pub data: Vec<u8>,
}

impl Block {
    pub fn new(id: BlockId, data: Vec<u8>) -> (b: Block)
        ensures
            b.id == id,
            b.data@ == data@,
    {
        Block { id, data }
    }
}

} // verus!
