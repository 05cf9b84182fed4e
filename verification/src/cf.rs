//! Column-family records of the block store's persistent layout.
//!
//! Each record is written versioned, so newer layouts can still be read as
//! the older version. Identifiers are carried as raw bytes here: the store
//! persists the multihash and codec rather than a parsed identifier.

use vstd::prelude::*;

verus! {

/// Column family that stores actual data, mapping a numeric id to bytes.
pub const CF_BLOBS_V0: &'static str = "blobs-v0";

/// Column family that stores mutable mount-point references by id.
pub const CF_MOUNTS_V0: &'static str = "mounts-v0";

/// Column family that stores metadata about a blob, by id.
pub const CF_METADATA_V0: &'static str = "metadata-v0";

/// Column family that stores the link graph of a blob, by id.
pub const CF_GRAPH_V0: &'static str = "graph-v0";

/// Column family that maps `(multihash, codec)` to id. The multihash comes
/// first so ids can be found by full identifier or by multihash alone.
pub const CF_ID_V0: &'static str = "id-v0";

/// Wrapper marking a value as serialised out of line, so that newer
/// versions can be viewed as the older version.
#[derive(Debug, Clone, PartialEq, Eq)]
pub struct Versioned<T>(pub T);

/// Metadata stored for one blob: the codec its identifier was minted with and
/// the multihash bytes.
#[derive(Debug, Clone, PartialEq, Eq)]
pub struct MetadataV0 {
    pub codec: u64,
    pub multihash: Vec<u8>,
}

/// A named, mutable mount point: a name bound to an identifier, with
/// optional key material for private mounts.
#[derive(Debug, Clone, PartialEq, Eq)]
pub struct MountV0 {
    pub name: Vec<u8>,
    pub cid: Vec<u8>,
    pub key: Option<Vec<u8>>,
    pub private_name: Option<Vec<u8>>,
}

/// A mounted drive as the mount layer sees it: the same fields as
/// [`MountV0`], before being laid out for the store.
#[derive(Debug, Clone, PartialEq, Eq)]
pub struct Drive {
    pub name: Vec<u8>,
    pub cid: Vec<u8>,
    pub key: Option<Vec<u8>>,
    pub private_name: Option<Vec<u8>>,
}

impl MountV0 {
    /// Lay a drive out as a mount record.
    pub fn from(drive: Drive) -> (r: MountV0)
        ensures
            r.name@ == drive.name@,
            r.cid@ == drive.cid@,
            r.key == drive.key,
            r.private_name == drive.private_name,
    {
        MountV0 {
            name: drive.name,
            cid: drive.cid,
            key: drive.key,
            private_name: drive.private_name,
        }
    }
}

/// The link graph of one blob: the ids of its children.
#[derive(Debug, Clone, PartialEq, Eq)]
pub struct GraphV0 {
    pub children: Vec<u64>,
}

} // verus!
