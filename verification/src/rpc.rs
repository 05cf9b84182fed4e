//! Shapes of the store's control-plane conversation.
//!
//! One request and one response variant per store capability; identifiers
//! travel as raw bytes. The transport that carries these lives outside the
//! library.

use vstd::prelude::*;

verus! {

/// The version-service endpoint; it owns no state.
#[derive(Debug, Clone, Copy, PartialEq, Eq, Structural)]
pub struct One {}

impl Default for One {
    fn default() -> (r: One)
        ensures
            r == (One {  }),
    {
        One {  }
    }
}

/// Answer to a version query.
#[derive(Debug, Clone, PartialEq, Eq)]
pub struct VersionResponse {
    pub version: Vec<u8>,
}

/// Store a blob under an identifier, with the identifiers it links to.
#[derive(Debug, Clone, PartialEq, Eq)]
pub struct PutRequest {
    pub cid: Vec<u8>,
    pub blob: Vec<u8>,
    pub links: Vec<Vec<u8>>,
}

/// Fetch the blob stored under an identifier.
#[derive(Debug, Clone, PartialEq, Eq)]
pub struct GetRequest {
    pub cid: Vec<u8>,
}

/// Answer to a fetch: the blob, if the store has it.
#[derive(Debug, Clone, PartialEq, Eq)]
pub struct GetResponse {
    pub data: Option<Vec<u8>>,
}

/// Ask whether the store has a blob.
#[derive(Debug, Clone, PartialEq, Eq)]
pub struct HasRequest {
    pub cid: Vec<u8>,
}

/// Answer to a presence query.
#[derive(Debug, Clone, Copy, PartialEq, Eq, Structural)]
pub struct HasResponse {
    pub has: bool,
}

/// Ask for the identifiers a stored blob links to.
#[derive(Debug, Clone, PartialEq, Eq)]
pub struct GetLinksRequest {
    pub cid: Vec<u8>,
}

/// Answer to a links query.
#[derive(Debug, Clone, PartialEq, Eq)]
pub struct GetLinksResponse {
    pub links: Option<Vec<Vec<u8>>>,
}

/// Ask for the size of a stored blob.
#[derive(Debug, Clone, PartialEq, Eq)]
pub struct GetSizeRequest {
    pub cid: Vec<u8>,
}

/// Answer to a size query.
#[derive(Debug, Clone, PartialEq, Eq)]
pub struct GetSizeResponse {
    pub size: Option<u64>,
}

/// One request to the store service.
#[allow(non_camel_case_types)]
#[derive(Debug, Clone, PartialEq, Eq)]
pub enum StoreRequest {
    version,
    put(PutRequest),
    get(GetRequest),
    has(HasRequest),
    get_links(GetLinksRequest),
    get_size(GetSizeRequest),
}

/// One answer from the store service; errors travel as text.
#[allow(non_camel_case_types)]
#[derive(Debug, PartialEq, Eq)]
pub enum StoreResponse {
    version(Result<VersionResponse, Vec<u8>>),
    put(Result<(), Vec<u8>>),
    get(Result<GetResponse, Vec<u8>>),
    has(Result<HasResponse, Vec<u8>>),
    get_links(Result<GetLinksResponse, Vec<u8>>),
    get_size(Result<GetSizeResponse, Vec<u8>>),
}

} // verus!
