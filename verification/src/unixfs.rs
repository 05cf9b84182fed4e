//! The file-layer view of a merkle node: the typed payload carried inside
//! a node, and the accessors the resolver reads it through.
//!
//! The wire codec that encodes and decodes these nodes lives outside the
//! library; here the decoded fields are plain values.

use vstd::prelude::*;

verus! {

/// The kinds of payload a node can carry.
#[derive(Debug, Clone, Copy, PartialEq, Eq, Structural)]
pub enum DataType {
    Raw,
    Directory,
    File,
    Metadata,
    Symlink,
    HamtShard,
}

/// The payload kind for a wire code, if the code is valid.
pub open spec fn spec_type_of(code: int) -> Option<DataType> {
    if code == 0 {
        Some(DataType::Raw)
    } else if code == 1 {
        Some(DataType::Directory)
    } else if code == 2 {
        Some(DataType::File)
    } else if code == 3 {
        Some(DataType::Metadata)
    } else if code == 4 {
        Some(DataType::Symlink)
    } else if code == 5 {
        Some(DataType::HamtShard)
    } else {
        None
    }
}

/// Hash functions a sharded directory may name. Only one is defined.
#[derive(Debug, Clone, Copy, PartialEq, Eq, Hash, Structural)]
pub enum HamtHashFunction {
    Murmur3,
}

/// The wire code of the one supported shard hash function.
pub const HAMT_HASH_MURMUR3: u64 = 0x22;

/// The decoded typed payload of a node.
#[derive(Debug, Clone, PartialEq, Eq)]
pub struct UnixfsData {
    /// Wire code of the payload kind.
    pub typ: i32,
    pub data: Option<Vec<u8>>,
    pub filesize: Option<u64>,
    pub blocksizes: Vec<u64>,
    pub hash_type: Option<u64>,
    pub fanout: Option<u64>,
}

/// One outbound link of a node: a child identifier with its name and size.
#[derive(Debug, Clone, PartialEq, Eq)]
pub struct PbLink {
    pub hash: Vec<u8>,
    pub name: Option<Vec<u8>>,
    pub tsize: Option<u64>,
}

/// The outer decoded node: its raw payload bytes and its links.
#[derive(Debug, Clone, PartialEq, Eq)]
pub struct PbNode {
    pub data: Option<Vec<u8>>,
    pub links: Vec<PbLink>,
}

/// A bare typed payload, as read from a raw leaf.
#[derive(Debug, Clone, PartialEq, Eq)]
pub struct Unixfs {
    pub inner: UnixfsData,
}

impl Unixfs {
    /// The payload kind; the payload must carry a valid code.
    pub fn typ(&self) -> (t: DataType)
        requires
            spec_type_of(self.inner.typ as int) is Some,
        ensures
            Some(t) == spec_type_of(self.inner.typ as int),
    {
        type_of_code(self.inner.typ)
    }

    pub fn data(&self) -> (r: &Option<Vec<u8>>)
        ensures
            r == &self.inner.data,
    {
        &self.inner.data
    }
}

/// The links of a node, tagged by the kind of node they come from.
#[derive(Debug, Clone, PartialEq, Eq)]
pub enum Links {
    Raw,
    RawNode(Vec<PbLink>),
    Directory(Vec<PbLink>),
    File(Vec<PbLink>),
    Symlink(Vec<PbLink>),
    HamtShard(Vec<PbLink>),
}

/// A decoded node: the outer envelope plus its typed payload.
#[derive(Debug, Clone, PartialEq, Eq)]
pub struct Node {
    pub outer: PbNode,
    pub inner: UnixfsData,
}

impl Node {
    /// The payload kind; the payload must carry a valid code.
    pub fn typ(&self) -> (t: DataType)
        requires
            spec_type_of(self.inner.typ as int) is Some,
        ensures
            Some(t) == spec_type_of(self.inner.typ as int),
    {
        type_of_code(self.inner.typ)
    }

    pub fn filesize(&self) -> (r: Option<u64>)
        ensures
            r == self.inner.filesize,
    {
        self.inner.filesize
    }

    pub fn blocksizes(&self) -> (r: &Vec<u64>)
        ensures
            r == &self.inner.blocksizes,
    {
        &self.inner.blocksizes
    }

    /// The size of the direct payload: known only for leaf nodes, which
    /// hold their whole content locally.
    pub fn size(&self) -> (r: Option<usize>)
        ensures
            r == (if self.outer.links@.len() == 0 {
                Some(
                    (match self.inner.data {
                        Some(d) => d@.len(),
                        None => 0,
                    }) as usize,
                )
            } else {
                None::<usize>
            }),
    {
        if self.outer.links.is_empty() {
            match &self.inner.data {
                Some(d) => Some(d.len()),
                None => Some(0),
            }
        } else {
            None
        }
    }

    /// The links of this node, tagged with its kind. Not defined for
    /// metadata nodes, which carry no links of their own.
    pub fn links(&self) -> (r: Links)
        requires
            spec_type_of(self.inner.typ as int) is Some,
            spec_type_of(self.inner.typ as int) != Some(DataType::Metadata),
        ensures
            match spec_type_of(self.inner.typ as int)->Some_0 {
                DataType::Raw => r is RawNode,
                DataType::Directory => r is Directory,
                DataType::File => r is File,
                DataType::Symlink => r is Symlink,
                DataType::HamtShard => r is HamtShard,
                DataType::Metadata => false,
            },
            links_of(r).len() == self.outer.links@.len(),
            forall|k: int|
                0 <= k < links_of(r).len() ==> link_like(
                    #[trigger] links_of(r)[k],
                    self.outer.links@[k],
                ),
    {
        let ls = copy_links(&self.outer.links);
        match self.typ() {
            DataType::Raw => Links::RawNode(ls),
            DataType::Directory => Links::Directory(ls),
            DataType::File => Links::File(ls),
            DataType::Symlink => Links::Symlink(ls),
            DataType::HamtShard => Links::HamtShard(ls),
            DataType::Metadata => Links::Raw,  // unreachable by the precondition
        }
    }

    /// The shard hash function, for sharded directories that name a
    /// supported one.
    pub fn hash_type(&self) -> (r: Option<HamtHashFunction>)
        ensures
            r == (if self.inner.hash_type == Some(HAMT_HASH_MURMUR3) {
                Some(HamtHashFunction::Murmur3)
            } else {
                None::<HamtHashFunction>
            }),
    {
        match self.inner.hash_type {
            Some(t) => {
                if t == HAMT_HASH_MURMUR3 {
                    Some(HamtHashFunction::Murmur3)
                } else {
                    None
                }
            },
            None => None,
        }
    }

    /// The shard fanout, when set and small enough to use.
    pub fn fanout(&self) -> (r: Option<u32>)
        ensures
            r == (match self.inner.fanout {
                Some(f) => if f <= u32::MAX {
                    Some(f as u32)
                } else {
                    None::<u32>
                },
                None => None::<u32>,
            }),
    {
        match self.inner.fanout {
            Some(f) => {
                if f <= u32::MAX as u64 {
                    Some(f as u32)
                } else {
                    None
                }
            },
            None => None,
        }
    }
}

/// The link list carried inside a tagged [`Links`] value (empty for a raw
/// leaf).
pub open spec fn links_of(r: Links) -> Seq<PbLink> {
    match r {
        Links::Raw => Seq::empty(),
        Links::RawNode(ls) => ls@,
        Links::Directory(ls) => ls@,
        Links::File(ls) => ls@,
        Links::Symlink(ls) => ls@,
        Links::HamtShard(ls) => ls@,
    }
}

/// Two links carry the same identifier, name and size.
pub open spec fn link_like(a: PbLink, b: PbLink) -> bool {
    &&& a.hash@ == b.hash@
    &&& a.tsize == b.tsize
    &&& match (a.name, b.name) {
        (Some(x), Some(y)) => x@ == y@,
        (None, None) => true,
        _ => false,
    }
}

/// Decode a payload-kind code; the code must be valid.
fn type_of_code(code: i32) -> (t: DataType)
    requires
        spec_type_of(code as int) is Some,
    ensures
        Some(t) == spec_type_of(code as int),
{
    if code == 0 {
        DataType::Raw
    } else if code == 1 {
        DataType::Directory
    } else if code == 2 {
        DataType::File
    } else if code == 3 {
        DataType::Metadata
    } else if code == 4 {
        DataType::Symlink
    } else {
        DataType::HamtShard
    }
}

/// A copy of a link list, link for link.
fn copy_links(ls: &Vec<PbLink>) -> (r: Vec<PbLink>)
    ensures
        r@.len() == ls@.len(),
        forall|k: int| 0 <= k < r@.len() ==> link_like(#[trigger] r@[k], ls@[k]),
{
    let n = ls.len();
    let mut out: Vec<PbLink> = Vec::new();
    for i in 0..n
        invariant
            n == ls@.len(),
            out@.len() == i,
            forall|k: int| 0 <= k < i ==> link_like(#[trigger] out@[k], ls@[k]),
    {
        let l = &ls[i];
        let name = match &l.name {
            Some(nm) => Some(copy_bytes_vec(nm)),
            None => None,
        };
        let copied = PbLink { hash: copy_bytes_vec(&l.hash), name, tsize: l.tsize };
        proof {
            assert(link_like(copied, ls@[i as int]));
        }
        out.push(copied);
    }
    out
}

/// A byte-for-byte copy of a buffer.
fn copy_bytes_vec(data: &Vec<u8>) -> (r: Vec<u8>)
    ensures
        r@ == data@,
{
    let n = data.len();
    let mut out: Vec<u8> = Vec::new();
    for i in 0..n
        invariant
            n == data@.len(),
            out@ =~= data@.subrange(0, i as int),
    {
        out.push(data[i]);
        proof {
            assert(out@ =~= data@.subrange(0, i + 1 as int));
        }
    }
    proof {
        assert(out@ =~= data@);
    }
    out
}

/// A cap on how far into a resource a response may read.
#[derive(Debug, Clone, Copy, PartialEq, Eq, Structural)]
pub enum ResponseClip {
    NoClip,
    Clip(usize),
}

/// Destination of a positioned read: the bytes filled so far and the total
/// space available.
#[derive(Debug, Clone, PartialEq, Eq)]
pub struct ReadBuf {
    pub filled: Vec<u8>,
    pub capacity: usize,
}

impl ReadBuf {
    pub open spec fn wf(self) -> bool {
        self.filled@.len() <= self.capacity
    }

    /// Space left in the buffer.
    pub open spec fn spec_remaining(self) -> int {
        self.capacity - self.filled@.len()
    }

    pub fn new(capacity: usize) -> (b: ReadBuf)
        ensures
            b.wf(),
            b.capacity == capacity,
            b.filled@.len() == 0,
    {
        ReadBuf { filled: Vec::new(), capacity }
    }

    pub fn remaining(&self) -> (r: usize)
        requires
            self.wf(),
        ensures
            r == self.spec_remaining(),
    {
        self.capacity - self.filled.len()
    }
}

/// The position limit a clip imposes on reading `data`: the data length,
/// lowered to the clip when one is set.
pub open spec fn spec_clip_limit(clip: ResponseClip, data_len: int) -> int {
    match clip {
        ResponseClip::NoClip => data_len,
        ResponseClip::Clip(n) => n as int,
    }
}

/// How many bytes one positioned read moves: up to the clip limit, the end
/// of the data, and the space left in the buffer.
pub open spec fn spec_read_amount(
    pos: int,
    clip: ResponseClip,
    data_len: int,
    remaining: int,
) -> int {
    let limit = spec_clip_limit(clip, data_len);
    if pos >= data_len || pos >= limit {
        0
    } else {
        let amt1 = if data_len - pos <= remaining {
            data_len - pos
        } else {
            remaining
        };
        if amt1 <= limit - pos {
            amt1
        } else {
            limit - pos
        }
    }
}

/// Copy bytes of `data` from `*pos` into `buf`, limited by the clip, the
/// data length and the buffer's space; `*pos` advances by the amount read.
pub fn poll_read_buf_at_pos(pos: &mut usize, clip: ResponseClip, data: &Vec<u8>, buf: &mut ReadBuf)
    requires
        old(buf).wf(),
    ensures
        final(buf).wf(),
        final(buf).capacity == old(buf).capacity,
        *final(pos) == *old(pos) + spec_read_amount(
            *old(pos) as int,
            clip,
            data@.len() as int,
            old(buf).spec_remaining(),
        ),
        final(buf).filled@.len() == old(buf).filled@.len() + spec_read_amount(
            *old(pos) as int,
            clip,
            data@.len() as int,
            old(buf).spec_remaining(),
        ),
        forall|j: int|
            0 <= j < old(buf).filled@.len() ==> #[trigger] final(buf).filled@[j] == old(
                buf,
            ).filled@[j],
        forall|j: int|
            old(buf).filled@.len() <= j < final(buf).filled@.len()
                ==> #[trigger] final(buf).filled@[j] == data@[*old(pos) + j - old(
                buf,
            ).filled@.len()],
{
    let mut pos_max = data.len();
    match clip {
        ResponseClip::Clip(n) => {
            pos_max = n;
        },
        ResponseClip::NoClip => {},
    }
    if *pos >= data.len() || *pos >= pos_max {
        return ;
    }
    let data_len = data.len() - *pos;
    let mut amt = if data_len <= buf.remaining() {
        data_len
    } else {
        buf.remaining()
    };
    if amt > pos_max - *pos {
        amt = pos_max - *pos;
    }
    let start = *pos;
    let mut k: usize = 0;
    while k < amt
        invariant
            start + amt <= data@.len(),
            data@.len() <= usize::MAX,
            k <= amt,
            buf.capacity == old(buf).capacity,
            buf.filled@.len() <= buf.capacity,
            buf.filled@ =~= old(buf).filled@ + data@.subrange(start as int, start + k),
            old(buf).filled@.len() + amt <= buf.capacity,
        decreases amt - k,
    {
        buf.filled.push(data[start + k]);
        proof {
            assert(buf.filled@ =~= old(buf).filled@ + data@.subrange(start as int, start + k + 1));
        }
        k = k + 1;
    }
    *pos = start + amt;
    proof {
        assert(amt == spec_read_amount(
            start as int,
            clip,
            data@.len() as int,
            old(buf).spec_remaining(),
        ));
    }
}

} // verus!
