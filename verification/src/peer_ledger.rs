//! Reverse index over all wantlists: for each block identifier, the set of
//! peers currently waiting for it.
//!
//! Records with an empty peer set are pruned so the index stays bounded by
//! the number of live wants.

use vstd::prelude::*;

use crate::block::{BlockId, PeerId};
use crate::keyed::{
    get_by, has_key, key_at, lemma_get_by_index, lemma_get_by_push, lemma_get_by_remove,
    unique_keys,
};

verus! {

/// One record of the reverse index: a block identifier and the peers that
/// want it.
#[derive(Debug, Clone)]
pub struct IdPeers {
    pub id: BlockId,
    pub peers: Vec<PeerId>,
}

/// Spec-level key projection for reverse-index records.
pub open spec fn idpeers_key() -> spec_fn(IdPeers) -> BlockId {
    |r: IdPeers| r.id
}

/// Identity projection, to read a peer vector as a set of keys.
pub open spec fn peer_self_key() -> spec_fn(PeerId) -> PeerId {
    |p: PeerId| p
}

/// Membership of `p` in a peer vector, read through the key framework.
pub open spec fn peers_have(s: Seq<PeerId>, p: PeerId) -> bool {
    has_key(s, peer_self_key(), p)
}

/// `peers_have` coincides with plain sequence membership.
pub proof fn lemma_peers_have_is_contains(s: Seq<PeerId>, p: PeerId)
    ensures
        peers_have(s, p) == s.contains(p),
{
    if s.contains(p) {
        let k = choose|k: int| 0 <= k < s.len() && s[k] == p;
        assert(has_key(s, peer_self_key(), p));
    }
    if peers_have(s, p) {
        let k = key_at(s, peer_self_key(), p);
        assert(s[k] == p);
    }
}

/// The reverse-index reading of a raw record sequence: is `q` recorded as
/// waiting for `id`?
pub open spec fn rev_wants(records: Seq<IdPeers>, q: PeerId, id: BlockId) -> bool {
    match get_by(records, idpeers_key(), id) {
        Some(rec) => peers_have(rec.peers@, q),
        None => false,
    }
}

/// The reverse index `block identifier -> set of waiting peers`.
#[derive(Debug, Clone)]
pub struct PeerLedger {
    pub records: Vec<IdPeers>,
}

impl PeerLedger {
    /// Unique identifiers; per record, unique peers and at least one peer.
    pub open spec fn wf(self) -> bool {
        &&& unique_keys(self.records@, idpeers_key())
        &&& forall|k: int|
            0 <= k < self.records@.len() ==> unique_keys(
                #[trigger] self.records@[k].peers@,
                peer_self_key(),
            )
        &&& forall|k: int| 0 <= k < self.records@.len() ==> #[trigger] self.records@[k].peers@.len() > 0
    }

    /// True if peer `p` is recorded as waiting for `id`.
    pub open spec fn wants_spec(self, p: PeerId, id: BlockId) -> bool {
        rev_wants(self.records@, p, id)
    }

    /// True if the index mentions peer `p` at all.
    pub open spec fn mentions_peer(self, p: PeerId) -> bool {
        exists|id: BlockId| self.wants_spec(p, id)
    }

    pub fn new() -> (l: PeerLedger)
        ensures
            l.wf(),
            forall|p: PeerId, id: BlockId| !l.wants_spec(p, id),
    {
        PeerLedger { records: Vec::new() }
    }

    /// Index of the record for `id`, if any.
    fn index_of(&self, id: &BlockId) -> (r: Option<usize>)
        requires
            self.wf(),
        ensures
            match r {
                Some(i) => i < self.records@.len() && self.records@[i as int].id == *id
                    && get_by(self.records@, idpeers_key(), *id) == Some(
                    self.records@[i as int],
                ),
                None => get_by(self.records@, idpeers_key(), *id) is None,
            },
    {
        let n = self.records.len();
        for i in 0..n
            invariant
                n == self.records@.len(),
                self.wf(),
                forall|k: int| 0 <= k < i ==> self.records@[k].id != *id,
        {
            if self.records[i].id == *id {
                proof {
                    lemma_get_by_index(self.records@, idpeers_key(), i as int);
                }
                return Some(i);
            }
        }
        proof {
            assert(!has_key(self.records@, idpeers_key(), *id));
        }
        None
    }

    /// Record that `peer` waits for `id`.
    pub fn wants(&mut self, peer: PeerId, id: BlockId)
        requires
            old(self).wf(),
        ensures
            final(self).wf(),
            final(self).wants_spec(peer, id),
            forall|q: PeerId, id2: BlockId|
                (q != peer || id2 != id) ==> final(self).wants_spec(q, id2) == old(
                    self,
                ).wants_spec(q, id2),
    {
        match self.index_of(&id) {
            Some(i) => {
                proof {
                    lemma_get_by_remove(self.records@, idpeers_key(), i as int);
                }
                let mut rec = self.records.remove(i);
                let mut found = false;
                let m = rec.peers.len();
                for j in 0..m
                    invariant
                        m == rec.peers@.len(),
                        found == exists|k: int| 0 <= k < j && rec.peers@[k] == peer,
                {
                    if rec.peers[j] == peer {
                        found = true;
                    }
                }
                if !found {
                    proof {
                        assert(!peers_have(rec.peers@, peer)) by {
                            if has_key(rec.peers@, peer_self_key(), peer) {
                                let k = key_at(rec.peers@, peer_self_key(), peer);
                                assert(rec.peers@[k] == peer);
                            }
                        }
                        lemma_get_by_push(rec.peers@, peer_self_key(), peer);
                    }
                    rec.peers.push(peer);
                } else {
                    proof {
                        let k = choose|k: int| 0 <= k < m && rec.peers@[k] == peer;
                        assert(peers_have(rec.peers@, peer));
                    }
                }
                proof {
                    lemma_get_by_push(self.records@, idpeers_key(), rec);
                }
                self.records.push(rec);
            },
            None => {
                let mut peers: Vec<PeerId> = Vec::new();
                peers.push(peer);
                let rec = IdPeers { id, peers };
                proof {
                    lemma_get_by_push(self.records@, idpeers_key(), rec);
                    assert(rec.peers@[0] == peer);
                    assert(peers_have(rec.peers@, peer));
                }
                self.records.push(rec);
            },
        }
    }

    /// Withdraw `peer`'s wait for `id`; prunes the record when it empties.
    pub fn cancel(&mut self, peer: &PeerId, id: &BlockId)
        requires
            old(self).wf(),
        ensures
            final(self).wf(),
            !final(self).wants_spec(*peer, *id),
            forall|q: PeerId, id2: BlockId|
                (q != *peer || id2 != *id) ==> final(self).wants_spec(q, id2) == old(
                    self,
                ).wants_spec(q, id2),
    {
        match self.index_of(id) {
            Some(i) => {
                proof {
                    lemma_get_by_remove(self.records@, idpeers_key(), i as int);
                }
                let mut rec = self.records.remove(i);
                let mut at: Option<usize> = None;
                let m = rec.peers.len();
                for j in 0..m
                    invariant
                        m == rec.peers@.len(),
                        match at {
                            Some(a) => a < j && rec.peers@[a as int] == *peer,
                            None => forall|k: int| 0 <= k < j ==> rec.peers@[k] != *peer,
                        },
                {
                    if rec.peers[j] == *peer {
                        if at.is_none() {
                            at = Some(j);
                        }
                    }
                }
                match at {
                    Some(a) => {
                        proof {
                            lemma_get_by_remove(rec.peers@, peer_self_key(), a as int);
                        }
                        rec.peers.remove(a);
                        if !rec.peers.is_empty() {
                            proof {
                                lemma_get_by_push(self.records@, idpeers_key(), rec);
                            }
                            self.records.push(rec);
                        }
                    },
                    None => {
                        proof {
                            assert(!peers_have(rec.peers@, *peer)) by {
                                if has_key(rec.peers@, peer_self_key(), *peer) {
                                    let k = key_at(rec.peers@, peer_self_key(), *peer);
                                    assert(rec.peers@[k] == *peer);
                                }
                            }
                            lemma_get_by_push(self.records@, idpeers_key(), rec);
                        }
                        self.records.push(rec);
                    },
                }
            },
            None => {},
        }
    }

    /// The peers currently waiting for `id` (empty if none).
    pub fn peers_for(&self, id: &BlockId) -> (r: Vec<PeerId>)
        requires
            self.wf(),
        ensures
            forall|q: PeerId| r@.contains(q) == self.wants_spec(q, *id),
            unique_keys(r@, peer_self_key()),
    {
        match self.index_of(id) {
            Some(i) => {
                let rec = &self.records[i];
                let mut out: Vec<PeerId> = Vec::new();
                let m = rec.peers.len();
                for j in 0..m
                    invariant
                        m == rec.peers@.len(),
                        out@ =~= rec.peers@.subrange(0, j as int),
                        unique_keys(rec.peers@, peer_self_key()),
                {
                    out.push(rec.peers[j]);
                }
                proof {
                    assert(out@ =~= rec.peers@);
                    assert forall|q: PeerId| out@.contains(q) == self.wants_spec(q, *id) by {
                        lemma_peers_have_is_contains(rec.peers@, q);
                    }
                }
                out
            },
            None => {
                let out: Vec<PeerId> = Vec::new();
                assert(forall|q: PeerId| !out@.contains(q));
                out
            },
        }
    }

    /// Drop every reference to `peer`, pruning records that empty.
    pub fn forget_peer(&mut self, peer: &PeerId)
        requires
            old(self).wf(),
        ensures
            final(self).wf(),
            !final(self).mentions_peer(*peer),
            forall|q: PeerId, id: BlockId|
                q != *peer ==> final(self).wants_spec(q, id) == old(self).wants_spec(q, id),
    {
        let n = self.records.len();
        let mut out: Vec<IdPeers> = Vec::new();
        let mut i: usize = 0;
        while i < n
            invariant
                n == self.records@.len(),
                i <= n,
                self.wf(),
                unique_keys(out@, idpeers_key()),
                forall|k: int|
                    0 <= k < out@.len() ==> unique_keys(
                        #[trigger] out@[k].peers@,
                        peer_self_key(),
                    ),
                forall|k: int| 0 <= k < out@.len() ==> #[trigger] out@[k].peers@.len() > 0,
                forall|k: int|
                    0 <= k < out@.len() ==> !peers_have(#[trigger] out@[k].peers@, *peer),
                forall|id: BlockId|
                    #[trigger] has_key(out@, idpeers_key(), id) ==> has_key(
                        self.records@.subrange(0, i as int),
                        idpeers_key(),
                        id,
                    ),
                forall|q: PeerId, id: BlockId|
                    q != *peer ==> #[trigger] rev_wants(out@, q, id) == rev_wants(
                        self.records@.subrange(0, i as int),
                        q,
                        id,
                    ),
            decreases n - i,
        {
            let rec0 = &self.records[i];
            let mut kept: Vec<PeerId> = Vec::new();
            let m = rec0.peers.len();
            for j in 0..m
                invariant
                    m == rec0.peers@.len(),
                    unique_keys(rec0.peers@, peer_self_key()),
                    unique_keys(kept@, peer_self_key()),
                    forall|q: PeerId|
                        #[trigger] peers_have(kept@, q) == (peers_have(
                            rec0.peers@.subrange(0, j as int),
                            q,
                        ) && q != *peer),
            {
                let ghost pre = rec0.peers@.subrange(0, j as int);
                let ghost cur = rec0.peers@.subrange(0, j + 1 as int);
                let ghost x = rec0.peers@[j as int];
                proof {
                    assert(cur =~= pre.push(x));
                    assert(!has_key(pre, peer_self_key(), x)) by {
                        if has_key(pre, peer_self_key(), x) {
                            let k = key_at(pre, peer_self_key(), x);
                            assert(rec0.peers@[k] == x);
                        }
                    }
                    lemma_get_by_push(pre, peer_self_key(), x);
                }
                let ghost old_kept = kept@;
                if rec0.peers[j] != *peer {
                    proof {
                        assert(!peers_have(kept@, x));
                        lemma_get_by_push(kept@, peer_self_key(), x);
                    }
                    kept.push(rec0.peers[j]);
                    proof {
                        assert(kept@ == old_kept.push(x));
                        assert forall|q: PeerId|
                            #[trigger] peers_have(kept@, q) == (peers_have(cur, q) && q
                                != *peer) by {
                            assert(peers_have(old_kept, q) == (peers_have(pre, q) && q
                                != *peer));
                            if q == x {
                                assert(has_key(cur, peer_self_key(), x));
                                assert(has_key(kept@, peer_self_key(), x));
                            } else {
                                assert(has_key(kept@, peer_self_key(), q) == has_key(
                                    old_kept,
                                    peer_self_key(),
                                    q,
                                ));
                                assert(has_key(cur, peer_self_key(), q) == has_key(
                                    pre,
                                    peer_self_key(),
                                    q,
                                ));
                            }
                        }
                    }
                } else {
                    proof {
                        assert forall|q: PeerId|
                            #[trigger] peers_have(kept@, q) == (peers_have(cur, q) && q
                                != *peer) by {
                            assert(peers_have(kept@, q) == (peers_have(pre, q) && q
                                != *peer));
                            if q != x {
                                assert(has_key(cur, peer_self_key(), q) == has_key(
                                    pre,
                                    peer_self_key(),
                                    q,
                                ));
                            } else {
                                assert(has_key(cur, peer_self_key(), x));
                            }
                        }
                    }
                }
            }
            proof {
                assert(rec0.peers@.subrange(0, m as int) =~= rec0.peers@);
            }
            let ghost old_out = out@;
            let ghost prefix = self.records@.subrange(0, i as int);
            let ghost prefix2 = self.records@.subrange(0, i + 1 as int);
            proof {
                assert(prefix2 =~= prefix.push(self.records@[i as int]));
                assert(!has_key(prefix, idpeers_key(), self.records@[i as int].id)) by {
                    if has_key(prefix, idpeers_key(), self.records@[i as int].id) {
                        let k = key_at(prefix, idpeers_key(), self.records@[i as int].id);
                        assert(prefix[k] == self.records@[k]);
                    }
                }
                lemma_get_by_push(prefix, idpeers_key(), self.records@[i as int]);
                assert(!has_key(out@, idpeers_key(), self.records@[i as int].id));
            }
            let ghost keptv = kept@;
            if !kept.is_empty() {
                let rec1 = IdPeers { id: rec0.id, peers: kept };
                proof {
                    lemma_get_by_push(out@, idpeers_key(), rec1);
                }
                out.push(rec1);
            }
            proof {
                assert forall|q: PeerId, id: BlockId|
                    q != *peer implies #[trigger] rev_wants(out@, q, id) == rev_wants(
                    prefix2,
                    q,
                    id,
                ) by {
                    assert(peers_have(keptv, q) == (peers_have(
                        self.records@[i as int].peers@,
                        q,
                    ) && q != *peer));
                    if id == self.records@[i as int].id {
                        assert(get_by(prefix2, idpeers_key(), id) == Some(
                            self.records@[i as int],
                        ));
                        if out@.len() > old_out.len() {
                            lemma_get_by_index(out@, idpeers_key(), out@.len() - 1);
                            assert(out@[out@.len() - 1].peers@ == keptv);
                            assert(get_by(out@, idpeers_key(), id) == Some(
                                out@[out@.len() - 1],
                            ));
                        } else {
                            assert(keptv.len() == 0);
                            assert(!peers_have(keptv, q));
                            assert(!has_key(out@, idpeers_key(), id));
                        }
                    } else {
                        assert(get_by(prefix2, idpeers_key(), id) == get_by(
                            prefix,
                            idpeers_key(),
                            id,
                        ));
                        if out@.len() > old_out.len() {
                            assert(get_by(out@, idpeers_key(), id) == get_by(
                                old_out,
                                idpeers_key(),
                                id,
                            ));
                        }
                        assert(rev_wants(old_out, q, id) == rev_wants(prefix, q, id));
                    }
                }
                assert forall|id: BlockId| #[trigger]
                    has_key(out@, idpeers_key(), id) implies has_key(
                    prefix2,
                    idpeers_key(),
                    id,
                ) by {
                    let k = key_at(out@, idpeers_key(), id);
                    if k < old_out.len() {
                        assert(old_out[k] == out@[k]);
                        assert(has_key(old_out, idpeers_key(), id));
                        let k2 = key_at(prefix, idpeers_key(), id);
                        assert(prefix2[k2] == prefix[k2]);
                    } else {
                        assert(prefix2[i as int] == self.records@[i as int]);
                    }
                }
            }
            i = i + 1;
        }
        proof {
            assert(self.records@.subrange(0, n as int) =~= self.records@);
        }
        self.records = out;
        proof {
            assert(!self.mentions_peer(*peer)) by {
                assert forall|id: BlockId| !self.wants_spec(*peer, id) by {
                    if self.wants_spec(*peer, id) {
                        let k = key_at(self.records@, idpeers_key(), id);
                        assert(!peers_have(self.records@[k].peers@, *peer));
                    }
                }
            }
        }
    }
}

} // verus!
