//! Accounting of bytes exchanged with each peer, and the derived score.
//!
//! The score is a plain function of the bytes sent to the peer, so it is
//! monotone non-decreasing in `sent`. Whenever an update moves the score,
//! a `(peer, new score)` event is recorded; the embedder drains these and
//! hands them to its score callback outside any lock.

use vstd::prelude::*;

use crate::block::PeerId;
use crate::keyed::{
    get_by, has_key, key_at, lemma_get_by_index, lemma_get_by_push, lemma_get_by_remove,
    lemma_get_by_update, unique_keys,
};

verus! {

/// Bytes sent per score point.
pub const SCORE_BYTES_PER_POINT: u64 = 1024;

/// The score derived from a byte count: one point per
/// [`SCORE_BYTES_PER_POINT`] bytes sent, capped at `u32::MAX`.
pub open spec fn score_of(sent: u64) -> u32 {
    if sent / SCORE_BYTES_PER_POINT >= u32::MAX {
        u32::MAX
    } else {
        (sent / SCORE_BYTES_PER_POINT) as u32
    }
}

/// The score never decreases when more bytes are sent.
pub proof fn lemma_score_monotone(a: u64, b: u64)
    requires
        a <= b,
    ensures
        score_of(a) <= score_of(b),
{
    assert(a / SCORE_BYTES_PER_POINT <= b / SCORE_BYTES_PER_POINT) by (nonlinear_arith)
        requires
            a <= b,
    ;
}

/// Per-peer accounting record.
#[derive(Debug, Clone, Copy, PartialEq, Eq, Structural)]
pub struct PeerScore {
    pub peer: PeerId,
    pub sent: u64,
    pub recv: u64,
    pub score: u32,
    pub last_activity: u64,
}

/// What a caller learns about one peer's accounting.
#[derive(Debug, Clone, Copy, PartialEq, Eq, Structural)]
pub struct Receipt {
    pub sent: u64,
    pub recv: u64,
    pub score: u32,
}

/// A score-change notification: the peer and its new score.
#[derive(Debug, Clone, Copy, PartialEq, Eq, Structural)]
pub struct ScoreEvent {
    pub peer: PeerId,
    pub score: u32,
}

/// Spec-level key projection for accounting records.
pub open spec fn score_key() -> spec_fn(PeerScore) -> PeerId {
    |e: PeerScore| e.peer
}

/// The byte and score ledger over all connected peers.
#[derive(Debug, Clone)]
pub struct DefaultScoreLedger {
    pub entries: Vec<PeerScore>,
    pub events: Vec<ScoreEvent>,
    pub clock: u64,
}

impl DefaultScoreLedger {
    /// Unique peers, and every stored score agrees with the byte count.
    pub open spec fn wf(self) -> bool {
        &&& unique_keys(self.entries@, score_key())
        &&& forall|k: int|
            0 <= k < self.entries@.len() ==> (#[trigger] self.entries@[k]).score == score_of(
                self.entries@[k].sent,
            )
    }

    /// The accounting record for `p`, if `p` is tracked.
    pub open spec fn entry_for(self, p: PeerId) -> Option<PeerScore> {
        get_by(self.entries@, score_key(), p)
    }

    /// Bytes recorded as sent to `p` (0 when untracked).
    pub open spec fn sent_to(self, p: PeerId) -> u64 {
        match self.entry_for(p) {
            Some(e) => e.sent,
            None => 0,
        }
    }

    pub fn new() -> (l: DefaultScoreLedger)
        ensures
            l.wf(),
            forall|p: PeerId| l.entry_for(p) is None,
            l.events@ =~= Seq::<ScoreEvent>::empty(),
    {
        DefaultScoreLedger { entries: Vec::new(), events: Vec::new(), clock: 0 }
    }

    /// Index of the record for `p`, if any.
    fn index_of(&self, p: &PeerId) -> (r: Option<usize>)
        requires
            self.wf(),
        ensures
            match r {
                Some(i) => i < self.entries@.len() && self.entries@[i as int].peer == *p
                    && self.entry_for(*p) == Some(self.entries@[i as int]),
                None => self.entry_for(*p) is None,
            },
    {
        let n = self.entries.len();
        for i in 0..n
            invariant
                n == self.entries@.len(),
                self.wf(),
                forall|k: int| 0 <= k < i ==> self.entries@[k].peer != *p,
        {
            if self.entries[i].peer == *p {
                proof {
                    lemma_get_by_index(self.entries@, score_key(), i as int);
                }
                return Some(i);
            }
        }
        proof {
            assert(!has_key(self.entries@, score_key(), *p));
        }
        None
    }

    /// Start tracking `peer`; a no-op if it is already tracked.
    pub fn peer_connected(&mut self, peer: &PeerId)
        requires
            old(self).wf(),
        ensures
            final(self).wf(),
            final(self).events@ == old(self).events@,
            old(self).entry_for(*peer) is Some ==> *final(self) == *old(self),
            old(self).entry_for(*peer) is None ==> final(self).entry_for(*peer) == (Some(
                PeerScore {
                    peer: *peer,
                    sent: 0,
                    recv: 0,
                    score: 0,
                    last_activity: old(self).clock,
                },
            )),
            forall|q: PeerId|
                q != *peer ==> final(self).entry_for(q) == old(self).entry_for(q),
    {
        if self.index_of(peer).is_none() {
            let e = PeerScore {
                peer: *peer,
                sent: 0,
                recv: 0,
                score: 0,
                last_activity: self.clock,
            };
            proof {
                lemma_get_by_push(self.entries@, score_key(), e);
                assert(score_of(0) == 0);
            }
            self.entries.push(e);
        }
    }

    /// Stop tracking `peer`; a no-op if it is not tracked.
    pub fn peer_disconnected(&mut self, peer: &PeerId)
        requires
            old(self).wf(),
        ensures
            final(self).wf(),
            final(self).events@ == old(self).events@,
            final(self).entry_for(*peer) is None,
            forall|q: PeerId|
                q != *peer ==> final(self).entry_for(q) == old(self).entry_for(q),
    {
        match self.index_of(peer) {
            Some(i) => {
                proof {
                    lemma_get_by_remove(self.entries@, score_key(), i as int);
                }
                self.entries.remove(i);
            },
            None => {},
        }
    }

    /// Record `n` more bytes sent to `peer`. The byte counter is saturating;
    /// it never decreases. A peer not yet tracked is created first.
    pub fn add_to_sent_bytes(&mut self, peer: &PeerId, n: usize)
        requires
            old(self).wf(),
        ensures
            final(self).wf(),
            final(self).entry_for(*peer) is Some,
            final(self).sent_to(*peer) == add_sat(old(self).sent_to(*peer), n as u64),
            final(self).sent_to(*peer) >= old(self).sent_to(*peer),
            final(self).entry_for(*peer)->Some_0.recv == (match old(self).entry_for(*peer) {
                Some(e) => e.recv,
                None => 0u64,
            }),
            forall|q: PeerId|
                q != *peer ==> final(self).entry_for(q) == old(self).entry_for(q),
    {
        self.peer_connected(peer);
        let i = match self.index_of(peer) {
            Some(i) => i,
            None => {
                return ;  // unreachable: the peer was just connected
            },
        };
        let e = self.entries[i];
        let sent2 = e.sent.saturating_add(n as u64);
        let score2 = compute_score(sent2);
        let e2 = PeerScore {
            peer: e.peer,
            sent: sent2,
            recv: e.recv,
            score: score2,
            last_activity: self.clock,
        };
        if score2 != e.score {
            self.events.push(ScoreEvent { peer: *peer, score: score2 });
        }
        proof {
            lemma_get_by_update(self.entries@, score_key(), i as int, e2);
        }
        self.entries.set(i, e2);
        self.clock = self.clock.saturating_add(1);
    }

    /// Record `n` more bytes received from `peer`.
    pub fn add_to_recv_bytes(&mut self, peer: &PeerId, n: usize)
        requires
            old(self).wf(),
        ensures
            final(self).wf(),
            final(self).entry_for(*peer) is Some,
            final(self).entry_for(*peer)->Some_0.recv == add_sat(
                match old(self).entry_for(*peer) {
                    Some(e) => e.recv,
                    None => 0,
                },
                n as u64,
            ),
            final(self).sent_to(*peer) == old(self).sent_to(*peer),
            forall|q: PeerId|
                q != *peer ==> final(self).entry_for(q) == old(self).entry_for(q),
    {
        self.peer_connected(peer);
        let i = match self.index_of(peer) {
            Some(i) => i,
            None => {
                return ;  // unreachable: the peer was just connected
            },
        };
        let e = self.entries[i];
        let e2 = PeerScore {
            peer: e.peer,
            sent: e.sent,
            recv: e.recv.saturating_add(n as u64),
            score: e.score,
            last_activity: self.clock,
        };
        proof {
            lemma_get_by_update(self.entries@, score_key(), i as int, e2);
        }
        self.entries.set(i, e2);
        self.clock = self.clock.saturating_add(1);
    }

    /// The aggregated data communication with `peer`, if tracked.
    pub fn receipt(&self, peer: &PeerId) -> (r: Option<Receipt>)
        requires
            self.wf(),
        ensures
            match self.entry_for(*peer) {
                Some(e) => r == (Some(Receipt { sent: e.sent, recv: e.recv, score: e.score })),
                None => r is None,
            },
    {
        match self.index_of(peer) {
            Some(i) => {
                let e = &self.entries[i];
                Some(Receipt { sent: e.sent, recv: e.recv, score: e.score })
            },
            None => None,
        }
    }

    /// Hand out and forget the score-change events recorded so far.
    pub fn take_score_events(&mut self) -> (r: Vec<ScoreEvent>)
        ensures
            final(self).entries@ == old(self).entries@,
            final(self).wf() == old(self).wf(),
            r@ == old(self).events@,
            final(self).events@ =~= Seq::<ScoreEvent>::empty(),
    {
        let mut out: Vec<ScoreEvent> = Vec::new();
        core::mem::swap(&mut out, &mut self.events);
        out
    }
}

/// Saturating addition on `u64`, as a spec function.
pub open spec fn add_sat(a: u64, b: u64) -> u64 {
    if a + b > u64::MAX {
        u64::MAX
    } else {
        (a + b) as u64
    }
}

/// Compute the score for a byte count; executable twin of [`score_of`].
fn compute_score(sent: u64) -> (r: u32)
    ensures
        r == score_of(sent),
{
    let points = sent / SCORE_BYTES_PER_POINT;
    if points >= u32::MAX as u64 {
        u32::MAX
    } else {
        points as u32
    }
}

} // verus!
