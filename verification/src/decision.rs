//! The decision engine: per-peer wantlists, the reverse index, scoring, the
//! task queue and the policy that ties them together.
//!
//! Ingress operations (`peer_connected`, `message_received`, ...) mutate the
//! state and enqueue outbound work; `next_envelope` is one worker step: it
//! pops tasks for one peer, consults the store and assembles an envelope.
//! The embedder runs workers and channels around these operations.
//!
//! The engine keeps the wantlist reflection invariant: the reverse index
//! mentions `(peer, id)` exactly when that peer's ledger holds an entry for
//! `id`. It is part of [`Engine::wf`], so every operation is proved to
//! restore it.

use vstd::prelude::*;

use crate::block::{Block, BlockId, PeerId};
use crate::keyed::{
    get_by, has_key, key_at, lemma_get_by_index, lemma_get_by_push, lemma_get_by_remove,
    lemma_get_by_suffix, unique_keys,
};
use crate::ledger::Ledger;
use crate::message::{spec_presence_len, BlockPresence, Message, WantKind};
use crate::peer_ledger::PeerLedger;
use crate::peer_task_queue::{PeerTaskQueue, Task, TaskData};
use crate::score_ledger::{DefaultScoreLedger, Receipt, ScoreEvent};
use crate::store::{BlockstoreManager, Store};
use crate::wantlist::WantEntry;

verus! {

/// Admission policy: whether a request by `peer` for `id` is served.
pub trait PeerBlockRequestFilter: Sized {
    spec fn allows(&self, peer: PeerId, id: BlockId) -> bool;

    fn accept(&self, peer: &PeerId, id: &BlockId) -> (r: bool)
        ensures
            r == self.allows(*peer, *id),
    ;
}

/// The default admission policy: serve every request.
#[derive(Debug, Clone, Copy, PartialEq, Eq, Structural)]
pub struct AllowAllFilter;

impl PeerBlockRequestFilter for AllowAllFilter {
    open spec fn allows(&self, peer: PeerId, id: BlockId) -> bool {
        true
    }

    fn accept(&self, peer: &PeerId, id: &BlockId) -> (r: bool)
        ensures
            r == self.allows(*peer, *id),
    {
        true
    }
}

/// An admission policy that denies an explicit list of `(peer, id)` pairs.
#[derive(Debug, Clone)]
pub struct DenyListFilter {
    pub denied: Vec<(PeerId, BlockId)>,
}

impl PeerBlockRequestFilter for DenyListFilter {
    open spec fn allows(&self, peer: PeerId, id: BlockId) -> bool {
        !self.denied@.contains((peer, id))
    }

    fn accept(&self, peer: &PeerId, id: &BlockId) -> (r: bool)
        ensures
            r == self.allows(*peer, *id),
    {
        let n = self.denied.len();
        for k in 0..n
            invariant
                n == self.denied@.len(),
                forall|j: int| 0 <= j < k ==> self.denied@[j] != (*peer, *id),
        {
            let (p, i) = self.denied[k];
            if p == *peer && i == *id {
                proof {
                    assert(self.denied@.contains((*peer, *id)));
                }
                return false;
            }
        }
        proof {
            if self.denied@.contains((*peer, *id)) {
                let j = choose|j: int|
                    0 <= j < self.denied@.len() && self.denied@[j] == (*peer, *id);
            }
        }
        true
    }
}

/// Consumer of score-change notifications, called outside any engine state.
/// `delivered` is the consumer's view of the calls it has received, so a
/// dispatcher can promise that every event was handed over, in order.
pub trait ScorePeerFunc: Sized {
    spec fn delivered(&self) -> Seq<ScoreEvent>;

    fn score_changed(&mut self, peer: &PeerId, score: u32)
        ensures
            final(self).delivered() == old(self).delivered().push(
                ScoreEvent { peer: *peer, score },
            ),
    ;
}

/// A score consumer that keeps every notification it receives, in order.
#[derive(Debug, Clone)]
pub struct RecordingScoreHandler {
    pub events: Vec<ScoreEvent>,
}

impl RecordingScoreHandler {
    pub fn new() -> (h: RecordingScoreHandler)
        ensures
            h.delivered() =~= Seq::<ScoreEvent>::empty(),
    {
        RecordingScoreHandler { events: Vec::new() }
    }
}

impl ScorePeerFunc for RecordingScoreHandler {
    open spec fn delivered(&self) -> Seq<ScoreEvent> {
        self.events@
    }

    fn score_changed(&mut self, peer: &PeerId, score: u32)
        ensures
            final(self).delivered() == old(self).delivered().push(
                ScoreEvent { peer: *peer, score },
            ),
    {
        self.events.push(ScoreEvent { peer: *peer, score });
    }
}

/// Engine configuration. Fields default to the values given on each.
#[derive(Debug, Clone, Copy, PartialEq, Eq, Structural)]
pub struct Config {
    /// Size of the worker pool the embedder runs (default 8).
    pub engine_task_worker_count: usize,
    /// Whether negative answers are sent at all (default true).
    pub send_dont_haves: bool,
    /// Bound on concurrent store operations (default 128).
    pub engine_blockstore_worker_count: usize,
    /// Soft cap on bytes per envelope (default 16 KiB).
    pub target_message_size: usize,
    /// Admission limit of queued work bytes per peer; 0 disables (default 1 MiB).
    pub max_outstanding_bytes_per_peer: usize,
    /// Probe-to-fetch upgrade threshold (default 1024).
    pub max_replace_size: usize,
}

impl Default for Config {
    fn default() -> (c: Config)
        ensures
            c.engine_task_worker_count == 8,
            c.send_dont_haves == true,
            c.engine_blockstore_worker_count == 128,
            c.target_message_size == 16 * 1024,
            c.max_outstanding_bytes_per_peer == 1024 * 1024,
            c.max_replace_size == 1024,
    {
        Config {
            engine_task_worker_count: 8,
            send_dont_haves: true,
            engine_blockstore_worker_count: 128,
            target_message_size: 16 * 1024,
            max_outstanding_bytes_per_peer: 1024 * 1024,
            max_replace_size: 1024,
        }
    }
}

/// A peer-addressed outbound message together with the tasks it retires.
/// The embedder must call `tasks_done` with `sent_tasks` once the transport
/// has accepted (or dropped) the envelope, to release the peer's budget.
#[derive(Debug, Clone)]
pub struct Envelope {
    pub peer: PeerId,
    pub message: Message,
    pub sent_tasks: Vec<Task>,
}

/// Spec-level key projection for per-peer ledgers.
pub open spec fn ledger_key() -> spec_fn(Ledger) -> PeerId {
    |l: Ledger| l.partner
}

/// The decision engine.
#[derive(Debug)]
pub struct Engine<F: PeerBlockRequestFilter> {
    pub peer_task_queue: PeerTaskQueue,
    pub ledger_map: Vec<Ledger>,
    pub peer_ledger: PeerLedger,
    pub score_ledger: DefaultScoreLedger,
    pub blockstore_manager: BlockstoreManager,
    pub self_id: PeerId,
    pub target_message_size: usize,
    pub max_block_size_replace_has_with_block: usize,
    pub send_dont_haves: bool,
    pub task_worker_count: usize,
    pub peer_block_request_filter: Option<F>,
    pub stopped: bool,
}

impl<F: PeerBlockRequestFilter> Engine<F> {
    /// Component well-formedness plus the wantlist reflection invariant.
    pub open spec fn wf(self) -> bool {
        &&& unique_keys(self.ledger_map@, ledger_key())
        &&& forall|k: int| 0 <= k < self.ledger_map@.len() ==> (#[trigger] self.ledger_map@[k]).wf()
        &&& self.peer_ledger.wf()
        &&& self.score_ledger.wf()
        &&& self.peer_task_queue.wf()
        &&& self.blockstore_manager.wf()
        &&& forall|p: PeerId, i: BlockId|
            self.peer_ledger.wants_spec(p, i) <==> #[trigger] self.wantlist_entry(p, i) is Some
    }

    /// The per-peer ledger, if the peer is connected.
    pub open spec fn ledger_for(self, p: PeerId) -> Option<Ledger> {
        get_by(self.ledger_map@, ledger_key(), p)
    }

    pub open spec fn connected(self, p: PeerId) -> bool {
        has_key(self.ledger_map@, ledger_key(), p)
    }

    /// The wantlist entry a connected peer holds for `i`, if any.
    pub open spec fn wantlist_entry(self, p: PeerId, i: BlockId) -> Option<WantEntry> {
        match self.ledger_for(p) {
            Some(l) => l.spec_get(i),
            None => None,
        }
    }

    /// The admission policy applied to `(p, i)`.
    pub open spec fn allowed(self, p: PeerId, i: BlockId) -> bool {
        match self.peer_block_request_filter {
            Some(f) => f.allows(p, i),
            None => true,
        }
    }

    pub fn new(store: Store, self_id: PeerId, config: Config, filter: Option<F>) -> (e: Engine<
        F,
    >)
        requires
            store.wf(),
        ensures
            e.wf(),
            !e.stopped,
            e.self_id == self_id,
            e.target_message_size == config.target_message_size,
            e.max_block_size_replace_has_with_block == config.max_replace_size,
            e.send_dont_haves == config.send_dont_haves,
            e.task_worker_count == config.engine_task_worker_count,
            e.peer_task_queue.max_outstanding == config.max_outstanding_bytes_per_peer,
            e.blockstore_manager.store == store,
            e.peer_block_request_filter == filter,
            forall|p: PeerId| !e.connected(p),
            forall|p: PeerId, i: BlockId| e.peer_task_queue.pending_spec(p, i) is None,
            forall|p: PeerId, i: BlockId| !e.peer_ledger.wants_spec(p, i),
            forall|p: PeerId| e.score_ledger.entry_for(p) is None,
    {
        let blockstore_manager = BlockstoreManager::new(
            store,
            config.engine_blockstore_worker_count,
        );
        Engine {
            peer_task_queue: PeerTaskQueue::new(config.max_outstanding_bytes_per_peer),
            ledger_map: Vec::new(),
            peer_ledger: PeerLedger::new(),
            score_ledger: DefaultScoreLedger::new(),
            blockstore_manager,
            self_id,
            target_message_size: config.target_message_size,
            max_block_size_replace_has_with_block: config.max_replace_size,
            send_dont_haves: config.send_dont_haves,
            task_worker_count: config.engine_task_worker_count,
            peer_block_request_filter: filter,
            stopped: false,
        }
    }

    /// Index of the ledger for `p`, if connected.
    fn ledger_index_of(&self, p: &PeerId) -> (r: Option<usize>)
        requires
            unique_keys(self.ledger_map@, ledger_key()),
        ensures
            match r {
                Some(i) => i < self.ledger_map@.len() && self.ledger_map@[i as int].partner == *p
                    && self.ledger_for(*p) == Some(self.ledger_map@[i as int]),
                None => self.ledger_for(*p) is None,
            },
    {
        let n = self.ledger_map.len();
        for i in 0..n
            invariant
                n == self.ledger_map@.len(),
                unique_keys(self.ledger_map@, ledger_key()),
                forall|k: int| 0 <= k < i ==> self.ledger_map@[k].partner != *p,
        {
            if self.ledger_map[i].partner == *p {
                proof {
                    lemma_get_by_index(self.ledger_map@, ledger_key(), i as int);
                }
                return Some(i);
            }
        }
        proof {
            assert(!has_key(self.ledger_map@, ledger_key(), *p));
        }
        None
    }

    /// Called when a peer connects: creates its ledger and score entry.
    /// A no-op for an already connected peer, and after shutdown.
    #[verifier::rlimit(50)]
    pub fn peer_connected(&mut self, peer: &PeerId)
        requires
            old(self).wf(),
        ensures
            final(self).wf(),
            old(self).stopped ==> *final(self) == *old(self),
            !old(self).stopped ==> final(self).connected(*peer),
            !old(self).stopped ==> (forall|i: BlockId|
                #[trigger] final(self).wantlist_entry(*peer, i) == old(self).wantlist_entry(
                    *peer,
                    i,
                )),
            !old(self).stopped ==> (forall|q: PeerId|
                q != *peer ==> final(self).ledger_for(q) == old(self).ledger_for(q)),
            !old(self).stopped && old(self).connected(*peer) ==> final(self).ledger_for(*peer)
                == old(self).ledger_for(*peer),
            !old(self).stopped ==> (forall|q: PeerId|
                final(self).connected(q) == (q == *peer || old(self).connected(q))),
            !old(self).stopped ==> final(self).peer_ledger == old(self).peer_ledger,
            !old(self).stopped ==> final(self).peer_task_queue == old(self).peer_task_queue,
            !old(self).stopped ==> final(self).blockstore_manager
                == old(self).blockstore_manager,
            !old(self).stopped && old(self).score_ledger.entry_for(*peer) is Some
                ==> final(self).score_ledger == old(self).score_ledger,
            !old(self).stopped && old(self).score_ledger.entry_for(*peer) is None
                ==> final(self).score_ledger.entry_for(*peer) == (Some(
                crate::score_ledger::PeerScore {
                    peer: *peer,
                    sent: 0,
                    recv: 0,
                    score: 0,
                    last_activity: old(self).score_ledger.clock,
                },
            )),
            !old(self).stopped ==> (forall|q: PeerId|
                q != *peer ==> final(self).score_ledger.entry_for(q)
                    == old(self).score_ledger.entry_for(q)),
            !old(self).stopped ==> same_config(*old(self), *final(self)),
    {
        if self.stopped {
            return ;
        }
        self.score_ledger.peer_connected(peer);
        match self.ledger_index_of(peer) {
            Some(_) => {
                proof {
                    assert forall|p: PeerId, i: BlockId|
                        self.peer_ledger.wants_spec(p, i) <==> #[trigger] self.wantlist_entry(
                            p,
                            i,
                        ) is Some by {
                        assert(self.wantlist_entry(p, i) == old(self).wantlist_entry(p, i));
                        assert(self.peer_ledger == old(self).peer_ledger);
                    }
                }
            },
            None => {
                let l = Ledger::new(*peer);
                proof {
                    lemma_get_by_push(self.ledger_map@, ledger_key(), l);
                }
                self.ledger_map.push(l);
                proof {
                    assert forall|k: int|
                        0 <= k < self.ledger_map@.len() implies (
                    #[trigger] self.ledger_map@[k]).wf() by {
                        if k == self.ledger_map@.len() - 1 {
                            assert(self.ledger_map@[k] == l);
                        } else {
                            assert(self.ledger_map@[k] == old(self).ledger_map@[k]);
                        }
                    }
                    assert(self.ledger_for(*peer) == Some(l));
                    assert forall|p: PeerId, i: BlockId|
                        self.peer_ledger.wants_spec(p, i) <==> #[trigger] self.wantlist_entry(
                            p,
                            i,
                        ) is Some by {
                        if p == *peer {
                            assert(self.wantlist_entry(p, i) is None);
                            assert(old(self).wantlist_entry(p, i) is None);
                        } else {
                            assert(self.ledger_for(p) == old(self).ledger_for(p));
                            assert(self.wantlist_entry(p, i) == old(self).wantlist_entry(p, i));
                        }
                    }
                }
            },
        }
    }

    /// Called when a peer disconnects: its ledger, reverse-index records,
    /// queue and score entry are all dropped. Idempotent; a no-op after
    /// shutdown.
    pub fn peer_disconnected(&mut self, peer: &PeerId)
        requires
            old(self).wf(),
        ensures
            final(self).wf(),
            old(self).stopped ==> *final(self) == *old(self),
            !old(self).stopped ==> !final(self).connected(*peer),
            !old(self).stopped ==> (forall|q: PeerId|
                q != *peer ==> final(self).ledger_for(q) == old(self).ledger_for(q)),
            !old(self).stopped ==> (forall|q: PeerId|
                final(self).connected(q) == (q != *peer && old(self).connected(q))),
            !old(self).stopped ==> !final(self).peer_ledger.mentions_peer(*peer),
            !old(self).stopped ==> (forall|q: PeerId, i: BlockId|
                q != *peer ==> final(self).peer_ledger.wants_spec(q, i) == old(
                    self,
                ).peer_ledger.wants_spec(q, i)),
            !old(self).stopped ==> !final(self).peer_task_queue.knows_peer(*peer),
            !old(self).stopped ==> (forall|i: BlockId|
                final(self).peer_task_queue.pending_spec(*peer, i) is None),
            !old(self).stopped ==> (forall|q: PeerId|
                q != *peer ==> final(self).peer_task_queue.queue_for(q) == old(
                    self,
                ).peer_task_queue.queue_for(q)),
            !old(self).stopped ==> final(self).score_ledger.entry_for(*peer) is None,
            !old(self).stopped ==> (forall|q: PeerId|
                q != *peer ==> final(self).score_ledger.entry_for(q)
                    == old(self).score_ledger.entry_for(q)),
            !old(self).stopped ==> final(self).blockstore_manager
                == old(self).blockstore_manager,
            !old(self).stopped ==> same_config(*old(self), *final(self)),
    {
        if self.stopped {
            return ;
        }
        match self.ledger_index_of(peer) {
            Some(idx) => {
                proof {
                    lemma_get_by_remove(self.ledger_map@, ledger_key(), idx as int);
                }
                self.ledger_map.remove(idx);
            },
            None => {},
        }
        self.peer_ledger.forget_peer(peer);
        self.peer_task_queue.remove_peer(peer);
        self.score_ledger.peer_disconnected(peer);
        proof {
            assert forall|p: PeerId, i: BlockId|
                self.peer_ledger.wants_spec(p, i) <==> #[trigger] self.wantlist_entry(
                    p,
                    i,
                ) is Some by {
                if p == *peer {
                    if self.peer_ledger.wants_spec(p, i) {
                        assert(self.peer_ledger.mentions_peer(p));
                    }
                    assert(self.wantlist_entry(p, i) is None);
                } else {
                    assert(self.peer_ledger.wants_spec(p, i) == old(
                        self,
                    ).peer_ledger.wants_spec(p, i));
                    assert(self.wantlist_entry(p, i) == old(self).wantlist_entry(p, i));
                }
            }
        }
    }

    /// The wantlist the engine currently holds for `peer` (empty when the
    /// peer is unknown).
    pub fn wantlist_for_peer(&self, peer: &PeerId) -> (r: Vec<WantEntry>)
        requires
            self.wf(),
        ensures
            match self.ledger_for(*peer) {
                Some(l) => r@ == l.wantlist@,
                None => r@.len() == 0,
            },
    {
        match self.ledger_index_of(peer) {
            Some(idx) => {
                let entries = self.ledger_map[idx].entries();
                let n = entries.len();
                let mut out: Vec<WantEntry> = Vec::new();
                for k in 0..n
                    invariant
                        n == entries@.len(),
                        out@ =~= entries@.subrange(0, k as int),
                {
                    out.push(entries[k]);
                    proof {
                        assert(out@ =~= entries@.subrange(0, k + 1 as int));
                    }
                }
                proof {
                    assert(out@ =~= entries@);
                }
                out
            },
            None => Vec::new(),
        }
    }

    /// The aggregated data communication with `peer`, if tracked.
    pub fn ledger_for_peer(&self, peer: &PeerId) -> (r: Option<Receipt>)
        requires
            self.wf(),
        ensures
            match self.score_ledger.entry_for(*peer) {
                Some(e) => r == (Some(Receipt { sent: e.sent, recv: e.recv, score: e.score })),
                None => r is None,
            },
    {
        self.score_ledger.receipt(peer)
    }

    /// The peers with a live ledger, in connection order.
    pub fn peers(&self) -> (r: Vec<PeerId>)
        requires
            self.wf(),
        ensures
            r@.len() == self.ledger_map@.len(),
            forall|k: int| 0 <= k < r@.len() ==> r@[k] == self.ledger_map@[k].partner,
    {
        let n = self.ledger_map.len();
        let mut out: Vec<PeerId> = Vec::new();
        for k in 0..n
            invariant
                n == self.ledger_map@.len(),
                out@.len() == k,
                forall|j: int| 0 <= j < k ==> out@[j] == self.ledger_map@[j].partner,
        {
            out.push(self.ledger_map[k].partner);
        }
        out
    }

    /// Record bytes received from `from`. Pure accounting: wantlists and
    /// queues are untouched.
    pub fn received_blocks(&mut self, from: &PeerId, blocks: &Vec<Block>)
        requires
            old(self).wf(),
        ensures
            final(self).wf(),
            old(self).stopped || blocks@.len() == 0 ==> *final(self) == *old(self),
            final(self).ledger_map == old(self).ledger_map,
            final(self).peer_ledger == old(self).peer_ledger,
            final(self).peer_task_queue == old(self).peer_task_queue,
            final(self).blockstore_manager == old(self).blockstore_manager,
            same_config(*old(self), *final(self)),
            forall|q: PeerId|
                q != *from ==> final(self).score_ledger.entry_for(q) == old(
                    self,
                ).score_ledger.entry_for(q),
            forall|q: PeerId|
                final(self).score_ledger.sent_to(q) == old(self).score_ledger.sent_to(q),
            !old(self).stopped && blocks@.len() > 0 ==> {
                let e = final(self).score_ledger.entry_for(*from);
                &&& e is Some
                &&& e->Some_0.recv == byte_fold(
                    match old(self).score_ledger.entry_for(*from) {
                        Some(e0) => e0.recv,
                        None => 0,
                    },
                    blocks@,
                )
            },
    {
        if self.stopped {
            return ;
        }
        if blocks.is_empty() {
            return ;
        }
        let n = blocks.len();
        let ghost start = match old(self).score_ledger.entry_for(*from) {
            Some(e0) => e0.recv,
            None => 0u64,
        };
        for k in 0..n
            invariant
                n == blocks@.len(),
                self.score_ledger.wf(),
                self.ledger_map == old(self).ledger_map,
                self.peer_ledger == old(self).peer_ledger,
                self.peer_task_queue == old(self).peer_task_queue,
                self.blockstore_manager == old(self).blockstore_manager,
                same_config(*old(self), *self),
                unique_keys(self.ledger_map@, ledger_key()),
                forall|q: PeerId|
                    q != *from ==> self.score_ledger.entry_for(q) == old(
                        self,
                    ).score_ledger.entry_for(q),
                forall|q: PeerId|
                    self.score_ledger.sent_to(q) == old(self).score_ledger.sent_to(q),
                k > 0 ==> self.score_ledger.entry_for(*from) is Some,
                (match self.score_ledger.entry_for(*from) {
                    Some(e) => e.recv,
                    None => 0u64,
                }) == byte_fold(start, blocks@.subrange(0, k as int)),
        {
            let ghost pfx = blocks@.subrange(0, k as int);
            let ghost pfx2 = blocks@.subrange(0, k + 1 as int);
            proof {
                assert(pfx2 =~= pfx.push(blocks@[k as int]));
                lemma_byte_fold_push(start, pfx, blocks@[k as int]);
                assert(blocks@[k as int].data.len() == blocks@[k as int].data@.len());
            }
            self.score_ledger.add_to_recv_bytes(from, blocks[k].data.len());
        }
        proof {
            assert(blocks@.subrange(0, n as int) =~= blocks@);
            lemma_same_reflection(*old(self), *self);
        }
    }

    /// Drain pending score-change events and deliver every one of them to
    /// `handler`, in order.
    pub fn dispatch_score_events<S: ScorePeerFunc>(&mut self, handler: &mut S)
        requires
            old(self).wf(),
        ensures
            final(self).wf(),
            final(self).score_ledger.events@.len() == 0,
            final(handler).delivered() == old(handler).delivered() + old(
                self,
            ).score_ledger.events@,
            final(self).score_ledger.entries@ == old(self).score_ledger.entries@,
            final(self).ledger_map == old(self).ledger_map,
            final(self).peer_ledger == old(self).peer_ledger,
            final(self).peer_task_queue == old(self).peer_task_queue,
            final(self).blockstore_manager == old(self).blockstore_manager,
            same_config(*old(self), *final(self)),
    {
        let events = self.score_ledger.take_score_events();
        let n = events.len();
        for k in 0..n
            invariant
                n == events@.len(),
                handler.delivered() == old(handler).delivered() + events@.subrange(0, k as int),
        {
            let ev = &events[k];
            proof {
                assert(events@.subrange(0, k + 1 as int) =~= events@.subrange(0, k as int).push(
                    events@[k as int],
                ));
            }
            handler.score_changed(&ev.peer, ev.score);
            proof {
                assert(ScoreEvent { peer: events@[k as int].peer, score: events@[k as int].score }
                    == events@[k as int]);
            }
        }
        proof {
            assert(events@.subrange(0, n as int) =~= events@);
            lemma_same_reflection(*old(self), *self);
            assert forall|q: PeerId| #[trigger] self.score_ledger.entry_for(q) == old(
                self,
            ).score_ledger.entry_for(q) by {}
        }
    }

    /// Process one cancel entry: withdraw the want from the reverse index
    /// and the ledger, and delete the queued task if the ledger held the
    /// want.
    fn handle_cancel(&mut self, peer: &PeerId, id: &BlockId)
        requires
            unique_keys(old(self).ledger_map@, ledger_key()),
            forall|k: int|
                0 <= k < old(self).ledger_map@.len() ==> (#[trigger] old(self).ledger_map@[k]).wf(),
            old(self).peer_ledger.wf(),
            old(self).peer_task_queue.wf(),
        ensures
            unique_keys(final(self).ledger_map@, ledger_key()),
            forall|k: int|
                0 <= k < final(self).ledger_map@.len() ==> (
            #[trigger] final(self).ledger_map@[k]).wf(),
            final(self).peer_ledger.wf(),
            final(self).peer_task_queue.wf(),
            final(self).score_ledger == old(self).score_ledger,
            final(self).blockstore_manager == old(self).blockstore_manager,
            same_config(*old(self), *final(self)),
            forall|q: PeerId|
                q != *peer ==> get_by(final(self).ledger_map@, ledger_key(), q) == get_by(
                    old(self).ledger_map@,
                    ledger_key(),
                    q,
                ),
            forall|q: PeerId|
                has_key(final(self).ledger_map@, ledger_key(), q) == has_key(
                    old(self).ledger_map@,
                    ledger_key(),
                    q,
                ),
            forall|q: PeerId|
                q != *peer ==> final(self).peer_task_queue.queue_for(q) == old(
                    self,
                ).peer_task_queue.queue_for(q),
            forall|q: PeerId, i: BlockId|
                q != *peer ==> final(self).peer_ledger.wants_spec(q, i) == old(
                    self,
                ).peer_ledger.wants_spec(q, i),
            forall|q: PeerId|
                final(self).peer_task_queue.outstanding_spec(q) == old(
                    self,
                ).peer_task_queue.outstanding_spec(q),
            map_entry(final(self).ledger_map@, *peer, *id) is None,
            forall|i: BlockId|
                i != *id ==> map_entry(final(self).ledger_map@, *peer, i) == map_entry(
                    old(self).ledger_map@,
                    *peer,
                    i,
                ),
            !final(self).peer_ledger.wants_spec(*peer, *id),
            forall|i: BlockId|
                i != *id ==> final(self).peer_ledger.wants_spec(*peer, i) == old(
                    self,
                ).peer_ledger.wants_spec(*peer, i),
            final(self).peer_task_queue.pending_spec(*peer, *id) == (if map_entry(
                old(self).ledger_map@,
                *peer,
                *id,
            ) is Some {
                None
            } else {
                old(self).peer_task_queue.pending_spec(*peer, *id)
            }),
            forall|i: BlockId|
                i != *id ==> final(self).peer_task_queue.pending_spec(*peer, i) == old(
                    self,
                ).peer_task_queue.pending_spec(*peer, i),
    {
        self.peer_ledger.cancel(peer, id);
        let removed = map_cancel(&mut self.ledger_map, peer, id);
        if removed.is_some() {
            self.peer_task_queue.remove(id, peer);
        }
    }

    /// Process one non-cancel entry: record the want (when admitted), look
    /// the block up, and queue the answering task, if any. Returns true if
    /// a task was queued.
    fn handle_entry_task(&mut self, peer: &PeerId, e: crate::message::Entry) -> (pushed: bool)
        requires
            unique_keys(old(self).ledger_map@, ledger_key()),
            forall|k: int|
                0 <= k < old(self).ledger_map@.len() ==> (#[trigger] old(self).ledger_map@[k]).wf(),
            old(self).peer_ledger.wf(),
            old(self).peer_task_queue.wf(),
            old(self).blockstore_manager.wf(),
            has_key(old(self).ledger_map@, ledger_key(), *peer),
            !e.cancel,
        ensures
            unique_keys(final(self).ledger_map@, ledger_key()),
            forall|k: int|
                0 <= k < final(self).ledger_map@.len() ==> (
            #[trigger] final(self).ledger_map@[k]).wf(),
            final(self).peer_ledger.wf(),
            final(self).peer_task_queue.wf(),
            final(self).score_ledger == old(self).score_ledger,
            final(self).blockstore_manager == old(self).blockstore_manager,
            same_config(*old(self), *final(self)),
            forall|q: PeerId|
                q != *peer ==> get_by(final(self).ledger_map@, ledger_key(), q) == get_by(
                    old(self).ledger_map@,
                    ledger_key(),
                    q,
                ),
            forall|q: PeerId|
                has_key(final(self).ledger_map@, ledger_key(), q) == has_key(
                    old(self).ledger_map@,
                    ledger_key(),
                    q,
                ),
            forall|q: PeerId|
                q != *peer ==> final(self).peer_task_queue.queue_for(q) == old(
                    self,
                ).peer_task_queue.queue_for(q),
            forall|q: PeerId, i: BlockId|
                q != *peer ==> final(self).peer_ledger.wants_spec(q, i) == old(
                    self,
                ).peer_ledger.wants_spec(q, i),
            forall|q: PeerId|
                final(self).peer_task_queue.outstanding_spec(q) == old(
                    self,
                ).peer_task_queue.outstanding_spec(q),
            map_entry(final(self).ledger_map@, *peer, e.id) == (if old(self).allowed(
                *peer,
                e.id,
            ) {
                Some(
                    WantEntry {
                        id: e.id,
                        priority: e.priority,
                        kind: e.kind,
                        send_dont_have: e.send_dont_have,
                    },
                )
            } else {
                map_entry(old(self).ledger_map@, *peer, e.id)
            }),
            forall|i: BlockId|
                i != e.id ==> map_entry(final(self).ledger_map@, *peer, i) == map_entry(
                    old(self).ledger_map@,
                    *peer,
                    i,
                ),
            final(self).peer_ledger.wants_spec(*peer, e.id) == (if old(self).allowed(
                *peer,
                e.id,
            ) {
                true
            } else {
                old(self).peer_ledger.wants_spec(*peer, e.id)
            }),
            forall|i: BlockId|
                i != e.id ==> final(self).peer_ledger.wants_spec(*peer, i) == old(
                    self,
                ).peer_ledger.wants_spec(*peer, i),
            final(self).peer_task_queue.pending_spec(*peer, e.id) == (match spec_entry_task(
                *old(self),
                *peer,
                e,
            ) {
                Some(t) => spec_merge_onto(old(self).peer_task_queue.pending_spec(*peer, e.id), t),
                None => old(self).peer_task_queue.pending_spec(*peer, e.id),
            }),
            forall|i: BlockId|
                i != e.id ==> final(self).peer_task_queue.pending_spec(*peer, i) == old(
                    self,
                ).peer_task_queue.pending_spec(*peer, i),
            pushed == (spec_entry_task(*old(self), *peer, e) is Some),
    {
        let allowed = match &self.peer_block_request_filter {
            Some(f) => f.accept(peer, &e.id),
            None => true,
        };
        if allowed {
            self.peer_ledger.wants(*peer, e.id);
            map_wants(&mut self.ledger_map, peer, e.id, e.priority, e.kind, e.send_dont_have);
            match self.blockstore_manager.get_size(&e.id) {
                Some(sz) => {
                    proof {
                        let b = old(self).blockstore_manager.store.spec_get(e.id)->Some_0;
                        assert(b.data.len() == b.data@.len());
                    }
                    let iwb = e.kind == WantKind::Fetch
                        || sz <= self.max_block_size_replace_has_with_block;
                    let entry_size = if iwb {
                        sz
                    } else {
                        BlockPresence::encoded_len_for_id(&e.id)
                    };
                    let task = Task {
                        topic: e.id,
                        priority: e.priority,
                        work: entry_size,
                        data: TaskData {
                            block_size: sz,
                            have_block: true,
                            is_want_block: iwb,
                            send_dont_have: e.send_dont_have,
                        },
                    };
                    proof {
                        assert(Some(task) == spec_entry_task(*old(self), *peer, e));
                    }
                    self.peer_task_queue.push_task(*peer, task);
                    true
                },
                None => {
                    if self.send_dont_haves && e.send_dont_have {
                        let task = Task {
                            topic: e.id,
                            priority: e.priority,
                            work: BlockPresence::encoded_len_for_id(&e.id),
                            data: TaskData {
                                block_size: 0,
                                have_block: false,
                                is_want_block: e.kind == WantKind::Fetch,
                                send_dont_have: e.send_dont_have,
                            },
                        };
                        proof {
                            assert(Some(task) == spec_entry_task(*old(self), *peer, e));
                        }
                        self.peer_task_queue.push_task(*peer, task);
                        true
                    } else {
                        proof {
                            assert(spec_entry_task(*old(self), *peer, e) is None);
                        }
                        false
                    }
                },
            }
        } else {
            if self.send_dont_haves && e.send_dont_have {
                let task = Task {
                    topic: e.id,
                    priority: e.priority,
                    work: BlockPresence::encoded_len_for_id(&e.id),
                    data: TaskData {
                        block_size: 0,
                        have_block: false,
                        is_want_block: e.kind == WantKind::Fetch,
                        send_dont_have: e.send_dont_have,
                    },
                };
                proof {
                    assert(Some(task) == spec_entry_task(*old(self), *peer, e));
                }
                self.peer_task_queue.push_task(*peer, task);
                true
            } else {
                proof {
                    assert(spec_entry_task(*old(self), *peer, e) is None);
                }
                false
            }
        }
    }

    /// Ingress: a wantlist message arrived from `peer`.
    ///
    /// Cancels withdraw wants and delete queued tasks; accepted wants are
    /// recorded and answered with a block task (upgrading small probes to
    /// block sends) or a `DontHave` task; denied or unanswerable wants get a
    /// `DontHave` task when one is owed. A `full` message first clears the
    /// peer's wantlist, its reverse-index records and its queued tasks. An
    /// unknown peer is connected on the spot. Returns true when new work was
    /// queued; the embedder then wakes a worker. Deleting queued work may
    /// freeze the peer until the next thaw.
    #[verifier::rlimit(100)]
    pub fn message_received(&mut self, peer: &PeerId, message: &Message) -> (r: bool)
        requires
            old(self).wf(),
            message.wf(),
        ensures
            final(self).wf(),
            old(self).stopped ==> *final(self) == *old(self) && r == false,
            !old(self).stopped ==> (forall|q: PeerId|
                final(self).connected(q) == (q == *peer || old(self).connected(q))),
            !old(self).stopped ==> (forall|q: PeerId|
                q != *peer ==> final(self).ledger_for(q) == old(self).ledger_for(q)),
            !old(self).stopped ==> (forall|q: PeerId|
                q != *peer ==> final(self).peer_task_queue.queue_for(q) == old(
                    self,
                ).peer_task_queue.queue_for(q)),
            !old(self).stopped ==> (forall|q: PeerId, i: BlockId|
                q != *peer ==> final(self).peer_ledger.wants_spec(q, i) == old(
                    self,
                ).peer_ledger.wants_spec(q, i)),
            !old(self).stopped ==> final(self).score_ledger == old(self).score_ledger,
            !old(self).stopped ==> final(self).blockstore_manager
                == old(self).blockstore_manager,
            !old(self).stopped ==> same_config(*old(self), *final(self)),
            !old(self).stopped ==> final(self).peer_task_queue.outstanding_spec(*peer) == old(
                self,
            ).peer_task_queue.outstanding_spec(*peer),
            !old(self).stopped ==> (forall|i: BlockId|
                #[trigger] final(self).wantlist_entry(*peer, i) == spec_wl_after(
                    *old(self),
                    *peer,
                    message.entries@,
                    message.full,
                    i,
                )),
            !old(self).stopped ==> (forall|i: BlockId|
                #[trigger] final(self).peer_task_queue.pending_spec(*peer, i)
                    == spec_pending_after(
                    *old(self),
                    *peer,
                    message.entries@,
                    message.full,
                    i,
                )),
            !old(self).stopped ==> r == (exists|k: int|
                0 <= k < message.entries@.len() && spec_entry_task(
                    *old(self),
                    *peer,
                    #[trigger] message.entries@[k],
                ) is Some),
    {
        if self.stopped {
            return false;
        }
        let ghost pre = *old(self);
        let p = *peer;
        map_create(&mut self.ledger_map, peer);
        proof {
            assert forall|i: BlockId|
                #[trigger] map_entry(self.ledger_map@, p, i) == pre.wantlist_entry(p, i) by {
                if !has_key(pre.ledger_map@, ledger_key(), p) {
                    assert(pre.wantlist_entry(p, i) is None);
                }
            }
        }
        let ghost ac = *self;
        let full = message.full();
        if full {
            let wl = self.wantlist_for_entries(peer);
            let m = wl.len();
            let mut j: usize = 0;
            while j < m
                invariant
                    m == wl@.len(),
                    j <= m,
                    p == *peer,
                    unique_keys(wl@, crate::wantlist::want_key()),
                    self.ledger_map == ac.ledger_map,
                    self.score_ledger == ac.score_ledger,
                    self.blockstore_manager == ac.blockstore_manager,
                    same_config(ac, *self),
                    self.peer_ledger.wf(),
                    self.peer_task_queue.wf(),
                    forall|q: PeerId, i: BlockId|
                        q != p ==> self.peer_ledger.wants_spec(q, i) == ac.peer_ledger.wants_spec(
                            q,
                            i,
                        ),
                    forall|q: PeerId|
                        q != p ==> self.peer_task_queue.queue_for(q)
                            == ac.peer_task_queue.queue_for(q),
                    forall|q: PeerId|
                        self.peer_task_queue.outstanding_spec(q)
                            == ac.peer_task_queue.outstanding_spec(q),
                    forall|i: BlockId|
                        #[trigger] self.peer_ledger.wants_spec(p, i) == (
                        ac.peer_ledger.wants_spec(p, i) && !has_key(
                            wl@.subrange(0, j as int),
                            crate::wantlist::want_key(),
                            i,
                        )),
                    forall|i: BlockId|
                        #[trigger] self.peer_task_queue.pending_spec(p, i) == (if has_key(
                            wl@.subrange(0, j as int),
                            crate::wantlist::want_key(),
                            i,
                        ) {
                            None
                        } else {
                            ac.peer_task_queue.pending_spec(p, i)
                        }),
                decreases m - j,
            {
                let we = wl[j];
                let ghost pfx = wl@.subrange(0, j as int);
                let ghost pfx2 = wl@.subrange(0, j + 1 as int);
                proof {
                    assert(pfx2 =~= pfx.push(we));
                    assert(!has_key(pfx, crate::wantlist::want_key(), we.id)) by {
                        if has_key(pfx, crate::wantlist::want_key(), we.id) {
                            let k = key_at(pfx, crate::wantlist::want_key(), we.id);
                            assert(wl@[k] == pfx[k]);
                        }
                    }
                }
                let ghost bpl = self.peer_ledger;
                let ghost bq = self.peer_task_queue;
                self.peer_ledger.cancel(peer, &we.id);
                self.peer_task_queue.remove(&we.id, peer);
                proof {
                    lemma_purge_step(
                        ac.peer_ledger,
                        ac.peer_task_queue,
                        bpl,
                        bq,
                        self.peer_ledger,
                        self.peer_task_queue,
                        p,
                        pfx,
                        we,
                    );
                    assert forall|q: PeerId, i: BlockId|
                        q != p implies self.peer_ledger.wants_spec(q, i)
                        == ac.peer_ledger.wants_spec(q, i) by {
                        assert(self.peer_ledger.wants_spec(q, i) == bpl.wants_spec(q, i));
                    }
                    assert forall|q: PeerId|
                        q != p implies self.peer_task_queue.queue_for(q)
                        == ac.peer_task_queue.queue_for(q) by {
                        assert(self.peer_task_queue.queue_for(q) == bq.queue_for(q));
                    }
                    assert forall|q: PeerId|
                        self.peer_task_queue.outstanding_spec(q)
                            == ac.peer_task_queue.outstanding_spec(q) by {
                        assert(self.peer_task_queue.outstanding_spec(q) == bq.outstanding_spec(
                            q,
                        ));
                    }
                }
                j = j + 1;
            }
            proof {
                assert(wl@.subrange(0, m as int) =~= wl@);
            }
            map_clear(&mut self.ledger_map, peer);
            proof {
                assert forall|i: BlockId|
                    (#[trigger] pre.wantlist_entry(p, i) is Some) == has_key(
                        wl@,
                        crate::wantlist::want_key(),
                        i,
                    ) by {
                    assert(map_entry(ac.ledger_map@, p, i) == pre.wantlist_entry(p, i));
                }
                lemma_purge_complete(
                    pre,
                    self.peer_ledger,
                    self.peer_task_queue,
                    p,
                    wl@,
                );
            }
        }
        let ghost mid = *self;
        proof {
            assert forall|i: BlockId|
                #[trigger] mid.peer_ledger.wants_spec(p, i) == (if full {
                    false
                } else {
                    pre.peer_ledger.wants_spec(p, i)
                }) by {}
            assert forall|i: BlockId|
                #[trigger] mid.peer_task_queue.pending_spec(p, i) == spec_base_pending(
                    pre,
                    p,
                    full,
                    i,
                ) by {}
            assert forall|i: BlockId|
                #[trigger] map_entry(mid.ledger_map@, p, i) == spec_wl_after(
                    pre,
                    p,
                    Seq::<crate::message::Entry>::empty(),
                    full,
                    i,
                ) by {
                assert(!has_key(
                    Seq::<crate::message::Entry>::empty(),
                    crate::message::entry_key(),
                    i,
                ));
            }
            assert forall|i: BlockId|
                #[trigger] mid.peer_ledger.wants_spec(p, i) == (spec_wl_after(
                    pre,
                    p,
                    Seq::<crate::message::Entry>::empty(),
                    full,
                    i,
                ) is Some) by {
                assert(map_entry(mid.ledger_map@, p, i) == spec_wl_after(
                    pre,
                    p,
                    Seq::<crate::message::Entry>::empty(),
                    full,
                    i,
                ));
                if !full {
                    assert(pre.peer_ledger.wants_spec(p, i) <==> pre.wantlist_entry(
                        p,
                        i,
                    ) is Some);
                }
            }
            assert forall|i: BlockId|
                #[trigger] mid.peer_task_queue.pending_spec(p, i) == spec_pending_after(
                    pre,
                    p,
                    Seq::<crate::message::Entry>::empty(),
                    full,
                    i,
                ) by {}
            assert(Seq::<crate::message::Entry>::empty() =~= message.entries@.subrange(0, 0));
            assert forall|q: PeerId|
                q != p implies self.peer_task_queue.queue_for(q) == pre.peer_task_queue.queue_for(
                q,
            ) by {
                if full {
                    assert(self.peer_task_queue.queue_for(q) == ac.peer_task_queue.queue_for(q));
                }
            }
            assert forall|q: PeerId, i: BlockId|
                q != p implies self.peer_ledger.wants_spec(q, i) == pre.peer_ledger.wants_spec(
                q,
                i,
            ) by {
                if full {
                    assert(self.peer_ledger.wants_spec(q, i) == ac.peer_ledger.wants_spec(q, i));
                }
            }
            assert forall|q: PeerId|
                self.peer_task_queue.outstanding_spec(q) == pre.peer_task_queue.outstanding_spec(
                    q,
                ) by {
                if full {
                    assert(self.peer_task_queue.outstanding_spec(q)
                        == ac.peer_task_queue.outstanding_spec(q));
                }
            }
        }
        let n = message.entries.len();
        let mut work = false;
        let mut k: usize = 0;
        while k < n
            invariant
                n == message.entries@.len(),
                k <= n,
                p == *peer,
                message.wf(),
                unique_keys(self.ledger_map@, ledger_key()),
                forall|kk: int|
                    0 <= kk < self.ledger_map@.len() ==> (#[trigger] self.ledger_map@[kk]).wf(),
                self.peer_ledger.wf(),
                self.peer_task_queue.wf(),
                self.score_ledger == pre.score_ledger,
                self.blockstore_manager == pre.blockstore_manager,
                same_config(pre, *self),
                pre.blockstore_manager.wf(),
                has_key(self.ledger_map@, ledger_key(), p),
                forall|q: PeerId|
                    q != p ==> get_by(self.ledger_map@, ledger_key(), q) == get_by(
                        pre.ledger_map@,
                        ledger_key(),
                        q,
                    ),
                forall|q: PeerId|
                    has_key(self.ledger_map@, ledger_key(), q) == (q == p || has_key(
                        pre.ledger_map@,
                        ledger_key(),
                        q,
                    )),
                forall|q: PeerId|
                    q != p ==> self.peer_task_queue.queue_for(q) == pre.peer_task_queue.queue_for(
                        q,
                    ),
                forall|q: PeerId, i: BlockId|
                    q != p ==> self.peer_ledger.wants_spec(q, i) == pre.peer_ledger.wants_spec(
                        q,
                        i,
                    ),
                forall|q: PeerId|
                    self.peer_task_queue.outstanding_spec(q)
                        == pre.peer_task_queue.outstanding_spec(q),
                forall|i: BlockId|
                    #[trigger] map_entry(self.ledger_map@, p, i) == spec_wl_after(
                        pre,
                        p,
                        message.entries@.subrange(0, k as int),
                        full,
                        i,
                    ),
                forall|i: BlockId|
                    #[trigger] self.peer_ledger.wants_spec(p, i) == (spec_wl_after(
                        pre,
                        p,
                        message.entries@.subrange(0, k as int),
                        full,
                        i,
                    ) is Some),
                forall|i: BlockId|
                    #[trigger] self.peer_task_queue.pending_spec(p, i) == spec_pending_after(
                        pre,
                        p,
                        message.entries@.subrange(0, k as int),
                        full,
                        i,
                    ),
                work == (exists|j: int|
                    0 <= j < k && spec_entry_task(
                        pre,
                        p,
                        #[trigger] message.entries@[j],
                    ) is Some),
            decreases n - k,
        {
            let e = message.entries[k];
            let ghost pfx = message.entries@.subrange(0, k as int);
            let ghost pfx2 = message.entries@.subrange(0, k + 1 as int);
            proof {
                assert(pfx2 =~= pfx.push(e));
                assert(unique_keys(pfx, crate::message::entry_key())) by {
                    assert forall|a: int, b: int|
                        0 <= a < b < pfx.len() implies crate::message::entry_key()(pfx[a])
                        != crate::message::entry_key()(pfx[b]) by {
                        assert(pfx[a] == message.entries@[a] && pfx[b] == message.entries@[b]);
                    }
                }
                assert(!has_key(pfx, crate::message::entry_key(), e.id)) by {
                    if has_key(pfx, crate::message::entry_key(), e.id) {
                        let a = key_at(pfx, crate::message::entry_key(), e.id);
                        assert(pfx[a] == message.entries@[a]);
                    }
                }
            }
            let ghost before = *self;
            if e.cancel {
                self.handle_cancel(peer, &e.id);
                proof {
                    lemma_step_cancel(pre, p, pfx, full, e, before, *self);
                }
            } else {
                let pushed = self.handle_entry_task(peer, e);
                if pushed {
                    work = true;
                }
                proof {
                    assert(before.allowed(p, e.id) == pre.allowed(p, e.id));
                    assert(spec_entry_task(before, p, e) == spec_entry_task(pre, p, e));
                    lemma_step_entry(pre, p, pfx, full, e, before, *self);
                }
            }
            proof {
                assert forall|q: PeerId|
                    q != p implies get_by(self.ledger_map@, ledger_key(), q) == get_by(
                    pre.ledger_map@,
                    ledger_key(),
                    q,
                ) by {
                    assert(get_by(self.ledger_map@, ledger_key(), q) == get_by(
                        before.ledger_map@,
                        ledger_key(),
                        q,
                    ));
                }
                assert forall|q: PeerId|
                    has_key(self.ledger_map@, ledger_key(), q) == (q == p || has_key(
                        pre.ledger_map@,
                        ledger_key(),
                        q,
                    )) by {
                    assert(has_key(self.ledger_map@, ledger_key(), q) == has_key(
                        before.ledger_map@,
                        ledger_key(),
                        q,
                    ));
                }
                assert forall|q: PeerId|
                    q != p implies self.peer_task_queue.queue_for(q)
                    == pre.peer_task_queue.queue_for(q) by {
                    assert(self.peer_task_queue.queue_for(q) == before.peer_task_queue.queue_for(
                        q,
                    ));
                }
                assert forall|q: PeerId, i: BlockId|
                    q != p implies self.peer_ledger.wants_spec(q, i)
                    == pre.peer_ledger.wants_spec(q, i) by {
                    assert(self.peer_ledger.wants_spec(q, i) == before.peer_ledger.wants_spec(
                        q,
                        i,
                    ));
                }
                assert forall|q: PeerId|
                    self.peer_task_queue.outstanding_spec(q)
                        == pre.peer_task_queue.outstanding_spec(q) by {
                    assert(self.peer_task_queue.outstanding_spec(q)
                        == before.peer_task_queue.outstanding_spec(q));
                }
            }
            k = k + 1;
        }
        proof {
            assert(message.entries@.subrange(0, n as int) =~= message.entries@);
            assert forall|i: BlockId|
                #[trigger] self.wantlist_entry(p, i) == spec_wl_after(
                    pre,
                    p,
                    message.entries@,
                    full,
                    i,
                ) by {
                assert(self.wantlist_entry(p, i) == map_entry(self.ledger_map@, p, i));
            }
            assert forall|p2: PeerId, i: BlockId|
                self.peer_ledger.wants_spec(p2, i) <==> #[trigger] self.wantlist_entry(
                    p2,
                    i,
                ) is Some by {
                if p2 == p {
                    assert(self.wantlist_entry(p2, i) == map_entry(self.ledger_map@, p, i));
                } else {
                    assert(self.wantlist_entry(p2, i) == pre.wantlist_entry(p2, i));
                    assert(pre.peer_ledger.wants_spec(p2, i) <==> pre.wantlist_entry(
                        p2,
                        i,
                    ) is Some);
                }
            }
            assert forall|q: PeerId|
                final(self).connected(q) == (q == p || pre.connected(q)) by {}
            assert forall|q: PeerId|
                q != p implies final(self).ledger_for(q) == pre.ledger_for(q) by {}
        }
        work
    }

    /// A copy of the wantlist entries held for `peer` (empty when unknown),
    /// with the uniqueness of their identifiers exposed.
    fn wantlist_for_entries(&self, peer: &PeerId) -> (r: Vec<WantEntry>)
        requires
            unique_keys(self.ledger_map@, ledger_key()),
            forall|k: int| 0 <= k < self.ledger_map@.len() ==> (#[trigger] self.ledger_map@[k]).wf(),
        ensures
            unique_keys(r@, crate::wantlist::want_key()),
            forall|i: BlockId|
                (#[trigger] map_entry(self.ledger_map@, *peer, i) is Some) == has_key(
                    r@,
                    crate::wantlist::want_key(),
                    i,
                ),
    {
        match map_index_of(&self.ledger_map, peer) {
            Some(idx) => {
                let entries = self.ledger_map[idx].entries();
                let n = entries.len();
                let mut out: Vec<WantEntry> = Vec::new();
                for k in 0..n
                    invariant
                        n == entries@.len(),
                        out@ =~= entries@.subrange(0, k as int),
                {
                    out.push(entries[k]);
                    proof {
                        assert(out@ =~= entries@.subrange(0, k + 1 as int));
                    }
                }
                proof {
                    assert(out@ =~= entries@);
                }
                out
            },
            None => {
                let out: Vec<WantEntry> = Vec::new();
                proof {
                    assert(forall|i: BlockId|
                        !has_key(out@, crate::wantlist::want_key(), i));
                }
                out
            },
        }
    }

    /// Ingress: the local store has just acquired `blocks`.
    ///
    /// Each block is recorded in the store; every peer whose ledger still
    /// wants it gets a task carrying the block (or its presence, for large
    /// probes). Returns true when new work was queued.
    #[verifier::rlimit(100)]
    pub fn notify_new_blocks(&mut self, blocks: &Vec<Block>) -> (r: bool)
        requires
            old(self).wf(),
            unique_keys(blocks@, crate::store::block_key()),
        ensures
            final(self).wf(),
            old(self).stopped ==> *final(self) == *old(self) && r == false,
            blocks@.len() == 0 ==> *final(self) == *old(self) && r == false,
            !old(self).stopped ==> final(self).ledger_map == old(self).ledger_map,
            !old(self).stopped ==> final(self).peer_ledger == old(self).peer_ledger,
            !old(self).stopped ==> final(self).score_ledger == old(self).score_ledger,
            !old(self).stopped ==> same_config(*old(self), *final(self)),
            !old(self).stopped ==> (forall|i: BlockId|
                match get_by(blocks@, crate::store::block_key(), i) {
                    Some(b) => {
                        let g = #[trigger] final(self).blockstore_manager.store.spec_get(i);
                        g is Some && g->Some_0.id == i && g->Some_0.data@ == b.data@
                    },
                    None => final(self).blockstore_manager.store.spec_get(i) == old(
                        self,
                    ).blockstore_manager.store.spec_get(i),
                }),
            !old(self).stopped ==> (forall|q: PeerId, i: BlockId|
                #[trigger] final(self).peer_task_queue.pending_spec(q, i)
                    == spec_notify_pending(*old(self), q, i, blocks@)),
            !old(self).stopped ==> (forall|q: PeerId|
                final(self).peer_task_queue.outstanding_spec(q) == old(
                    self,
                ).peer_task_queue.outstanding_spec(q)),
            !old(self).stopped ==> r == (exists|q: PeerId, i: BlockId|
                get_by(blocks@, crate::store::block_key(), i) is Some
                    && #[trigger] old(self).peer_ledger.wants_spec(q, i)),
    {
        if self.stopped {
            return false;
        }
        if blocks.is_empty() {
            return false;
        }
        let ghost pre = *old(self);
        let nb = blocks.len();
        let mut bi: usize = 0;
        while bi < nb
            invariant
                nb == blocks@.len(),
                bi <= nb,
                unique_keys(blocks@, crate::store::block_key()),
                self.blockstore_manager.wf(),
                self.ledger_map == pre.ledger_map,
                self.peer_ledger == pre.peer_ledger,
                self.score_ledger == pre.score_ledger,
                self.peer_task_queue == pre.peer_task_queue,
                same_config(pre, *self),
                self.blockstore_manager.worker_count == pre.blockstore_manager.worker_count,
                forall|i: BlockId|
                    match get_by(blocks@.subrange(0, bi as int), crate::store::block_key(), i) {
                        Some(b) => {
                            let g = #[trigger] self.blockstore_manager.store.spec_get(i);
                            g is Some && g->Some_0.id == i && g->Some_0.data@ == b.data@
                        },
                        None => self.blockstore_manager.store.spec_get(i)
                            == pre.blockstore_manager.store.spec_get(i),
                    },
            decreases nb - bi,
        {
            let ghost pfx = blocks@.subrange(0, bi as int);
            let ghost pfx2 = blocks@.subrange(0, bi + 1 as int);
            proof {
                assert(pfx2 =~= pfx.push(blocks@[bi as int]));
                assert(unique_keys(pfx, crate::store::block_key())) by {
                    assert forall|a: int, b: int|
                        0 <= a < b < pfx.len() implies crate::store::block_key()(pfx[a])
                        != crate::store::block_key()(pfx[b]) by {
                        assert(pfx[a] == blocks@[a] && pfx[b] == blocks@[b]);
                    }
                }
                assert(!has_key(pfx, crate::store::block_key(), blocks@[bi as int].id)) by {
                    if has_key(pfx, crate::store::block_key(), blocks@[bi as int].id) {
                        let a = key_at(pfx, crate::store::block_key(), blocks@[bi as int].id);
                        assert(pfx[a] == blocks@[a]);
                    }
                }
                lemma_get_by_push(pfx, crate::store::block_key(), blocks@[bi as int]);
            }
            let b2 = crate::store::clone_block(&blocks[bi]);
            self.blockstore_manager.put(b2);
            proof {
                assert(b2.id == blocks@[bi as int].id);
                assert forall|i: BlockId|
                    match get_by(pfx2, crate::store::block_key(), i) {
                        Some(b) => {
                            let g = #[trigger] self.blockstore_manager.store.spec_get(i);
                            g is Some && g->Some_0.id == i && g->Some_0.data@ == b.data@
                        },
                        None => self.blockstore_manager.store.spec_get(i)
                            == pre.blockstore_manager.store.spec_get(i),
                    } by {
                    if i == b2.id {
                        assert(get_by(pfx2, crate::store::block_key(), i) == Some(
                            blocks@[bi as int],
                        ));
                    } else {
                        assert(get_by(pfx2, crate::store::block_key(), i) == get_by(
                            pfx,
                            crate::store::block_key(),
                            i,
                        ));
                    }
                }
            }
            bi = bi + 1;
        }
        proof {
            assert(blocks@.subrange(0, nb as int) =~= blocks@);
        }
        let ghost st = *self;
        let mut work = false;
        let mut bi2: usize = 0;
        while bi2 < nb
            invariant
                nb == blocks@.len(),
                bi2 <= nb,
                unique_keys(blocks@, crate::store::block_key()),
                unique_keys(self.ledger_map@, ledger_key()),
                forall|k: int|
                    0 <= k < self.ledger_map@.len() ==> (#[trigger] self.ledger_map@[k]).wf(),
                self.ledger_map == pre.ledger_map,
                self.peer_ledger == pre.peer_ledger,
                self.peer_ledger.wf(),
                self.peer_task_queue.wf(),
                self.score_ledger == pre.score_ledger,
                self.blockstore_manager == st.blockstore_manager,
                same_config(pre, *self),
                pre.wf(),
                forall|q: PeerId, i: BlockId|
                    #[trigger] self.peer_task_queue.pending_spec(q, i) == spec_notify_pending(
                        pre,
                        q,
                        i,
                        blocks@.subrange(0, bi2 as int),
                    ),
                forall|q: PeerId|
                    self.peer_task_queue.outstanding_spec(q)
                        == pre.peer_task_queue.outstanding_spec(q),
                work == (exists|q: PeerId, i: BlockId|
                    get_by(blocks@.subrange(0, bi2 as int), crate::store::block_key(), i)
                        is Some && #[trigger] pre.peer_ledger.wants_spec(q, i)),
            decreases nb - bi2,
        {
            let ghost pfx = blocks@.subrange(0, bi2 as int);
            let ghost pfx2 = blocks@.subrange(0, bi2 + 1 as int);
            let ghost bb = blocks@[bi2 as int];
            proof {
                assert(pfx2 =~= pfx.push(bb));
                assert(!has_key(pfx, crate::store::block_key(), bb.id)) by {
                    if has_key(pfx, crate::store::block_key(), bb.id) {
                        let a = key_at(pfx, crate::store::block_key(), bb.id);
                        assert(pfx[a] == blocks@[a]);
                    }
                }
                assert(unique_keys(pfx, crate::store::block_key())) by {
                    assert forall|a: int, b: int|
                        0 <= a < b < pfx.len() implies crate::store::block_key()(pfx[a])
                        != crate::store::block_key()(pfx[b]) by {
                        assert(pfx[a] == blocks@[a] && pfx[b] == blocks@[b]);
                    }
                }
                lemma_get_by_push(pfx, crate::store::block_key(), bb);
            }
            let peers = self.peer_ledger.peers_for(&blocks[bi2].id);
            let np = peers.len();
            let ghost qstart = self.peer_task_queue;
            let ghost wstart = work;
            let mut pj: usize = 0;
            while pj < np
                invariant
                    np == peers@.len(),
                    pj <= np,
                    nb == blocks@.len(),
                    bi2 < nb,
                    bb == blocks@[bi2 as int],
                    unique_keys(peers@, crate::peer_ledger::peer_self_key()),
                    forall|q: PeerId| peers@.contains(q) == pre.peer_ledger.wants_spec(q, bb.id),
                    unique_keys(self.ledger_map@, ledger_key()),
                    forall|k: int|
                        0 <= k < self.ledger_map@.len() ==> (#[trigger] self.ledger_map@[k]).wf(),
                    self.ledger_map == pre.ledger_map,
                    self.peer_ledger == pre.peer_ledger,
                    self.peer_task_queue.wf(),
                    self.score_ledger == pre.score_ledger,
                    self.blockstore_manager == st.blockstore_manager,
                    same_config(pre, *self),
                    pre.wf(),
                    forall|q: PeerId, i: BlockId|
                        i != bb.id ==> #[trigger] self.peer_task_queue.pending_spec(q, i)
                            == qstart.pending_spec(q, i),
                    forall|q: PeerId|
                        #[trigger] self.peer_task_queue.pending_spec(q, bb.id) == (if peers@
                            .subrange(0, pj as int).contains(q) {
                            spec_notify_pending(pre, q, bb.id, pfx2)
                        } else {
                            qstart.pending_spec(q, bb.id)
                        }),
                    forall|q: PeerId|
                        self.peer_task_queue.outstanding_spec(q) == qstart.outstanding_spec(q),
                    forall|q2: PeerId, i: BlockId|
                        #[trigger] qstart.pending_spec(q2, i) == spec_notify_pending(
                            pre,
                            q2,
                            i,
                            pfx,
                        ),
                    !has_key(pfx, crate::store::block_key(), bb.id),
                    pfx2 == pfx.push(bb),
                    get_by(pfx2, crate::store::block_key(), bb.id) == Some(bb),
                    work == (wstart || pj > 0),
                decreases np - pj,
            {
                let q = peers[pj];
                proof {
                    assert(peers@.contains(q)) by {
                        assert(peers@[pj as int] == q);
                    }
                    assert(pre.peer_ledger.wants_spec(q, bb.id));
                    assert(pre.wantlist_entry(q, bb.id) is Some);
                    assert(map_entry(self.ledger_map@, q, bb.id) == pre.wantlist_entry(q, bb.id));
                }
                let ent = match map_get(&self.ledger_map, &q, &blocks[bi2].id) {
                    Some(ent) => ent,
                    None => {
                        return false;  // unreachable: reflection gives an entry
                    },
                };
                proof {
                    let b = st.blockstore_manager.store.spec_get(bb.id)->Some_0;
                    assert(blocks[bi2 as int].data.len() == bb.data@.len());
                }
                let sz = blocks[bi2].data.len();
                let iwb = ent.kind == WantKind::Fetch
                    || sz <= self.max_block_size_replace_has_with_block;
                let entry_size = if iwb {
                    sz
                } else {
                    BlockPresence::encoded_len_for_id(&ent.id)
                };
                let task = Task {
                    topic: ent.id,
                    priority: ent.priority,
                    work: entry_size,
                    data: TaskData {
                        block_size: sz,
                        have_block: true,
                        is_want_block: iwb,
                        send_dont_have: false,
                    },
                };
                proof {
                    assert(ent.id == bb.id);
                    assert(task == spec_notify_task(pre, ent, bb));
                }
                let ghost qb = self.peer_task_queue;
                self.peer_task_queue.push_task(q, task);
                proof {
                    let sub = peers@.subrange(0, pj as int);
                    let sub2 = peers@.subrange(0, pj + 1 as int);
                    assert(sub2 =~= sub.push(q));
                    assert(!sub.contains(q)) by {
                        if sub.contains(q) {
                            let a = choose|a: int| 0 <= a < sub.len() && sub[a] == q;
                            assert(peers@[a] == q);
                            assert(crate::peer_ledger::peer_self_key()(peers@[a])
                                == crate::peer_ledger::peer_self_key()(peers@[pj as int]));
                        }
                    }
                    assert(qb.pending_spec(q, bb.id) == qstart.pending_spec(q, bb.id));
                    assert(qstart.pending_spec(q, bb.id) == spec_notify_pending(
                        pre,
                        q,
                        bb.id,
                        pfx,
                    ));
                    assert(get_by(pfx, crate::store::block_key(), bb.id) is None);
                    assert(spec_notify_pending(pre, q, bb.id, pfx) == pre.peer_task_queue
                        .pending_spec(q, bb.id));
                    assert(get_by(pfx2, crate::store::block_key(), bb.id) == Some(bb));
                    assert(self.peer_task_queue.pending_spec(q, bb.id) == spec_notify_pending(
                        pre,
                        q,
                        bb.id,
                        pfx2,
                    ));
                    assert forall|q2: PeerId|
                        #[trigger] self.peer_task_queue.pending_spec(q2, bb.id) == (if sub2
                            .contains(q2) {
                            spec_notify_pending(pre, q2, bb.id, pfx2)
                        } else {
                            qstart.pending_spec(q2, bb.id)
                        }) by {
                        if q2 != q {
                            assert(self.peer_task_queue.pending_spec(q2, bb.id)
                                == qb.pending_spec(q2, bb.id));
                            assert(sub2.contains(q2) == sub.contains(q2)) by {
                                if sub2.contains(q2) {
                                    let a = choose|a: int|
                                        0 <= a < sub2.len() && sub2[a] == q2;
                                    if a < sub.len() {
                                        assert(sub[a] == q2);
                                    }
                                }
                                if sub.contains(q2) {
                                    let a = choose|a: int| 0 <= a < sub.len() && sub[a] == q2;
                                    assert(sub2[a] == q2);
                                }
                            }
                        } else {
                            assert(sub2[pj as int] == q);
                        }
                    }
                    assert forall|q2: PeerId, i: BlockId|
                        i != bb.id implies #[trigger] self.peer_task_queue.pending_spec(q2, i)
                        == qstart.pending_spec(q2, i) by {
                        assert(self.peer_task_queue.pending_spec(q2, i) == qb.pending_spec(
                            q2,
                            i,
                        ));
                    }
                    assert forall|q2: PeerId|
                        self.peer_task_queue.outstanding_spec(q2) == qstart.outstanding_spec(
                            q2,
                        ) by {
                        assert(self.peer_task_queue.outstanding_spec(q2) == qb.outstanding_spec(
                            q2,
                        ));
                    }
                }
                if !work {
                    work = true;
                }
                pj = pj + 1;
            }
            proof {
                assert(peers@.subrange(0, np as int) =~= peers@);
                assert forall|q2: PeerId, i: BlockId|
                    #[trigger] self.peer_task_queue.pending_spec(q2, i) == spec_notify_pending(
                        pre,
                        q2,
                        i,
                        pfx2,
                    ) by {
                    if i == bb.id {
                        if peers@.contains(q2) {
                        } else {
                            assert(!pre.peer_ledger.wants_spec(q2, i));
                            assert(self.peer_task_queue.pending_spec(q2, i)
                                == qstart.pending_spec(q2, i));
                            assert(qstart.pending_spec(q2, i) == spec_notify_pending(
                                pre,
                                q2,
                                i,
                                pfx,
                            ));
                            assert(get_by(pfx, crate::store::block_key(), i) is None);
                        }
                    } else {
                        assert(self.peer_task_queue.pending_spec(q2, i) == qstart.pending_spec(
                            q2,
                            i,
                        ));
                        assert(qstart.pending_spec(q2, i) == spec_notify_pending(
                            pre,
                            q2,
                            i,
                            pfx,
                        ));
                        assert(get_by(pfx2, crate::store::block_key(), i) == get_by(
                            pfx,
                            crate::store::block_key(),
                            i,
                        ));
                    }
                }
                assert(work == (exists|q2: PeerId, i: BlockId|
                    get_by(pfx2, crate::store::block_key(), i) is Some
                        && #[trigger] pre.peer_ledger.wants_spec(q2, i))) by {
                    assert(work == (wstart || np > 0));
                    if work {
                        if np > 0 {
                            assert(peers@.contains(peers@[0]));
                            assert(pre.peer_ledger.wants_spec(peers@[0], bb.id));
                            assert(get_by(pfx2, crate::store::block_key(), bb.id) is Some);
                        } else {
                            let (q2, i) = choose|q2: PeerId, i: BlockId|
                                get_by(pfx, crate::store::block_key(), i) is Some
                                    && #[trigger] pre.peer_ledger.wants_spec(q2, i);
                            assert(get_by(pfx2, crate::store::block_key(), i) == get_by(
                                pfx,
                                crate::store::block_key(),
                                i,
                            ));
                        }
                    } else {
                        if exists|q2: PeerId, i: BlockId|
                            get_by(pfx2, crate::store::block_key(), i) is Some
                                && #[trigger] pre.peer_ledger.wants_spec(q2, i) {
                            let (q2, i) = choose|q2: PeerId, i: BlockId|
                                get_by(pfx2, crate::store::block_key(), i) is Some
                                    && #[trigger] pre.peer_ledger.wants_spec(q2, i);
                            if i == bb.id {
                                assert(peers@.contains(q2));
                                assert(np > 0);
                            } else {
                                assert(get_by(pfx2, crate::store::block_key(), i) == get_by(
                                    pfx,
                                    crate::store::block_key(),
                                    i,
                                ));
                            }
                        }
                    }
                }
            }
            bi2 = bi2 + 1;
        }
        proof {
            assert(blocks@.subrange(0, nb as int) =~= blocks@);
            lemma_same_reflection(pre, *self);
        }
        work
    }

    /// Ingress: the transport has sent `message` to `peer`.
    ///
    /// Bytes of sent blocks are credited to the peer's score, and satisfied
    /// wants are trimmed: a sent block clears a `Fetch` want, a sent `Have`
    /// presence clears a `Probe` want, in both cases together with the
    /// reverse-index record.
    #[verifier::rlimit(100)]
    pub fn message_sent(&mut self, peer: &PeerId, message: &Message)
        requires
            old(self).wf(),
        ensures
            final(self).wf(),
            old(self).stopped ==> *final(self) == *old(self),
            !old(self).stopped ==> (forall|q: PeerId|
                final(self).connected(q) == (q == *peer || old(self).connected(q))),
            !old(self).stopped ==> (forall|q: PeerId|
                q != *peer ==> final(self).ledger_for(q) == old(self).ledger_for(q)),
            !old(self).stopped ==> (forall|q: PeerId, i: BlockId|
                q != *peer ==> final(self).peer_ledger.wants_spec(q, i) == old(
                    self,
                ).peer_ledger.wants_spec(q, i)),
            !old(self).stopped ==> final(self).peer_task_queue == old(self).peer_task_queue,
            !old(self).stopped ==> final(self).blockstore_manager
                == old(self).blockstore_manager,
            !old(self).stopped ==> same_config(*old(self), *final(self)),
            !old(self).stopped ==> (forall|i: BlockId|
                #[trigger] final(self).wantlist_entry(*peer, i) == spec_sent_wl(
                    *old(self),
                    *peer,
                    *message,
                    i,
                )),
            !old(self).stopped ==> final(self).score_ledger.sent_to(*peer) == byte_fold(
                old(self).score_ledger.sent_to(*peer),
                message.blocks@,
            ),
            !old(self).stopped ==> final(self).score_ledger.sent_to(*peer) >= old(
                self,
            ).score_ledger.sent_to(*peer),
            !old(self).stopped ==> (forall|q: PeerId|
                q != *peer ==> final(self).score_ledger.entry_for(q)
                    == old(self).score_ledger.entry_for(q)),
    {
        if self.stopped {
            return ;
        }
        let ghost pre = *old(self);
        let p = *peer;
        map_create(&mut self.ledger_map, peer);
        proof {
            assert forall|i: BlockId|
                #[trigger] map_entry(self.ledger_map@, p, i) == pre.wantlist_entry(p, i) by {
                if !has_key(pre.ledger_map@, ledger_key(), p) {
                    assert(pre.wantlist_entry(p, i) is None);
                }
            }
        }
        let nb = message.blocks.len();
        let ghost sent0 = self.score_ledger.sent_to(p);
        let mut k: usize = 0;
        while k < nb
            invariant
                nb == message.blocks@.len(),
                k <= nb,
                p == *peer,
                pre.wf(),
                sent0 == pre.score_ledger.sent_to(p),
                unique_keys(self.ledger_map@, ledger_key()),
                forall|kk: int|
                    0 <= kk < self.ledger_map@.len() ==> (#[trigger] self.ledger_map@[kk]).wf(),
                self.peer_ledger.wf(),
                self.score_ledger.wf(),
                self.peer_task_queue == pre.peer_task_queue,
                self.blockstore_manager == pre.blockstore_manager,
                same_config(pre, *self),
                has_key(self.ledger_map@, ledger_key(), p),
                forall|q: PeerId|
                    q != p ==> get_by(self.ledger_map@, ledger_key(), q) == get_by(
                        pre.ledger_map@,
                        ledger_key(),
                        q,
                    ),
                forall|q: PeerId|
                    has_key(self.ledger_map@, ledger_key(), q) == (q == p || has_key(
                        pre.ledger_map@,
                        ledger_key(),
                        q,
                    )),
                forall|q: PeerId, i: BlockId|
                    q != p ==> self.peer_ledger.wants_spec(q, i) == pre.peer_ledger.wants_spec(
                        q,
                        i,
                    ),
                forall|q: PeerId|
                    q != p ==> self.score_ledger.entry_for(q) == pre.score_ledger.entry_for(q),
                self.score_ledger.sent_to(p) == byte_fold(
                    sent0,
                    message.blocks@.subrange(0, k as int),
                ),
                self.score_ledger.sent_to(p) >= sent0,
                forall|i: BlockId|
                    #[trigger] map_entry(self.ledger_map@, p, i) == (match pre.wantlist_entry(
                        p,
                        i,
                    ) {
                        Some(e) => {
                            if crate::message::blocks_mention(
                                message.blocks@.subrange(0, k as int),
                                i,
                            ) && e.kind == WantKind::Fetch {
                                None
                            } else {
                                Some(e)
                            }
                        },
                        None => None,
                    }),
                forall|i: BlockId|
                    #[trigger] self.peer_ledger.wants_spec(p, i) == (map_entry(
                        self.ledger_map@,
                        p,
                        i,
                    ) is Some),
            decreases nb - k,
        {
            let ghost pfx = message.blocks@.subrange(0, k as int);
            let ghost pfx2 = message.blocks@.subrange(0, k + 1 as int);
            let ghost bb = message.blocks@[k as int];
            proof {
                assert(pfx2 =~= pfx.push(bb));
                assert forall|i: BlockId|
                    #[trigger] crate::message::blocks_mention(pfx2, i) == (
                    crate::message::blocks_mention(pfx, i) || i == bb.id) by {
                    if crate::message::blocks_mention(pfx2, i) {
                        let a = choose|a: int| 0 <= a < pfx2.len() && pfx2[a].id == i;
                        if a < pfx.len() {
                            assert(pfx[a].id == i);
                        }
                    }
                    if crate::message::blocks_mention(pfx, i) {
                        let a = choose|a: int| 0 <= a < pfx.len() && pfx[a].id == i;
                        assert(pfx2[a].id == i);
                    }
                    if i == bb.id {
                        assert(pfx2[pfx.len() as int].id == i);
                    }
                }
            }
            let b = &message.blocks[k];
            let ghost s0 = *self;
            self.score_ledger.add_to_sent_bytes(peer, b.data.len());
            proof {
                lemma_byte_fold_push(sent0, pfx, bb);
                assert(bb.data.len() == bb.data@.len());
            }
            let removed = map_remove_kind(&mut self.ledger_map, peer, &b.id, WantKind::Fetch);
            if removed.is_some() {
                self.peer_ledger.cancel(peer, &b.id);
            }
            proof {
                assert forall|i: BlockId|
                    #[trigger] map_entry(self.ledger_map@, p, i) == (match pre.wantlist_entry(
                        p,
                        i,
                    ) {
                        Some(e) => {
                            if crate::message::blocks_mention(pfx2, i) && e.kind
                                == WantKind::Fetch {
                                None
                            } else {
                                Some(e)
                            }
                        },
                        None => None,
                    }) by {
                    if i != bb.id {
                        assert(map_entry(self.ledger_map@, p, i) == map_entry(
                            s0.ledger_map@,
                            p,
                            i,
                        ));
                    }
                }
                assert forall|i: BlockId|
                    #[trigger] self.peer_ledger.wants_spec(p, i) == (map_entry(
                        self.ledger_map@,
                        p,
                        i,
                    ) is Some) by {
                    if i != bb.id {
                        assert(self.peer_ledger.wants_spec(p, i) == s0.peer_ledger.wants_spec(
                            p,
                            i,
                        ));
                        assert(map_entry(self.ledger_map@, p, i) == map_entry(
                            s0.ledger_map@,
                            p,
                            i,
                        ));
                    }
                }
                assert forall|q: PeerId, i: BlockId|
                    q != p implies self.peer_ledger.wants_spec(q, i)
                    == pre.peer_ledger.wants_spec(q, i) by {
                    assert(self.peer_ledger.wants_spec(q, i) == s0.peer_ledger.wants_spec(q, i));
                }
                assert forall|q: PeerId|
                    q != p implies get_by(self.ledger_map@, ledger_key(), q) == get_by(
                    pre.ledger_map@,
                    ledger_key(),
                    q,
                ) by {
                    assert(get_by(self.ledger_map@, ledger_key(), q) == get_by(
                        s0.ledger_map@,
                        ledger_key(),
                        q,
                    ));
                }
                assert forall|q: PeerId|
                    has_key(self.ledger_map@, ledger_key(), q) == (q == p || has_key(
                        pre.ledger_map@,
                        ledger_key(),
                        q,
                    )) by {
                    assert(has_key(self.ledger_map@, ledger_key(), q) == has_key(
                        s0.ledger_map@,
                        ledger_key(),
                        q,
                    ));
                }
                assert forall|q: PeerId|
                    q != p implies self.score_ledger.entry_for(q) == pre.score_ledger.entry_for(
                    q,
                ) by {
                    assert(self.score_ledger.entry_for(q) == s0.score_ledger.entry_for(q));
                }
            }
            k = k + 1;
        }
        proof {
            assert(message.blocks@.subrange(0, nb as int) =~= message.blocks@);
        }
        let ghost midm = *self;
        let np = message.block_presences.len();
        let mut k2: usize = 0;
        while k2 < np
            invariant
                np == message.block_presences@.len(),
                k2 <= np,
                p == *peer,
                pre.wf(),
                unique_keys(self.ledger_map@, ledger_key()),
                forall|kk: int|
                    0 <= kk < self.ledger_map@.len() ==> (#[trigger] self.ledger_map@[kk]).wf(),
                self.peer_ledger.wf(),
                self.score_ledger == midm.score_ledger,
                self.peer_task_queue == pre.peer_task_queue,
                self.blockstore_manager == pre.blockstore_manager,
                same_config(pre, *self),
                has_key(self.ledger_map@, ledger_key(), p),
                forall|q: PeerId|
                    q != p ==> get_by(self.ledger_map@, ledger_key(), q) == get_by(
                        pre.ledger_map@,
                        ledger_key(),
                        q,
                    ),
                forall|q: PeerId|
                    has_key(self.ledger_map@, ledger_key(), q) == (q == p || has_key(
                        pre.ledger_map@,
                        ledger_key(),
                        q,
                    )),
                forall|q: PeerId, i: BlockId|
                    q != p ==> self.peer_ledger.wants_spec(q, i) == pre.peer_ledger.wants_spec(
                        q,
                        i,
                    ),
                forall|i: BlockId|
                    #[trigger] map_entry(self.ledger_map@, p, i) == (match map_entry(
                        midm.ledger_map@,
                        p,
                        i,
                    ) {
                        Some(e) => {
                            if presences_mention_have(
                                message.block_presences@.subrange(0, k2 as int),
                                i,
                            ) && e.kind == WantKind::Probe {
                                None
                            } else {
                                Some(e)
                            }
                        },
                        None => None,
                    }),
                forall|i: BlockId|
                    #[trigger] self.peer_ledger.wants_spec(p, i) == (map_entry(
                        self.ledger_map@,
                        p,
                        i,
                    ) is Some),
            decreases np - k2,
        {
            let ghost pfx = message.block_presences@.subrange(0, k2 as int);
            let ghost pfx2 = message.block_presences@.subrange(0, k2 + 1 as int);
            let ghost bp = message.block_presences@[k2 as int];
            proof {
                assert(pfx2 =~= pfx.push(bp));
                assert forall|i: BlockId|
                    #[trigger] presences_mention_have(pfx2, i) == (presences_mention_have(
                        pfx,
                        i,
                    ) || (i == bp.id && bp.typ == crate::message::PresenceKind::Have)) by {
                    if presences_mention_have(pfx2, i) {
                        let a = choose|a: int|
                            0 <= a < pfx2.len() && pfx2[a].id == i && pfx2[a].typ
                                == crate::message::PresenceKind::Have;
                        if a < pfx.len() {
                            assert(pfx[a].id == i && pfx[a].typ
                                == crate::message::PresenceKind::Have);
                        }
                    }
                    if presences_mention_have(pfx, i) {
                        let a = choose|a: int|
                            0 <= a < pfx.len() && pfx[a].id == i && pfx[a].typ
                                == crate::message::PresenceKind::Have;
                        assert(pfx2[a].id == i && pfx2[a].typ
                            == crate::message::PresenceKind::Have);
                    }
                    if i == bp.id && bp.typ == crate::message::PresenceKind::Have {
                        assert(pfx2[pfx.len() as int].id == i);
                    }
                }
            }
            let bpx = &message.block_presences[k2];
            let ghost s0 = *self;
            if bpx.typ == crate::message::PresenceKind::Have {
                let removed = map_remove_kind(
                    &mut self.ledger_map,
                    peer,
                    &bpx.id,
                    WantKind::Probe,
                );
                if removed.is_some() {
                    self.peer_ledger.cancel(peer, &bpx.id);
                }
            }
            proof {
                assert forall|i: BlockId|
                    #[trigger] map_entry(self.ledger_map@, p, i) == (match map_entry(
                        midm.ledger_map@,
                        p,
                        i,
                    ) {
                        Some(e) => {
                            if presences_mention_have(pfx2, i) && e.kind == WantKind::Probe {
                                None
                            } else {
                                Some(e)
                            }
                        },
                        None => None,
                    }) by {
                    if i != bp.id {
                        assert(map_entry(self.ledger_map@, p, i) == map_entry(
                            s0.ledger_map@,
                            p,
                            i,
                        ));
                    }
                }
                assert forall|i: BlockId|
                    #[trigger] self.peer_ledger.wants_spec(p, i) == (map_entry(
                        self.ledger_map@,
                        p,
                        i,
                    ) is Some) by {
                    if i != bp.id {
                        assert(self.peer_ledger.wants_spec(p, i) == s0.peer_ledger.wants_spec(
                            p,
                            i,
                        ));
                        assert(map_entry(self.ledger_map@, p, i) == map_entry(
                            s0.ledger_map@,
                            p,
                            i,
                        ));
                    }
                }
                assert forall|q: PeerId, i: BlockId|
                    q != p implies self.peer_ledger.wants_spec(q, i)
                    == pre.peer_ledger.wants_spec(q, i) by {
                    assert(self.peer_ledger.wants_spec(q, i) == s0.peer_ledger.wants_spec(q, i));
                }
                assert forall|q: PeerId|
                    q != p implies get_by(self.ledger_map@, ledger_key(), q) == get_by(
                    pre.ledger_map@,
                    ledger_key(),
                    q,
                ) by {
                    assert(get_by(self.ledger_map@, ledger_key(), q) == get_by(
                        s0.ledger_map@,
                        ledger_key(),
                        q,
                    ));
                }
                assert forall|q: PeerId|
                    has_key(self.ledger_map@, ledger_key(), q) == (q == p || has_key(
                        pre.ledger_map@,
                        ledger_key(),
                        q,
                    )) by {
                    assert(has_key(self.ledger_map@, ledger_key(), q) == has_key(
                        s0.ledger_map@,
                        ledger_key(),
                        q,
                    ));
                }
            }
            k2 = k2 + 1;
        }
        proof {
            assert(message.block_presences@.subrange(0, np as int) =~= message.block_presences@);
            assert forall|i: BlockId|
                #[trigger] self.wantlist_entry(p, i) == spec_sent_wl(pre, p, *message, i) by {
                assert(self.wantlist_entry(p, i) == map_entry(self.ledger_map@, p, i));
            }
            assert forall|p2: PeerId, i: BlockId|
                self.peer_ledger.wants_spec(p2, i) <==> #[trigger] self.wantlist_entry(
                    p2,
                    i,
                ) is Some by {
                if p2 == p {
                    assert(self.wantlist_entry(p2, i) == map_entry(self.ledger_map@, p, i));
                } else {
                    assert(self.wantlist_entry(p2, i) == pre.wantlist_entry(p2, i));
                    assert(pre.peer_ledger.wants_spec(p2, i) <==> pre.wantlist_entry(
                        p2,
                        i,
                    ) is Some);
                }
            }
        }
    }

    /// One worker step: pop tasks for one fairly selected peer, consult the
    /// store, and assemble the outbound envelope.
    ///
    /// Pops whose tasks all turn out unanswerable (the blocks vanished and
    /// no negative answer is owed) are retired internally and the worker
    /// tries the next peer. Returns `None` when no peer has poppable work;
    /// the embedder then blocks on its work signal or ticker.
    #[verifier::rlimit(100)]
    pub fn next_envelope(&mut self) -> (r: Option<Envelope>)
        requires
            old(self).wf(),
        ensures
            final(self).wf(),
            final(self).ledger_map == old(self).ledger_map,
            final(self).peer_ledger == old(self).peer_ledger,
            final(self).score_ledger == old(self).score_ledger,
            final(self).blockstore_manager == old(self).blockstore_manager,
            same_config(*old(self), *final(self)),
            forall|q: PeerId|
                final(self).peer_task_queue.knows_peer(q)
                    == old(self).peer_task_queue.knows_peer(q),
            forall|q: PeerId, i: BlockId|
                #[trigger] final(self).peer_task_queue.pending_spec(q, i) is Some
                    ==> final(self).peer_task_queue.pending_spec(q, i)
                    == old(self).peer_task_queue.pending_spec(q, i),
            match r {
                None => old(self).stopped || (forall|k: int|
                    0 <= k < final(self).peer_task_queue.peers@.len()
                        ==> !crate::peer_task_queue::spec_eligible(
                        #[trigger] final(self).peer_task_queue.peers@[k],
                        old(self).peer_task_queue.max_outstanding,
                    )),
                Some(env) => {
                    &&& !old(self).stopped
                    &&& old(self).peer_task_queue.knows_peer(env.peer)
                    &&& !old(self).peer_task_queue.frozen_spec(env.peer)
                    &&& env.sent_tasks@.len() >= 1
                    &&& unique_keys(env.sent_tasks@, crate::peer_task_queue::task_key())
                    &&& forall|k: int|
                        0 <= k < env.sent_tasks@.len()
                            ==> old(self).peer_task_queue.pending_spec(
                            env.peer,
                            (#[trigger] env.sent_tasks@[k]).topic,
                        ) == Some(env.sent_tasks@[k])
                    &&& crate::peer_task_queue::sum_work(env.sent_tasks@)
                        <= crate::peer_task_queue::spec_max(
                        old(self).target_message_size as int,
                        crate::peer_task_queue::max_work(env.sent_tasks@),
                    )
                    &&& forall|i: BlockId|
                        #[trigger] crate::message::message_mentions(env.message, i) ==> has_key(
                            env.sent_tasks@,
                            crate::peer_task_queue::task_key(),
                            i,
                        )
                    &&& forall|k: int|
                        0 <= k < env.sent_tasks@.len() ==> spec_task_served(
                            old(self).blockstore_manager.store,
                            env.message,
                            #[trigger] env.sent_tasks@[k],
                        )
                    &&& unique_keys(env.message.blocks@, crate::store::block_key())
                    &&& env.message.blocks@.len() + env.message.block_presences@.len() > 0
                    &&& env.message.entries@.len() == 0
                    &&& env.message.full == false
                    &&& env.message.pending_bytes == crate::peer_task_queue::sat_usize(
                        final(self).peer_task_queue.queued_work_spec(env.peer),
                    ) as u64
                    &&& forall|i: BlockId|
                        has_key(env.sent_tasks@, crate::peer_task_queue::task_key(), i)
                            ==> final(self).peer_task_queue.pending_spec(env.peer, i) is None
                    &&& forall|a: int|
                        0 <= a < env.message.blocks@.len() ==> spec_block_justified(
                            old(self).blockstore_manager.store,
                            env.sent_tasks@,
                            #[trigger] env.message.blocks@[a],
                        )
                    &&& forall|a: int|
                        0 <= a < env.message.block_presences@.len() ==> spec_presence_justified(
                            old(self).blockstore_manager.store,
                            env.sent_tasks@,
                            #[trigger] env.message.block_presences@[a],
                        )
                    &&& unique_keys(
                        env.message.block_presences@,
                        crate::message::presence_key(),
                    )
                    &&& (exists|o0: usize|
                        o0 <= old(self).peer_task_queue.outstanding_spec(env.peer)
                            && (old(self).peer_task_queue.max_outstanding != 0
                            ==> o0 < old(self).peer_task_queue.max_outstanding)
                            && final(self).peer_task_queue.outstanding_spec(env.peer)
                            == #[trigger] crate::peer_task_queue::sat_usize(
                            o0 + crate::peer_task_queue::sum_work(env.sent_tasks@),
                        ))
                    &&& forall|q: PeerId|
                        q != env.peer ==> final(self).peer_task_queue.outstanding_spec(q)
                            <= old(self).peer_task_queue.outstanding_spec(q)
                },
            },
            forall|q: PeerId|
                final(self).peer_task_queue.frozen_spec(q)
                    == old(self).peer_task_queue.frozen_spec(q),
            forall|q: PeerId|
                final(self).peer_task_queue.outstanding_spec(q)
                    <= old(self).peer_task_queue.outstanding_spec(q) || (r is Some && q
                    == r->Some_0.peer),
    {
        if self.stopped {
            return None;
        }
        let ghost pre = *old(self);
        loop
            invariant
                pre == *old(self),
                !pre.stopped,
                self.stopped == false,
                pre.wf(),
                unique_keys(self.ledger_map@, ledger_key()),
                self.peer_task_queue.wf(),
                self.blockstore_manager.wf(),
                self.ledger_map == pre.ledger_map,
                self.peer_ledger == pre.peer_ledger,
                self.score_ledger == pre.score_ledger,
                self.blockstore_manager == pre.blockstore_manager,
                same_config(pre, *self),
                self.peer_task_queue.max_outstanding == pre.peer_task_queue.max_outstanding,
                forall|q: PeerId|
                    self.peer_task_queue.knows_peer(q) == pre.peer_task_queue.knows_peer(q),
                forall|q: PeerId, i: BlockId|
                    #[trigger] self.peer_task_queue.pending_spec(q, i) is Some
                        ==> self.peer_task_queue.pending_spec(q, i)
                        == pre.peer_task_queue.pending_spec(q, i),
                forall|q: PeerId|
                    self.peer_task_queue.frozen_spec(q) == pre.peer_task_queue.frozen_spec(q),
                forall|q: PeerId|
                    self.peer_task_queue.outstanding_spec(q)
                        <= pre.peer_task_queue.outstanding_spec(q),
            decreases crate::peer_task_queue::count_pending(self.peer_task_queue.peers@),
        {
            proof {
                crate::peer_task_queue::lemma_count_pending_nonneg(self.peer_task_queue.peers@);
            }
            let ghost qpre = self.peer_task_queue;
            let popped = self.peer_task_queue.pop_tasks(self.target_message_size);
            let pr = match popped {
                Some(pr) => pr,
                None => {
                    proof {
                        lemma_same_reflection(pre, *self);
                        assert forall|q: PeerId, i: BlockId|
                            #[trigger] self.peer_task_queue.pending_spec(q, i) is Some implies
                            self.peer_task_queue.pending_spec(q, i)
                                == pre.peer_task_queue.pending_spec(q, i) by {
                            assert(self.peer_task_queue.pending_spec(q, i) == qpre.pending_spec(
                                q,
                                i,
                            ));
                        }
                        assert forall|q: PeerId|
                            self.peer_task_queue.knows_peer(q)
                                == pre.peer_task_queue.knows_peer(q) by {
                            assert(self.peer_task_queue.knows_peer(q) == qpre.knows_peer(q));
                        }
                        assert forall|q: PeerId|
                            self.peer_task_queue.frozen_spec(q)
                                == pre.peer_task_queue.frozen_spec(q) by {
                            assert(self.peer_task_queue.frozen_spec(q) == qpre.frozen_spec(q));
                        }
                        assert forall|q: PeerId|
                            self.peer_task_queue.outstanding_spec(q)
                                <= pre.peer_task_queue.outstanding_spec(q) by {
                            assert(self.peer_task_queue.outstanding_spec(q)
                                == qpre.outstanding_spec(q));
                        }
                    }
                    return None;
                },
            };
            let ghost oq = get_by(qpre.peers@, crate::peer_task_queue::pq_key(), pr.peer)->Some_0;
            let ghost o0 = oq.outstanding;
            proof {
                let c = pr.tasks@.len() as int;
                lemma_get_by_suffix(oq.tasks@, crate::peer_task_queue::task_key(), c);
                assert(unique_keys(pr.tasks@, crate::peer_task_queue::task_key())) by {
                    assert(pr.tasks@ == oq.tasks@.subrange(0, c));
                }
                assert forall|k: int|
                    0 <= k < pr.tasks@.len() implies qpre.pending_spec(
                    pr.peer,
                    (#[trigger] pr.tasks@[k]).topic,
                ) == Some(pr.tasks@[k]) by {
                    assert(pr.tasks@[k] == oq.tasks@[k]);
                    lemma_get_by_index(oq.tasks@, crate::peer_task_queue::task_key(), k);
                }
                assert forall|k: int|
                    0 <= k < pr.tasks@.len() implies pre.peer_task_queue.pending_spec(
                    pr.peer,
                    (#[trigger] pr.tasks@[k]).topic,
                ) == Some(pr.tasks@[k]) by {
                    assert(qpre.pending_spec(pr.peer, pr.tasks@[k].topic) == Some(pr.tasks@[k]));
                }
                assert forall|q: PeerId, i: BlockId|
                    #[trigger] self.peer_task_queue.pending_spec(q, i) is Some implies
                    self.peer_task_queue.pending_spec(q, i) == pre.peer_task_queue.pending_spec(
                    q,
                    i,
                ) by {
                    if q == pr.peer {
                        if has_key(pr.tasks@, crate::peer_task_queue::task_key(), i) {
                        } else {
                            assert(self.peer_task_queue.pending_spec(q, i) == qpre.pending_spec(
                                q,
                                i,
                            ));
                        }
                    } else {
                        assert(self.peer_task_queue.queue_for(q) == qpre.queue_for(q));
                    }
                }
                assert forall|q: PeerId|
                    self.peer_task_queue.knows_peer(q) == pre.peer_task_queue.knows_peer(
                        q,
                    ) by {
                    if q != pr.peer {
                        assert(self.peer_task_queue.queue_for(q) == qpre.queue_for(q));
                        assert(self.peer_task_queue.knows_peer(q) == qpre.knows_peer(q));
                    }
                }
                assert(o0 == qpre.outstanding_spec(pr.peer));
                assert(qpre.frozen_spec(pr.peer) == oq.frozen);
                assert(!pre.peer_task_queue.frozen_spec(pr.peer));
                assert forall|q: PeerId|
                    self.peer_task_queue.frozen_spec(q) == pre.peer_task_queue.frozen_spec(
                        q,
                    ) by {
                    if q != pr.peer {
                        assert(self.peer_task_queue.queue_for(q) == qpre.queue_for(q));
                        assert(self.peer_task_queue.frozen_spec(q) == qpre.frozen_spec(q));
                    }
                }
                assert forall|q: PeerId|
                    q != pr.peer implies self.peer_task_queue.outstanding_spec(q)
                    <= pre.peer_task_queue.outstanding_spec(q) by {
                    assert(self.peer_task_queue.queue_for(q) == qpre.queue_for(q));
                    assert(self.peer_task_queue.outstanding_spec(q) == qpre.outstanding_spec(q));
                }
                assert(self.peer_task_queue.outstanding_spec(pr.peer)
                    == crate::peer_task_queue::sat_usize(
                    o0 + crate::peer_task_queue::sum_work(pr.tasks@),
                ));
            }
            let mut msg = Message::new(false);
            msg.set_pending_bytes(pr.pending_bytes as u64);
            let nt = pr.tasks.len();
            let mut k: usize = 0;
            while k < nt
                invariant
                    nt == pr.tasks@.len(),
                    k <= nt,
                    self.blockstore_manager.wf(),
                    self.blockstore_manager == pre.blockstore_manager,
                    msg.full == false,
                    msg.entries@.len() == 0,
                    msg.pending_bytes == pr.pending_bytes as u64,
                    unique_keys(pr.tasks@, crate::peer_task_queue::task_key()),
                    unique_keys(msg.blocks@, crate::store::block_key()),
                    unique_keys(msg.block_presences@, crate::message::presence_key()),
                    forall|k2: int|
                        0 <= k2 < k ==> spec_task_served(
                            pre.blockstore_manager.store,
                            msg,
                            #[trigger] pr.tasks@[k2],
                        ),
                    forall|i: BlockId|
                        #[trigger] crate::message::message_mentions(msg, i) ==> (exists|k2: int|
                            0 <= k2 < k && (#[trigger] pr.tasks@[k2]).topic == i),
                    forall|a: int|
                        0 <= a < msg.blocks@.len() ==> spec_block_justified(
                            pre.blockstore_manager.store,
                            pr.tasks@,
                            #[trigger] msg.blocks@[a],
                        ),
                    forall|a: int|
                        0 <= a < msg.block_presences@.len() ==> spec_presence_justified(
                            pre.blockstore_manager.store,
                            pr.tasks@,
                            #[trigger] msg.block_presences@[a],
                        ),
                decreases nt - k,
            {
                let t = pr.tasks[k];
                let ghost msg0 = msg;
                if t.data.have_block {
                    if t.data.is_want_block {
                        match self.blockstore_manager.get(&t.topic) {
                            Some(b) => {
                                proof {
                                    assert(!has_key(
                                        msg.blocks@,
                                        crate::store::block_key(),
                                        b.id,
                                    )) by {
                                        if has_key(msg.blocks@, crate::store::block_key(), b.id) {
                                            let a = key_at(
                                                msg.blocks@,
                                                crate::store::block_key(),
                                                b.id,
                                            );
                                            assert(crate::message::blocks_mention(
                                                msg.blocks@,
                                                b.id,
                                            ));
                                            assert(crate::message::message_mentions(msg, b.id));
                                            let k2 = choose|k2: int|
                                                0 <= k2 < k && (#[trigger] pr.tasks@[k2]).topic
                                                    == b.id;
                                            assert(crate::peer_task_queue::task_key()(
                                                pr.tasks@[k2],
                                            ) == crate::peer_task_queue::task_key()(
                                                pr.tasks@[k as int],
                                            ));
                                        }
                                    }
                                    lemma_get_by_push(
                                        msg.blocks@,
                                        crate::store::block_key(),
                                        b,
                                    );
                                }
                                msg.add_block(b);
                            },
                            None => {
                                if t.data.send_dont_have {
                                    proof {
                                        lemma_presence_fresh(msg, pr.tasks@, k as int);
                                    }
                                    msg.add_dont_have(t.topic);
                                }
                            },
                        }
                    } else {
                        proof {
                            lemma_presence_fresh(msg, pr.tasks@, k as int);
                        }
                        msg.add_have(t.topic);
                    }
                } else {
                    if t.data.send_dont_have {
                        proof {
                            lemma_presence_fresh(msg, pr.tasks@, k as int);
                        }
                        msg.add_dont_have(t.topic);
                    }
                }
                proof {
                    assert(msg.blocks@.len() >= msg0.blocks@.len());
                    assert forall|k2: int|
                        0 <= k2 < k + 1 implies spec_task_served(
                        pre.blockstore_manager.store,
                        msg,
                        #[trigger] pr.tasks@[k2],
                    ) by {
                        if k2 < k {
                            assert(spec_task_served(
                                pre.blockstore_manager.store,
                                msg0,
                                pr.tasks@[k2],
                            ));
                            let t2 = pr.tasks@[k2];
                            if t2.data.have_block && t2.data.is_want_block {
                                match pre.blockstore_manager.store.spec_get(t2.topic) {
                                    Some(b2) => {
                                        let a = choose|a: int|
                                            0 <= a < msg0.blocks@.len() && msg0.blocks@[a].id
                                                == t2.topic && msg0.blocks@[a].data@ == b2.data@;
                                        assert(msg.blocks@[a] == msg0.blocks@[a]);
                                    },
                                    None => {
                                        if t2.data.send_dont_have {
                                            let a = choose|a: int|
                                                0 <= a < msg0.block_presences@.len()
                                                    && msg0.block_presences@[a].id == t2.topic
                                                    && msg0.block_presences@[a].typ
                                                    == crate::message::PresenceKind::DontHave;
                                            assert(msg.block_presences@[a]
                                                == msg0.block_presences@[a]);
                                        }
                                    },
                                }
                            } else if t2.data.have_block {
                                let a = choose|a: int|
                                    0 <= a < msg0.block_presences@.len()
                                        && msg0.block_presences@[a].id == t2.topic
                                        && msg0.block_presences@[a].typ
                                        == crate::message::PresenceKind::Have;
                                assert(msg.block_presences@[a] == msg0.block_presences@[a]);
                            } else {
                                if t2.data.send_dont_have {
                                    let a = choose|a: int|
                                        0 <= a < msg0.block_presences@.len()
                                            && msg0.block_presences@[a].id == t2.topic
                                            && msg0.block_presences@[a].typ
                                            == crate::message::PresenceKind::DontHave;
                                    assert(msg.block_presences@[a] == msg0.block_presences@[a]);
                                }
                            }
                        } else {
                            if t.data.have_block && t.data.is_want_block {
                                match pre.blockstore_manager.store.spec_get(t.topic) {
                                    Some(b2) => {
                                        assert(msg.blocks@[msg.blocks@.len() - 1].id == t.topic);
                                    },
                                    None => {
                                        if t.data.send_dont_have {
                                            assert(msg.block_presences@[msg.block_presences@.len()
                                                - 1].id == t.topic);
                                        }
                                    },
                                }
                            } else if t.data.have_block {
                                assert(msg.block_presences@[msg.block_presences@.len() - 1].id
                                    == t.topic);
                            } else {
                                if t.data.send_dont_have {
                                    assert(msg.block_presences@[msg.block_presences@.len()
                                        - 1].id == t.topic);
                                }
                            }
                        }
                    }
                    assert forall|a: int|
                        0 <= a < msg.blocks@.len() implies spec_block_justified(
                        pre.blockstore_manager.store,
                        pr.tasks@,
                        #[trigger] msg.blocks@[a],
                    ) by {
                        if a < msg0.blocks@.len() {
                            assert(msg.blocks@[a] == msg0.blocks@[a]);
                        } else {
                            assert(msg.blocks@[a].id == pr.tasks@[k as int].topic);
                        }
                    }
                    assert forall|a: int|
                        0 <= a < msg.block_presences@.len() implies spec_presence_justified(
                        pre.blockstore_manager.store,
                        pr.tasks@,
                        #[trigger] msg.block_presences@[a],
                    ) by {
                        if a < msg0.block_presences@.len() {
                            assert(msg.block_presences@[a] == msg0.block_presences@[a]);
                        } else {
                            assert(msg.block_presences@[a].id == pr.tasks@[k as int].topic);
                        }
                    }
                    assert(unique_keys(
                        msg.block_presences@,
                        crate::message::presence_key(),
                    )) by {
                        if msg.block_presences@.len() > msg0.block_presences@.len() {
                        } else {
                            assert(msg.block_presences@ == msg0.block_presences@);
                        }
                    }
                    assert forall|i: BlockId|
                        #[trigger] crate::message::message_mentions(msg, i) implies (exists|
                            k2: int,
                        |
                            0 <= k2 < k + 1 && (#[trigger] pr.tasks@[k2]).topic == i) by {
                        if crate::message::blocks_mention(msg.blocks@, i) {
                            let a = choose|a: int|
                                0 <= a < msg.blocks@.len() && msg.blocks@[a].id == i;
                            if a < msg0.blocks@.len() {
                                assert(msg0.blocks@[a].id == i);
                                assert(crate::message::message_mentions(msg0, i));
                                let k2 = choose|k2: int|
                                    0 <= k2 < k && (#[trigger] pr.tasks@[k2]).topic == i;
                                assert(pr.tasks@[k2].topic == i);
                            } else {
                                assert(pr.tasks@[k as int].topic == i);
                            }
                        } else if crate::message::presences_mention(msg.block_presences@, i) {
                            let a = choose|a: int|
                                0 <= a < msg.block_presences@.len() && msg.block_presences@[a].id
                                    == i;
                            if a < msg0.block_presences@.len() {
                                assert(msg0.block_presences@[a].id == i);
                                assert(crate::message::message_mentions(msg0, i));
                                let k2 = choose|k2: int|
                                    0 <= k2 < k && (#[trigger] pr.tasks@[k2]).topic == i;
                                assert(pr.tasks@[k2].topic == i);
                            } else {
                                assert(pr.tasks@[k as int].topic == i);
                            }
                        }
                    }
                }
                k = k + 1;
            }
            let give_up = msg.blocks.is_empty() && msg.block_presences.is_empty();
            if give_up {
                let ghost qpop = self.peer_task_queue;
                self.peer_task_queue.tasks_done(pr.peer, &pr.tasks);
                proof {
                    crate::peer_task_queue::lemma_count_pending_nonneg(
                        self.peer_task_queue.peers@,
                    );
                    assert(crate::peer_task_queue::count_pending(self.peer_task_queue.peers@)
                        == crate::peer_task_queue::count_pending(qpop.peers@));
                    assert(crate::peer_task_queue::count_pending(qpop.peers@)
                        < crate::peer_task_queue::count_pending(qpre.peers@));
                    assert forall|q: PeerId, i: BlockId|
                        #[trigger] self.peer_task_queue.pending_spec(q, i) is Some implies
                        self.peer_task_queue.pending_spec(q, i)
                            == pre.peer_task_queue.pending_spec(q, i) by {
                        assert(self.peer_task_queue.pending_spec(q, i) == qpop.pending_spec(
                            q,
                            i,
                        ));
                    }
                    assert forall|q: PeerId|
                        self.peer_task_queue.knows_peer(q) == pre.peer_task_queue.knows_peer(
                            q,
                        ) by {
                        assert(self.peer_task_queue.knows_peer(q) == qpop.knows_peer(q));
                    }
                    assert forall|q: PeerId|
                        self.peer_task_queue.frozen_spec(q)
                            == pre.peer_task_queue.frozen_spec(q) by {
                        assert(self.peer_task_queue.frozen_spec(q) == qpop.frozen_spec(q));
                    }
                    crate::peer_task_queue::lemma_sum_work_nonneg(pr.tasks@);
                    assert forall|q: PeerId|
                        self.peer_task_queue.outstanding_spec(q)
                            <= pre.peer_task_queue.outstanding_spec(q) by {
                        if q == pr.peer {
                            let w = crate::peer_task_queue::sum_work(pr.tasks@);
                            assert(qpop.outstanding_spec(q)
                                == crate::peer_task_queue::sat_usize(o0 + w));
                            assert(self.peer_task_queue.outstanding_spec(q)
                                == crate::peer_task_queue::sat_usize(
                                qpop.outstanding_spec(q)
                                    - crate::peer_task_queue::sat_usize(w),
                            ));
                            assert(self.peer_task_queue.outstanding_spec(q) <= o0);
                            assert(o0 <= pre.peer_task_queue.outstanding_spec(q));
                        } else {
                            assert(self.peer_task_queue.outstanding_spec(q)
                                == qpop.outstanding_spec(q));
                            assert(qpop.outstanding_spec(q) == qpre.outstanding_spec(q));
                        }
                    }
                }
            } else {
                proof {
                    lemma_same_reflection(pre, *self);
                    assert forall|i: BlockId|
                        #[trigger] crate::message::message_mentions(msg, i) implies has_key(
                        pr.tasks@,
                        crate::peer_task_queue::task_key(),
                        i,
                    ) by {
                        let k2 = choose|k2: int|
                            0 <= k2 < nt && (#[trigger] pr.tasks@[k2]).topic == i;
                        assert(crate::peer_task_queue::task_key()(pr.tasks@[k2]) == i);
                    }
                    assert(pr.tasks@.subrange(0, nt as int) =~= pr.tasks@);
                    assert(o0 <= pre.peer_task_queue.outstanding_spec(pr.peer)
                        && (pre.peer_task_queue.max_outstanding != 0 ==> o0
                        < pre.peer_task_queue.max_outstanding)
                        && self.peer_task_queue.outstanding_spec(pr.peer)
                        == crate::peer_task_queue::sat_usize(
                        o0 + crate::peer_task_queue::sum_work(pr.tasks@),
                    ));
                }
                return Some(Envelope { peer: pr.peer, message: msg, sent_tasks: pr.tasks });
            }
        }
    }

    /// Shut the engine down: every later ingress operation is a no-op.
    /// Idempotent.
    pub fn stop(&mut self)
        ensures
            *final(self) == (Engine { stopped: true, ..*old(self) }),
            old(self).wf() ==> final(self).wf(),
    {
        self.stopped = true;
        proof {
            if old(self).wf() {
                lemma_same_reflection(*old(self), *self);
            }
        }
    }
}

/// The running byte total after crediting each block's length, with
/// saturating additions.
pub open spec fn byte_fold(start: u64, s: Seq<Block>) -> u64
    decreases s.len(),
{
    if s.len() == 0 {
        start
    } else {
        byte_fold(
            crate::score_ledger::add_sat(start, s[0].data@.len() as u64),
            s.drop_first(),
        )
    }
}

pub proof fn lemma_byte_fold_push(start: u64, s: Seq<Block>, x: Block)
    ensures
        byte_fold(start, s.push(x)) == crate::score_ledger::add_sat(
            byte_fold(start, s),
            x.data@.len() as u64,
        ),
    decreases s.len(),
{
    if s.len() == 0 {
        assert(s.push(x)[0] == x);
        assert(s =~= Seq::<Block>::empty());
        assert(s.push(x).drop_first() =~= s);
        let acc = crate::score_ledger::add_sat(start, x.data@.len() as u64);
        assert(byte_fold(acc, s) == acc);
        assert(byte_fold(start, s) == start);
    } else {
        assert(s.push(x)[0] == s[0]);
        assert(s.push(x).drop_first() =~= s.drop_first().push(x));
        lemma_byte_fold_push(
            crate::score_ledger::add_sat(start, s[0].data@.len() as u64),
            s.drop_first(),
            x,
        );
    }
}

/// Reflection carries over to a state with the same ledgers and reverse
/// index.
pub proof fn lemma_same_reflection<F: PeerBlockRequestFilter>(a: Engine<F>, b: Engine<F>)
    requires
        forall|p: PeerId, i: BlockId|
            a.peer_ledger.wants_spec(p, i) <==> #[trigger] a.wantlist_entry(p, i) is Some,
        b.ledger_map@ == a.ledger_map@,
        b.peer_ledger == a.peer_ledger,
    ensures
        forall|p: PeerId, i: BlockId|
            b.peer_ledger.wants_spec(p, i) <==> #[trigger] b.wantlist_entry(p, i) is Some,
{
    assert forall|p: PeerId, i: BlockId|
        b.peer_ledger.wants_spec(p, i) <==> #[trigger] b.wantlist_entry(p, i) is Some by {
        assert(b.wantlist_entry(p, i) == a.wantlist_entry(p, i));
        assert(a.peer_ledger.wants_spec(p, i) <==> a.wantlist_entry(p, i) is Some);
    }
}

/// Ensure the ledger map has a ledger for `peer`, creating an empty one if
/// needed.
fn map_create(m: &mut Vec<Ledger>, peer: &PeerId)
    requires
        unique_keys(old(m)@, ledger_key()),
        forall|k: int| 0 <= k < old(m)@.len() ==> (#[trigger] old(m)@[k]).wf(),
    ensures
        unique_keys(final(m)@, ledger_key()),
        forall|k: int| 0 <= k < final(m)@.len() ==> (#[trigger] final(m)@[k]).wf(),
        has_key(final(m)@, ledger_key(), *peer),
        has_key(old(m)@, ledger_key(), *peer) ==> final(m)@ == old(m)@,
        !has_key(old(m)@, ledger_key(), *peer) ==> {
            let l = get_by(final(m)@, ledger_key(), *peer)->Some_0;
            &&& l.partner == *peer
            &&& forall|i: BlockId| l.spec_get(i) is None
        },
        forall|q: PeerId|
            q != *peer ==> get_by(final(m)@, ledger_key(), q) == get_by(
                old(m)@,
                ledger_key(),
                q,
            ),
        forall|q: PeerId|
            has_key(final(m)@, ledger_key(), q) == (q == *peer || has_key(
                old(m)@,
                ledger_key(),
                q,
            )),
{
    match map_index_of(m, peer) {
        Some(_) => {},
        None => {
            let l = Ledger::new(*peer);
            proof {
                lemma_get_by_push(m@, ledger_key(), l);
            }
            m.push(l);
            proof {
                assert forall|k: int|
                    0 <= k < m@.len() implies (#[trigger] m@[k]).wf() by {
                    if k == m@.len() - 1 {
                        assert(m@[k] == l);
                    } else {
                        assert(m@[k] == old(m)@[k]);
                    }
                }
            }
        },
    }
}

/// Index of the ledger for `p` in a ledger map.
fn map_index_of(m: &Vec<Ledger>, p: &PeerId) -> (r: Option<usize>)
    requires
        unique_keys(m@, ledger_key()),
    ensures
        match r {
            Some(i) => i < m@.len() && m@[i as int].partner == *p && get_by(
                m@,
                ledger_key(),
                *p,
            ) == Some(m@[i as int]),
            None => get_by(m@, ledger_key(), *p) is None,
        },
{
    let n = m.len();
    for i in 0..n
        invariant
            n == m@.len(),
            unique_keys(m@, ledger_key()),
            forall|k: int| 0 <= k < i ==> m@[k].partner != *p,
    {
        if m[i].partner == *p {
            proof {
                lemma_get_by_index(m@, ledger_key(), i as int);
            }
            return Some(i);
        }
    }
    proof {
        assert(!has_key(m@, ledger_key(), *p));
    }
    None
}

/// Read the wantlist entry for `(peer, id)` from a ledger map.
fn map_get(m: &Vec<Ledger>, peer: &PeerId, id: &BlockId) -> (r: Option<WantEntry>)
    requires
        unique_keys(m@, ledger_key()),
        forall|k: int| 0 <= k < m@.len() ==> (#[trigger] m@[k]).wf(),
    ensures
        r == map_entry(m@, *peer, *id),
{
    match map_index_of(m, peer) {
        Some(idx) => {
            match m[idx].get(id) {
                Some(e) => Some(*e),
                None => None,
            }
        },
        None => None,
    }
}

/// The wantlist entry stored for `(p, i)` in a raw ledger map.
pub open spec fn map_entry(m: Seq<Ledger>, p: PeerId, i: BlockId) -> Option<WantEntry> {
    match get_by(m, ledger_key(), p) {
        Some(l) => l.spec_get(i),
        None => None,
    }
}

/// Record a want in `peer`'s ledger.
fn map_wants(
    m: &mut Vec<Ledger>,
    peer: &PeerId,
    id: BlockId,
    priority: i32,
    kind: WantKind,
    send_dont_have: bool,
)
    requires
        unique_keys(old(m)@, ledger_key()),
        forall|k: int| 0 <= k < old(m)@.len() ==> (#[trigger] old(m)@[k]).wf(),
        has_key(old(m)@, ledger_key(), *peer),
    ensures
        unique_keys(final(m)@, ledger_key()),
        forall|k: int| 0 <= k < final(m)@.len() ==> (#[trigger] final(m)@[k]).wf(),
        forall|q: PeerId|
            q != *peer ==> get_by(final(m)@, ledger_key(), q) == get_by(
                old(m)@,
                ledger_key(),
                q,
            ),
        forall|q: PeerId|
            has_key(final(m)@, ledger_key(), q) == has_key(old(m)@, ledger_key(), q),
        map_entry(final(m)@, *peer, id) == (Some(
            WantEntry { id, priority, kind, send_dont_have },
        )),
        forall|i: BlockId|
            i != id ==> map_entry(final(m)@, *peer, i) == map_entry(old(m)@, *peer, i),
{
    let idx = match map_index_of(m, peer) {
        Some(i) => i,
        None => {
            return ;  // unreachable: the caller guarantees the ledger exists
        },
    };
    proof {
        lemma_get_by_remove(m@, ledger_key(), idx as int);
    }
    let mut l = m.remove(idx);
    l.wants(id, priority, kind, send_dont_have);
    proof {
        lemma_get_by_push(m@, ledger_key(), l);
    }
    m.push(l);
    proof {
        assert forall|k: int| 0 <= k < m@.len() implies (#[trigger] m@[k]).wf() by {
            if k == m@.len() - 1 {
            } else {
                assert(m@[k] == old(m)@.remove(idx as int)[k]);
            }
        }
    }
}

/// Withdraw the want for `(peer, id)`; returns the entry that was stored.
fn map_cancel(m: &mut Vec<Ledger>, peer: &PeerId, id: &BlockId) -> (r: Option<WantEntry>)
    requires
        unique_keys(old(m)@, ledger_key()),
        forall|k: int| 0 <= k < old(m)@.len() ==> (#[trigger] old(m)@[k]).wf(),
    ensures
        unique_keys(final(m)@, ledger_key()),
        forall|k: int| 0 <= k < final(m)@.len() ==> (#[trigger] final(m)@[k]).wf(),
        forall|q: PeerId|
            q != *peer ==> get_by(final(m)@, ledger_key(), q) == get_by(
                old(m)@,
                ledger_key(),
                q,
            ),
        forall|q: PeerId|
            has_key(final(m)@, ledger_key(), q) == has_key(old(m)@, ledger_key(), q),
        r == map_entry(old(m)@, *peer, *id),
        map_entry(final(m)@, *peer, *id) is None,
        forall|i: BlockId|
            i != *id ==> map_entry(final(m)@, *peer, i) == map_entry(old(m)@, *peer, i),
{
    let idx = match map_index_of(m, peer) {
        Some(i) => i,
        None => {
            return None;
        },
    };
    proof {
        lemma_get_by_remove(m@, ledger_key(), idx as int);
    }
    let mut l = m.remove(idx);
    let r = l.cancel(id);
    proof {
        lemma_get_by_push(m@, ledger_key(), l);
    }
    m.push(l);
    proof {
        assert forall|k: int| 0 <= k < m@.len() implies (#[trigger] m@[k]).wf() by {
            if k == m@.len() - 1 {
            } else {
                assert(m@[k] == old(m)@.remove(idx as int)[k]);
            }
        }
    }
    r
}

/// Drop the entry for `(peer, id)` only if its kind matches.
fn map_remove_kind(m: &mut Vec<Ledger>, peer: &PeerId, id: &BlockId, kind: WantKind) -> (r:
    Option<WantEntry>)
    requires
        unique_keys(old(m)@, ledger_key()),
        forall|k: int| 0 <= k < old(m)@.len() ==> (#[trigger] old(m)@[k]).wf(),
    ensures
        unique_keys(final(m)@, ledger_key()),
        forall|k: int| 0 <= k < final(m)@.len() ==> (#[trigger] final(m)@[k]).wf(),
        forall|q: PeerId|
            q != *peer ==> get_by(final(m)@, ledger_key(), q) == get_by(
                old(m)@,
                ledger_key(),
                q,
            ),
        forall|q: PeerId|
            has_key(final(m)@, ledger_key(), q) == has_key(old(m)@, ledger_key(), q),
        match map_entry(old(m)@, *peer, *id) {
            Some(e) if e.kind == kind => r == Some(e) && map_entry(final(m)@, *peer, *id)
                is None,
            _ => r is None && map_entry(final(m)@, *peer, *id) == map_entry(
                old(m)@,
                *peer,
                *id,
            ),
        },
        forall|i: BlockId|
            i != *id ==> map_entry(final(m)@, *peer, i) == map_entry(old(m)@, *peer, i),
{
    let idx = match map_index_of(m, peer) {
        Some(i) => i,
        None => {
            return None;
        },
    };
    proof {
        lemma_get_by_remove(m@, ledger_key(), idx as int);
    }
    let mut l = m.remove(idx);
    let r = l.remove_kind(id, kind);
    proof {
        lemma_get_by_push(m@, ledger_key(), l);
    }
    m.push(l);
    proof {
        assert forall|k: int| 0 <= k < m@.len() implies (#[trigger] m@[k]).wf() by {
            if k == m@.len() - 1 {
            } else {
                assert(m@[k] == old(m)@.remove(idx as int)[k]);
            }
        }
    }
    r
}

/// Empty `peer`'s wantlist, keeping the ledger itself.
fn map_clear(m: &mut Vec<Ledger>, peer: &PeerId)
    requires
        unique_keys(old(m)@, ledger_key()),
        forall|k: int| 0 <= k < old(m)@.len() ==> (#[trigger] old(m)@[k]).wf(),
    ensures
        unique_keys(final(m)@, ledger_key()),
        forall|k: int| 0 <= k < final(m)@.len() ==> (#[trigger] final(m)@[k]).wf(),
        forall|q: PeerId|
            q != *peer ==> get_by(final(m)@, ledger_key(), q) == get_by(
                old(m)@,
                ledger_key(),
                q,
            ),
        forall|q: PeerId|
            has_key(final(m)@, ledger_key(), q) == has_key(old(m)@, ledger_key(), q),
        forall|i: BlockId| map_entry(final(m)@, *peer, i) is None,
    {
    let idx = match map_index_of(m, peer) {
        Some(i) => i,
        None => {
            return ;
        },
    };
    proof {
        lemma_get_by_remove(m@, ledger_key(), idx as int);
    }
    let mut l = m.remove(idx);
    l.clear_wantlist();
    proof {
        lemma_get_by_push(m@, ledger_key(), l);
    }
    m.push(l);
    proof {
        assert forall|k: int| 0 <= k < m@.len() implies (#[trigger] m@[k]).wf() by {
            if k == m@.len() - 1 {
            } else {
                assert(m@[k] == old(m)@.remove(idx as int)[k]);
            }
        }
    }
}

/// Whether a want of this kind for a block of this size is answered with
/// the block itself rather than a presence.
pub open spec fn spec_upgrade<F: PeerBlockRequestFilter>(
    pre: Engine<F>,
    kind: WantKind,
    size: int,
) -> bool {
    kind == WantKind::Fetch || size <= pre.max_block_size_replace_has_with_block
}

/// The negative task an entry produces when its block is unknown or the
/// request is denied: a `DontHave` answer, if one is owed.
pub open spec fn spec_negative_task<F: PeerBlockRequestFilter>(
    pre: Engine<F>,
    ent: crate::message::Entry,
) -> Option<Task> {
    if pre.send_dont_haves && ent.send_dont_have {
        Some(
            Task {
                topic: ent.id,
                priority: ent.priority,
                work: spec_presence_len() as usize,
                data: TaskData {
                    block_size: 0,
                    have_block: false,
                    is_want_block: ent.kind == WantKind::Fetch,
                    send_dont_have: ent.send_dont_have,
                },
            },
        )
    } else {
        None
    }
}

/// The task an accepted want produces, given the store.
pub open spec fn spec_want_task<F: PeerBlockRequestFilter>(
    pre: Engine<F>,
    ent: crate::message::Entry,
) -> Option<Task> {
    match pre.blockstore_manager.store.size_of(ent.id) {
        Some(sz) => {
            let iwb = spec_upgrade(pre, ent.kind, sz);
            Some(
                Task {
                    topic: ent.id,
                    priority: ent.priority,
                    work: if iwb {
                        sz as usize
                    } else {
                        spec_presence_len() as usize
                    },
                    data: TaskData {
                        block_size: sz as usize,
                        have_block: true,
                        is_want_block: iwb,
                        send_dont_have: ent.send_dont_have,
                    },
                },
            )
        },
        None => spec_negative_task(pre, ent),
    }
}

/// The task one inbound entry produces, if any.
pub open spec fn spec_entry_task<F: PeerBlockRequestFilter>(
    pre: Engine<F>,
    p: PeerId,
    ent: crate::message::Entry,
) -> Option<Task> {
    if ent.cancel {
        None
    } else if pre.allowed(p, ent.id) {
        spec_want_task(pre, ent)
    } else {
        spec_negative_task(pre, ent)
    }
}

/// A fresh task merged onto whatever was queued for its block.
pub open spec fn spec_merge_onto(base: Option<Task>, t: Task) -> Option<Task> {
    match base {
        Some(e) => Some(crate::task_merger::spec_merge(e, t)),
        None => Some(t),
    }
}

/// The wantlist entry held for `(p, i)` after a message `(entries, full)`
/// has been processed against the state `pre`.
pub open spec fn spec_wl_after<F: PeerBlockRequestFilter>(
    pre: Engine<F>,
    p: PeerId,
    entries: Seq<crate::message::Entry>,
    full: bool,
    i: BlockId,
) -> Option<WantEntry> {
    match crate::message::find_entry(entries, i) {
        Some(ent) => {
            if ent.cancel {
                None
            } else if pre.allowed(p, i) {
                Some(
                    WantEntry {
                        id: i,
                        priority: ent.priority,
                        kind: ent.kind,
                        send_dont_have: ent.send_dont_have,
                    },
                )
            } else if full {
                None
            } else {
                pre.wantlist_entry(p, i)
            }
        },
        None => {
            if full {
                None
            } else {
                pre.wantlist_entry(p, i)
            }
        },
    }
}

/// What remains queued for `(p, i)` after the full-wantlist purge, before
/// the message's entries act.
pub open spec fn spec_base_pending<F: PeerBlockRequestFilter>(
    pre: Engine<F>,
    p: PeerId,
    full: bool,
    i: BlockId,
) -> Option<Task> {
    if full && pre.wantlist_entry(p, i) is Some {
        None
    } else {
        pre.peer_task_queue.pending_spec(p, i)
    }
}

/// The task queued for `(p, i)` after a message `(entries, full)` has been
/// processed against the state `pre`.
pub open spec fn spec_pending_after<F: PeerBlockRequestFilter>(
    pre: Engine<F>,
    p: PeerId,
    entries: Seq<crate::message::Entry>,
    full: bool,
    i: BlockId,
) -> Option<Task> {
    match crate::message::find_entry(entries, i) {
        Some(ent) => {
            if ent.cancel {
                if pre.wantlist_entry(p, i) is Some {
                    None
                } else {
                    spec_base_pending(pre, p, full, i)
                }
            } else {
                match spec_entry_task(pre, p, ent) {
                    Some(t) => spec_merge_onto(spec_base_pending(pre, p, full, i), t),
                    None => spec_base_pending(pre, p, full, i),
                }
            }
        },
        None => spec_base_pending(pre, p, full, i),
    }
}

/// The task `notify_new_blocks` queues for a peer that waits for `b`.
pub open spec fn spec_notify_task<F: PeerBlockRequestFilter>(
    pre: Engine<F>,
    ent: WantEntry,
    b: Block,
) -> Task {
    let iwb = spec_upgrade(pre, ent.kind, b.data@.len() as int);
    Task {
        topic: ent.id,
        priority: ent.priority,
        work: if iwb {
            b.data@.len() as usize
        } else {
            spec_presence_len() as usize
        },
        data: TaskData {
            block_size: b.data@.len() as usize,
            have_block: true,
            is_want_block: iwb,
            send_dont_have: false,
        },
    }
}

/// The task queued for `(q, i)` after `notify_new_blocks(blocks)` ran
/// against the state `pre`.
pub open spec fn spec_notify_pending<F: PeerBlockRequestFilter>(
    pre: Engine<F>,
    q: PeerId,
    i: BlockId,
    blocks: Seq<Block>,
) -> Option<Task> {
    match get_by(blocks, crate::store::block_key(), i) {
        Some(b) => {
            if pre.peer_ledger.wants_spec(q, i) {
                match pre.wantlist_entry(q, i) {
                    Some(ent) => spec_merge_onto(
                        pre.peer_task_queue.pending_spec(q, i),
                        spec_notify_task(pre, ent, b),
                    ),
                    None => pre.peer_task_queue.pending_spec(q, i),
                }
            } else {
                pre.peer_task_queue.pending_spec(q, i)
            }
        },
        None => pre.peer_task_queue.pending_spec(q, i),
    }
}

/// True if `presences` signals `Have` for `i`.
pub open spec fn presences_mention_have(
    presences: Seq<crate::message::BlockPresence>,
    i: BlockId,
) -> bool {
    exists|k: int|
        0 <= k < presences.len() && presences[k].id == i && presences[k].typ
            == crate::message::PresenceKind::Have
}

/// The wantlist entry held for `(p, i)` after `message_sent(p, m)`: a sent
/// block satisfies a `Fetch` want, a sent `Have` satisfies a `Probe` want.
pub open spec fn spec_sent_wl<F: PeerBlockRequestFilter>(
    pre: Engine<F>,
    p: PeerId,
    m: Message,
    i: BlockId,
) -> Option<WantEntry> {
    match pre.wantlist_entry(p, i) {
        Some(e) => {
            if crate::message::blocks_mention(m.blocks@, i) && e.kind == WantKind::Fetch {
                None
            } else if presences_mention_have(m.block_presences@, i) && e.kind
                == WantKind::Probe {
                None
            } else {
                Some(e)
            }
        },
        None => None,
    }
}

/// True if `presences` carries the pair `(i, typ)`.
pub open spec fn presence_in(
    presences: Seq<crate::message::BlockPresence>,
    i: BlockId,
    typ: crate::message::PresenceKind,
) -> bool {
    exists|k: int| 0 <= k < presences.len() && presences[k].id == i && presences[k].typ == typ
}

/// How an outbound message answers one popped task: a wanted, present
/// block is carried in full; a present block that was only probed gets
/// `Have`; a missing block gets `DontHave` when one is owed.
pub open spec fn spec_task_served(st: crate::store::Store, m: Message, t: Task) -> bool {
    if t.data.have_block && t.data.is_want_block {
        match st.spec_get(t.topic) {
            Some(b) => exists|k: int|
                0 <= k < m.blocks@.len() && m.blocks@[k].id == t.topic && m.blocks@[k].data@
                    == b.data@,
            None => t.data.send_dont_have ==> presence_in(
                m.block_presences@,
                t.topic,
                crate::message::PresenceKind::DontHave,
            ),
        }
    } else if t.data.have_block {
        presence_in(m.block_presences@, t.topic, crate::message::PresenceKind::Have)
    } else {
        t.data.send_dont_have ==> presence_in(
            m.block_presences@,
            t.topic,
            crate::message::PresenceKind::DontHave,
        )
    }
}

/// While an envelope is being assembled, a presence for the topic of the
/// task under work is fresh: everything already in the message came from
/// earlier tasks, whose topics all differ.
proof fn lemma_presence_fresh(m: Message, tasks: Seq<Task>, k: int)
    requires
        0 <= k < tasks.len(),
        unique_keys(tasks, crate::peer_task_queue::task_key()),
        forall|i: BlockId|
            #[trigger] crate::message::message_mentions(m, i) ==> (exists|k2: int|
                0 <= k2 < k && (#[trigger] tasks[k2]).topic == i),
    ensures
        !has_key(m.block_presences@, crate::message::presence_key(), tasks[k].topic),
        !has_key(m.blocks@, crate::store::block_key(), tasks[k].topic),
{
    let t = tasks[k].topic;
    if has_key(m.block_presences@, crate::message::presence_key(), t) {
        let a = key_at(m.block_presences@, crate::message::presence_key(), t);
        assert(crate::message::presences_mention(m.block_presences@, t));
        assert(crate::message::message_mentions(m, t));
        let k2 = choose|k2: int| 0 <= k2 < k && (#[trigger] tasks[k2]).topic == t;
        assert(crate::peer_task_queue::task_key()(tasks[k2])
            == crate::peer_task_queue::task_key()(tasks[k]));
    }
    if has_key(m.blocks@, crate::store::block_key(), t) {
        let a = key_at(m.blocks@, crate::store::block_key(), t);
        assert(crate::message::blocks_mention(m.blocks@, t));
        assert(crate::message::message_mentions(m, t));
        let k2 = choose|k2: int| 0 <= k2 < k && (#[trigger] tasks[k2]).topic == t;
        assert(crate::peer_task_queue::task_key()(tasks[k2])
            == crate::peer_task_queue::task_key()(tasks[k]));
    }
}

/// A block in an outbound message is justified when some popped task wanted
/// exactly this block's data and the store held exactly these bytes.
pub open spec fn spec_block_justified(
    st: crate::store::Store,
    tasks: Seq<Task>,
    b: crate::block::Block,
) -> bool {
    exists|k: int|
        0 <= k < tasks.len() && (#[trigger] tasks[k]).topic == b.id && tasks[k].data.have_block
            && tasks[k].data.is_want_block && st.spec_get(b.id) is Some && st.spec_get(
            b.id,
        )->Some_0.data@ == b.data@
}

/// A presence in an outbound message is justified when some popped task
/// calls for it: `Have` for a present block that was only probed,
/// `DontHave` where a negative answer is owed — for a missing block, or for
/// a wanted block that vanished from the store after sizing.
pub open spec fn spec_presence_justified(
    st: crate::store::Store,
    tasks: Seq<Task>,
    pres: crate::message::BlockPresence,
) -> bool {
    exists|k: int|
        0 <= k < tasks.len() && (#[trigger] tasks[k]).topic == pres.id && (match pres.typ {
            crate::message::PresenceKind::Have => tasks[k].data.have_block
                && !tasks[k].data.is_want_block,
            crate::message::PresenceKind::DontHave => tasks[k].data.send_dont_have && (
            !tasks[k].data.have_block || (tasks[k].data.is_want_block && st.spec_get(
                pres.id,
            ) is None)),
        })
}

/// The non-state configuration fields agree between two engine states.
pub open spec fn same_config<F: PeerBlockRequestFilter>(a: Engine<F>, b: Engine<F>) -> bool {
    &&& a.self_id == b.self_id
    &&& a.target_message_size == b.target_message_size
    &&& a.max_block_size_replace_has_with_block == b.max_block_size_replace_has_with_block
    &&& a.send_dont_haves == b.send_dont_haves
    &&& a.task_worker_count == b.task_worker_count
    &&& a.peer_block_request_filter == b.peer_block_request_filter
    &&& a.stopped == b.stopped
    &&& a.peer_task_queue.max_outstanding == b.peer_task_queue.max_outstanding
    &&& a.blockstore_manager.worker_count == b.blockstore_manager.worker_count
}

/// Everything observable agrees between two engine states.
pub open spec fn frame_eq<F: PeerBlockRequestFilter>(a: Engine<F>, b: Engine<F>) -> bool {
    &&& same_config(a, b)
    &&& forall|p: PeerId| #[trigger] a.connected(p) == b.connected(p)
    &&& forall|p: PeerId, i: BlockId|
        #[trigger] a.wantlist_entry(p, i) == b.wantlist_entry(p, i)
    &&& forall|p: PeerId, i: BlockId|
        #[trigger] a.peer_ledger.wants_spec(p, i) == b.peer_ledger.wants_spec(p, i)
    &&& forall|p: PeerId, i: BlockId|
        #[trigger] a.peer_task_queue.pending_spec(p, i) == b.peer_task_queue.pending_spec(p, i)
    &&& forall|p: PeerId|
        #[trigger] a.peer_task_queue.outstanding_spec(p) == b.peer_task_queue.outstanding_spec(p)
    &&& forall|p: PeerId|
        #[trigger] a.score_ledger.entry_for(p) == b.score_ledger.entry_for(p)
    &&& forall|i: BlockId|
        #[trigger] a.blockstore_manager.store.spec_get(i) == b.blockstore_manager.store.spec_get(
            i,
        )
}

/// One purge step: cancelling `(p, we.id)` in the reverse index and queue
/// extends the processed prefix by `we`.
proof fn lemma_purge_step(
    pre_pl: PeerLedger,
    pre_q: PeerTaskQueue,
    b_pl: PeerLedger,
    b_q: PeerTaskQueue,
    c_pl: PeerLedger,
    c_q: PeerTaskQueue,
    p: PeerId,
    pfx: Seq<WantEntry>,
    we: WantEntry,
)
    requires
        !has_key(pfx, crate::wantlist::want_key(), we.id),
        forall|i: BlockId|
            #[trigger] b_pl.wants_spec(p, i) == (pre_pl.wants_spec(p, i) && !has_key(
                pfx,
                crate::wantlist::want_key(),
                i,
            )),
        forall|i: BlockId|
            #[trigger] b_q.pending_spec(p, i) == (if has_key(
                pfx,
                crate::wantlist::want_key(),
                i,
            ) {
                None
            } else {
                pre_q.pending_spec(p, i)
            }),
        !c_pl.wants_spec(p, we.id),
        forall|i: BlockId|
            i != we.id ==> #[trigger] c_pl.wants_spec(p, i) == b_pl.wants_spec(p, i),
        c_q.pending_spec(p, we.id) is None,
        forall|i: BlockId|
            i != we.id ==> #[trigger] c_q.pending_spec(p, i) == b_q.pending_spec(p, i),
    ensures
        forall|i: BlockId|
            #[trigger] c_pl.wants_spec(p, i) == (pre_pl.wants_spec(p, i) && !has_key(
                pfx.push(we),
                crate::wantlist::want_key(),
                i,
            )),
        forall|i: BlockId|
            #[trigger] c_q.pending_spec(p, i) == (if has_key(
                pfx.push(we),
                crate::wantlist::want_key(),
                i,
            ) {
                None
            } else {
                pre_q.pending_spec(p, i)
            }),
{
    let kf = crate::wantlist::want_key();
    assert forall|i: BlockId|
        #[trigger] has_key(pfx.push(we), kf, i) == (has_key(pfx, kf, i) || i == we.id) by {
        if has_key(pfx.push(we), kf, i) {
            let k = key_at(pfx.push(we), kf, i);
            if k < pfx.len() {
                assert(pfx.push(we)[k] == pfx[k]);
                assert(has_key(pfx, kf, i));
            } else {
                assert(pfx.push(we)[k] == we);
            }
        }
        if has_key(pfx, kf, i) {
            let k = key_at(pfx, kf, i);
            assert(pfx.push(we)[k] == pfx[k]);
        }
        if i == we.id {
            assert(kf(pfx.push(we)[pfx.len() as int]) == i);
        }
    }
}

/// After the purge walked the whole old wantlist, no want for `p` remains
/// in the reverse index, and the queue holds the base of the full-replace
/// case.
proof fn lemma_purge_complete<F: PeerBlockRequestFilter>(
    pre: Engine<F>,
    pl: PeerLedger,
    q: PeerTaskQueue,
    p: PeerId,
    wl: Seq<WantEntry>,
)
    requires
        pre.wf(),
        forall|i: BlockId|
            (#[trigger] pre.wantlist_entry(p, i) is Some) == has_key(
                wl,
                crate::wantlist::want_key(),
                i,
            ),
        forall|i: BlockId|
            #[trigger] pl.wants_spec(p, i) == (pre.peer_ledger.wants_spec(p, i) && !has_key(
                wl,
                crate::wantlist::want_key(),
                i,
            )),
        forall|i: BlockId|
            #[trigger] q.pending_spec(p, i) == (if has_key(
                wl,
                crate::wantlist::want_key(),
                i,
            ) {
                None
            } else {
                pre.peer_task_queue.pending_spec(p, i)
            }),
    ensures
        forall|i: BlockId| !#[trigger] pl.wants_spec(p, i),
        forall|i: BlockId|
            #[trigger] q.pending_spec(p, i) == spec_base_pending(pre, p, true, i),
{
    assert forall|i: BlockId| !#[trigger] pl.wants_spec(p, i) by {
        if pl.wants_spec(p, i) {
            assert(pre.peer_ledger.wants_spec(p, i));
            assert(pre.wantlist_entry(p, i) is Some);
        }
    }
    assert forall|i: BlockId|
        #[trigger] q.pending_spec(p, i) == spec_base_pending(pre, p, true, i) by {
        assert((pre.wantlist_entry(p, i) is Some) == has_key(
            wl,
            crate::wantlist::want_key(),
            i,
        ));
    }
}

/// One cancel entry extends the processed prefix.
proof fn lemma_step_cancel<F: PeerBlockRequestFilter>(
    pre: Engine<F>,
    p: PeerId,
    pfx: Seq<crate::message::Entry>,
    full: bool,
    e: crate::message::Entry,
    before: Engine<F>,
    cur: Engine<F>,
)
    requires
        e.cancel,
        unique_keys(pfx, crate::message::entry_key()),
        !has_key(pfx, crate::message::entry_key(), e.id),
        forall|i: BlockId|
            #[trigger] map_entry(before.ledger_map@, p, i) == spec_wl_after(pre, p, pfx, full, i),
        forall|i: BlockId|
            #[trigger] before.peer_ledger.wants_spec(p, i) == (spec_wl_after(
                pre,
                p,
                pfx,
                full,
                i,
            ) is Some),
        forall|i: BlockId|
            #[trigger] before.peer_task_queue.pending_spec(p, i) == spec_pending_after(
                pre,
                p,
                pfx,
                full,
                i,
            ),
        map_entry(cur.ledger_map@, p, e.id) is None,
        forall|i: BlockId|
            i != e.id ==> #[trigger] map_entry(cur.ledger_map@, p, i) == map_entry(
                before.ledger_map@,
                p,
                i,
            ),
        !cur.peer_ledger.wants_spec(p, e.id),
        forall|i: BlockId|
            i != e.id ==> #[trigger] cur.peer_ledger.wants_spec(p, i)
                == before.peer_ledger.wants_spec(p, i),
        cur.peer_task_queue.pending_spec(p, e.id) == (if map_entry(
            before.ledger_map@,
            p,
            e.id,
        ) is Some {
            None
        } else {
            before.peer_task_queue.pending_spec(p, e.id)
        }),
        forall|i: BlockId|
            i != e.id ==> #[trigger] cur.peer_task_queue.pending_spec(p, i)
                == before.peer_task_queue.pending_spec(p, i),
    ensures
        forall|i: BlockId|
            #[trigger] map_entry(cur.ledger_map@, p, i) == spec_wl_after(
                pre,
                p,
                pfx.push(e),
                full,
                i,
            ),
        forall|i: BlockId|
            #[trigger] cur.peer_ledger.wants_spec(p, i) == (spec_wl_after(
                pre,
                p,
                pfx.push(e),
                full,
                i,
            ) is Some),
        forall|i: BlockId|
            #[trigger] cur.peer_task_queue.pending_spec(p, i) == spec_pending_after(
                pre,
                p,
                pfx.push(e),
                full,
                i,
            ),
{
    lemma_get_by_push(pfx, crate::message::entry_key(), e);
    assert(crate::message::find_entry(pfx.push(e), e.id) == Some(e));
    assert forall|i: BlockId|
        i != e.id implies #[trigger] crate::message::find_entry(pfx.push(e), i)
        == crate::message::find_entry(pfx, i) by {}
    assert forall|i: BlockId|
        #[trigger] cur.peer_task_queue.pending_spec(p, i) == spec_pending_after(
            pre,
            p,
            pfx.push(e),
            full,
            i,
        ) by {
        if i == e.id {
            assert(map_entry(before.ledger_map@, p, i) == spec_wl_after(pre, p, pfx, full, i));
            assert(crate::message::find_entry(pfx, i) is None);
        }
    }
}

/// One non-cancel entry extends the processed prefix.
proof fn lemma_step_entry<F: PeerBlockRequestFilter>(
    pre: Engine<F>,
    p: PeerId,
    pfx: Seq<crate::message::Entry>,
    full: bool,
    e: crate::message::Entry,
    before: Engine<F>,
    cur: Engine<F>,
)
    requires
        !e.cancel,
        unique_keys(pfx, crate::message::entry_key()),
        !has_key(pfx, crate::message::entry_key(), e.id),
        forall|i: BlockId|
            #[trigger] map_entry(before.ledger_map@, p, i) == spec_wl_after(pre, p, pfx, full, i),
        forall|i: BlockId|
            #[trigger] before.peer_ledger.wants_spec(p, i) == (spec_wl_after(
                pre,
                p,
                pfx,
                full,
                i,
            ) is Some),
        forall|i: BlockId|
            #[trigger] before.peer_task_queue.pending_spec(p, i) == spec_pending_after(
                pre,
                p,
                pfx,
                full,
                i,
            ),
        map_entry(cur.ledger_map@, p, e.id) == (if pre.allowed(p, e.id) {
            Some(
                WantEntry {
                    id: e.id,
                    priority: e.priority,
                    kind: e.kind,
                    send_dont_have: e.send_dont_have,
                },
            )
        } else {
            map_entry(before.ledger_map@, p, e.id)
        }),
        forall|i: BlockId|
            i != e.id ==> #[trigger] map_entry(cur.ledger_map@, p, i) == map_entry(
                before.ledger_map@,
                p,
                i,
            ),
        cur.peer_ledger.wants_spec(p, e.id) == (if pre.allowed(p, e.id) {
            true
        } else {
            before.peer_ledger.wants_spec(p, e.id)
        }),
        forall|i: BlockId|
            i != e.id ==> #[trigger] cur.peer_ledger.wants_spec(p, i)
                == before.peer_ledger.wants_spec(p, i),
        cur.peer_task_queue.pending_spec(p, e.id) == (match spec_entry_task(pre, p, e) {
            Some(t) => spec_merge_onto(before.peer_task_queue.pending_spec(p, e.id), t),
            None => before.peer_task_queue.pending_spec(p, e.id),
        }),
        forall|i: BlockId|
            i != e.id ==> #[trigger] cur.peer_task_queue.pending_spec(p, i)
                == before.peer_task_queue.pending_spec(p, i),
    ensures
        forall|i: BlockId|
            #[trigger] map_entry(cur.ledger_map@, p, i) == spec_wl_after(
                pre,
                p,
                pfx.push(e),
                full,
                i,
            ),
        forall|i: BlockId|
            #[trigger] cur.peer_ledger.wants_spec(p, i) == (spec_wl_after(
                pre,
                p,
                pfx.push(e),
                full,
                i,
            ) is Some),
        forall|i: BlockId|
            #[trigger] cur.peer_task_queue.pending_spec(p, i) == spec_pending_after(
                pre,
                p,
                pfx.push(e),
                full,
                i,
            ),
{
    lemma_get_by_push(pfx, crate::message::entry_key(), e);
    assert(crate::message::find_entry(pfx.push(e), e.id) == Some(e));
    assert forall|i: BlockId|
        i != e.id implies #[trigger] crate::message::find_entry(pfx.push(e), i)
        == crate::message::find_entry(pfx, i) by {}
    assert forall|i: BlockId|
        #[trigger] map_entry(cur.ledger_map@, p, i) == spec_wl_after(
            pre,
            p,
            pfx.push(e),
            full,
            i,
        ) by {
        if i == e.id {
            assert(crate::message::find_entry(pfx, i) is None);
            assert(map_entry(before.ledger_map@, p, i) == spec_wl_after(pre, p, pfx, full, i));
        }
    }
    assert forall|i: BlockId|
        #[trigger] cur.peer_task_queue.pending_spec(p, i) == spec_pending_after(
            pre,
            p,
            pfx.push(e),
            full,
            i,
        ) by {
        if i == e.id {
            assert(crate::message::find_entry(pfx, i) is None);
            assert(before.peer_task_queue.pending_spec(p, i) == spec_pending_after(
                pre,
                p,
                pfx,
                full,
                i,
            ));
        }
    }
}

} // verus!
