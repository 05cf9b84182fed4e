//! Properties of the engine that relate several operations, stated and
//! proved over the same spec functions the operations' contracts use.
//!
//! Single-operation properties live in the `ensures` of the operation
//! itself: the size budget of an envelope and the fairness precondition of
//! a pop are stated on `pop_tasks` and `next_envelope`, and the
//! monotonicity of the sent-byte counter on `add_to_sent_bytes` and
//! `message_sent`.

use vstd::prelude::*;

use crate::block::{BlockId, PeerId};
use crate::decision::{
    spec_base_pending, spec_entry_task, spec_merge_onto, spec_pending_after, same_config,
    Engine, PeerBlockRequestFilter,
};
use crate::keyed::{get_by, has_key, key_at, unique_keys};
use crate::message::Message;
use crate::peer_ledger::PeerLedger;
use crate::peer_task_queue::{
    sat_usize, spec_eligible, task_key, PeerQueue, PeerTaskQueue, Task,
};
use crate::score_ledger::{PeerScore, ScoreEvent};
use crate::task_merger::spec_merge;
use crate::wantlist::WantEntry;

verus! {

/// Wantlist reflection: in a well-formed engine, the reverse index lists a
/// peer for a block exactly when that peer's ledger holds an entry for it.
pub proof fn lemma_wantlist_reflection<F: PeerBlockRequestFilter>(
    e: Engine<F>,
    p: PeerId,
    i: BlockId,
)
    requires
        e.wf(),
    ensures
        e.peer_ledger.wants_spec(p, i) <==> e.wantlist_entry(p, i) is Some,
{
}

/// No duplicate tasks: in a well-formed queue, a peer's queue holds at most
/// one task per block, so two positions with the same topic coincide.
pub proof fn lemma_no_duplicate_tasks(
    q: PeerTaskQueue,
    p: PeerId,
    a: int,
    b: int,
)
    requires
        q.wf(),
        q.queue_for(p) is Some,
        0 <= a < q.queue_for(p)->Some_0.tasks@.len(),
        0 <= b < q.queue_for(p)->Some_0.tasks@.len(),
        q.queue_for(p)->Some_0.tasks@[a].topic == q.queue_for(p)->Some_0.tasks@[b].topic,
    ensures
        a == b,
{
    let pq = q.queue_for(p)->Some_0;
    let k = key_at(q.peers@, crate::peer_task_queue::pq_key(), p);
    assert(q.peers@[k] == pq);
    assert(pq.wf());
    if a < b {
        assert(task_key()(pq.tasks@[a]) != task_key()(pq.tasks@[b]));
    } else if b < a {
        assert(task_key()(pq.tasks@[b]) != task_key()(pq.tasks@[a]));
    }
}

/// The merge rule upgrades: a merged task wants the block data or carries
/// the block whenever either side did, and remembers an owed negative
/// answer from either side.
pub proof fn lemma_merge_upgrades(e: Task, f: Task)
    requires
        e.topic == f.topic,
    ensures
        spec_merge(e, f).data.is_want_block == (e.data.is_want_block || f.data.is_want_block),
        spec_merge(e, f).data.have_block == (e.data.have_block || f.data.have_block),
        spec_merge(e, f).data.send_dont_have == (e.data.send_dont_have
            || f.data.send_dont_have),
        spec_merge(e, f).priority >= e.priority && spec_merge(e, f).priority >= f.priority,
{
}

/// Coalescing: a probe for a present block followed by a fetch for it, with
/// no cancel in between, leaves one queued task that sends the block data.
/// The queue holds at most one task per `(peer, block)` pair and an
/// envelope carries each block at most once, so the block is emitted once.
pub proof fn lemma_probe_then_fetch<F: PeerBlockRequestFilter>(
    pre: Engine<F>,
    mid: Engine<F>,
    post: Engine<F>,
    p: PeerId,
    i: BlockId,
    m1: Message,
    m2: Message,
)
    requires
        pre.blockstore_manager.store.size_of(i) is Some,
        pre.allowed(p, i),
        same_config(pre, mid),
        mid.blockstore_manager == pre.blockstore_manager,
        m1.entry_for(i) is Some,
        !m1.entry_for(i)->Some_0.cancel,
        m1.entry_for(i)->Some_0.kind == crate::message::WantKind::Probe,
        m2.entry_for(i) is Some,
        !m2.entry_for(i)->Some_0.cancel,
        m2.entry_for(i)->Some_0.kind == crate::message::WantKind::Fetch,
        mid.peer_task_queue.pending_spec(p, i) == spec_pending_after(
            pre,
            p,
            m1.entries@,
            m1.full,
            i,
        ),
        post.peer_task_queue.pending_spec(p, i) == spec_pending_after(
            mid,
            p,
            m2.entries@,
            m2.full,
            i,
        ),
    ensures
        post.peer_task_queue.pending_spec(p, i) is Some,
        post.peer_task_queue.pending_spec(p, i)->Some_0.data.have_block,
        post.peer_task_queue.pending_spec(p, i)->Some_0.data.is_want_block,
{
    let e1 = m1.entry_for(i)->Some_0;
    let e2 = m2.entry_for(i)->Some_0;
    assert(e1.id == i) by {
        let k = key_at(m1.entries@, crate::message::entry_key(), i);
        assert(m1.entries@[k] == e1);
    }
    assert(e2.id == i) by {
        let k = key_at(m2.entries@, crate::message::entry_key(), i);
        assert(m2.entries@[k] == e2);
    }
    let t1 = spec_entry_task(pre, p, e1)->Some_0;
    assert(spec_entry_task(pre, p, e1) is Some && t1.data.have_block);
    assert(mid.peer_task_queue.pending_spec(p, i) is Some);
    assert(mid.peer_task_queue.pending_spec(p, i)->Some_0.data.have_block);
    assert(mid.allowed(p, i) == pre.allowed(p, i));
    assert(mid.blockstore_manager.store.size_of(i) is Some);
    let t2 = spec_entry_task(mid, p, e2)->Some_0;
    assert(spec_entry_task(mid, p, e2) is Some && t2.data.have_block && t2.data.is_want_block);
    let base2 = spec_base_pending(mid, p, m2.full, i);
    match base2 {
        Some(x) => {
            assert(post.peer_task_queue.pending_spec(p, i) == Some(spec_merge(x, t2)));
        },
        None => {
            assert(post.peer_task_queue.pending_spec(p, i) == Some(t2));
        },
    }
}

/// Cancel suppresses: when a cancel for a want the ledger holds is
/// processed before the task is popped, the task is gone from the queue.
/// `next_envelope` only ever mentions blocks of tasks it popped, so nothing
/// for this block reaches the peer.
pub proof fn lemma_cancel_suppresses<F: PeerBlockRequestFilter>(
    pre: Engine<F>,
    post: Engine<F>,
    p: PeerId,
    i: BlockId,
    m: Message,
)
    requires
        m.entry_for(i) is Some,
        m.entry_for(i)->Some_0.cancel,
        pre.wantlist_entry(p, i) is Some,
        post.peer_task_queue.pending_spec(p, i) == spec_pending_after(
            pre,
            p,
            m.entries@,
            m.full,
            i,
        ),
    ensures
        post.peer_task_queue.pending_spec(p, i) is None,
{
}

/// Per-peer backpressure: a pop is admitted only below the outstanding
/// limit, so afterwards the peer's outstanding bytes stay within one
/// envelope's worth of the limit.
pub proof fn lemma_backpressure(
    oq: PeerQueue,
    max_outstanding: usize,
    envelope_work: int,
    outstanding2: usize,
)
    requires
        max_outstanding != 0,
        spec_eligible(oq, max_outstanding),
        envelope_work >= 0,
        outstanding2 == sat_usize(oq.outstanding + envelope_work),
    ensures
        oq.outstanding < max_outstanding,
        outstanding2 <= sat_usize(max_outstanding - 1 + envelope_work),
{
}

/// Disconnect purge: once a peer's queue record is gone, no envelope can
/// name it, because `next_envelope` only returns envelopes for peers the
/// queue knew.
pub proof fn lemma_disconnect_suppresses<F: PeerBlockRequestFilter>(
    e: Engine<F>,
    gone: PeerId,
    addressee: PeerId,
)
    requires
        !e.peer_task_queue.knows_peer(gone),
        e.peer_task_queue.knows_peer(addressee),
    ensures
        addressee != gone,
{
}

/// Connect, disconnect, connect leaves a fresh peer's state exactly as one
/// connect does: the observations after both histories agree. The
/// hypotheses are the contracts of `peer_connected` and
/// `peer_disconnected`, instantiated along both histories from a state
/// that does not track the peer anywhere.
pub proof fn lemma_connect_roundtrip<F: PeerBlockRequestFilter>(
    e0: Engine<F>,
    e1: Engine<F>,
    e2: Engine<F>,
    e3: Engine<F>,
    e4: Engine<F>,
    p: PeerId,
)
    requires
        !e0.connected(p),
        !e0.peer_task_queue.knows_peer(p),
        forall|i: BlockId| e0.peer_task_queue.pending_spec(p, i) is None,
        e0.score_ledger.entry_for(p) is None,
        forall|i: BlockId| !e0.peer_ledger.wants_spec(p, i),
        // e0 -> e1 by peer_connected(p)
        e1.connected(p),
        forall|i: BlockId| #[trigger] e1.wantlist_entry(p, i) == e0.wantlist_entry(p, i),
        forall|q: PeerId| q != p ==> e1.ledger_for(q) == e0.ledger_for(q),
        forall|q: PeerId| #[trigger] e1.connected(q) == (q == p || e0.connected(q)),
        e1.peer_ledger == e0.peer_ledger,
        e1.peer_task_queue == e0.peer_task_queue,
        e1.score_ledger.entry_for(p) == (Some(
            PeerScore { peer: p, sent: 0, recv: 0, score: 0, last_activity: e0.score_ledger.clock },
        )),
        forall|q: PeerId|
            q != p ==> #[trigger] e1.score_ledger.entry_for(q) == e0.score_ledger.entry_for(q),
        // e1 -> e2 by peer_disconnected(p)
        !e2.connected(p),
        forall|q: PeerId| q != p ==> e2.ledger_for(q) == e1.ledger_for(q),
        forall|q: PeerId| #[trigger] e2.connected(q) == (q != p && e1.connected(q)),
        forall|i: BlockId| !#[trigger] e2.peer_ledger.wants_spec(p, i),
        forall|q: PeerId, i: BlockId|
            q != p ==> #[trigger] e2.peer_ledger.wants_spec(q, i) == e1.peer_ledger.wants_spec(
                q,
                i,
            ),
        !e2.peer_task_queue.knows_peer(p),
        forall|i: BlockId| e2.peer_task_queue.pending_spec(p, i) is None,
        forall|q: PeerId|
            q != p ==> #[trigger] e2.peer_task_queue.queue_for(q) == e1.peer_task_queue.queue_for(
                q,
            ),
        e2.score_ledger.entry_for(p) is None,
        forall|q: PeerId|
            q != p ==> #[trigger] e2.score_ledger.entry_for(q) == e1.score_ledger.entry_for(q),
        e2.score_ledger.clock == e0.score_ledger.clock,
        // e2 -> e3 by peer_connected(p)
        e3.connected(p),
        forall|i: BlockId| #[trigger] e3.wantlist_entry(p, i) == e2.wantlist_entry(p, i),
        forall|q: PeerId| q != p ==> e3.ledger_for(q) == e2.ledger_for(q),
        forall|q: PeerId| #[trigger] e3.connected(q) == (q == p || e2.connected(q)),
        e3.peer_ledger == e2.peer_ledger,
        e3.peer_task_queue == e2.peer_task_queue,
        e3.score_ledger.entry_for(p) == (Some(
            PeerScore { peer: p, sent: 0, recv: 0, score: 0, last_activity: e2.score_ledger.clock },
        )),
        forall|q: PeerId|
            q != p ==> #[trigger] e3.score_ledger.entry_for(q) == e2.score_ledger.entry_for(q),
        // e0 -> e4 by peer_connected(p)
        e4.connected(p),
        forall|i: BlockId| #[trigger] e4.wantlist_entry(p, i) == e0.wantlist_entry(p, i),
        forall|q: PeerId| q != p ==> e4.ledger_for(q) == e0.ledger_for(q),
        forall|q: PeerId| #[trigger] e4.connected(q) == (q == p || e0.connected(q)),
        e4.peer_ledger == e0.peer_ledger,
        e4.peer_task_queue == e0.peer_task_queue,
        e4.score_ledger.entry_for(p) == (Some(
            PeerScore { peer: p, sent: 0, recv: 0, score: 0, last_activity: e0.score_ledger.clock },
        )),
        forall|q: PeerId|
            q != p ==> #[trigger] e4.score_ledger.entry_for(q) == e0.score_ledger.entry_for(q),
        // disconnect does not disturb the wantlists of other peers
        forall|i: BlockId| #[trigger] e1.wantlist_entry(p, i) is None,
        forall|i: BlockId| #[trigger] e2.wantlist_entry(p, i) is None,
    ensures
        forall|q: PeerId| #[trigger] e3.connected(q) == e4.connected(q),
        forall|i: BlockId|
            #[trigger] e3.wantlist_entry(p, i) == e4.wantlist_entry(p, i),
        forall|q: PeerId|
            q != p ==> #[trigger] e3.ledger_for(q) == e4.ledger_for(q),
        forall|q: PeerId, i: BlockId|
            #[trigger] e3.peer_ledger.wants_spec(q, i) == e4.peer_ledger.wants_spec(q, i),
        forall|i: BlockId|
            #[trigger] e3.peer_task_queue.pending_spec(p, i) == e4.peer_task_queue.pending_spec(
                p,
                i,
            ),
        forall|q: PeerId|
            q != p ==> #[trigger] e3.peer_task_queue.queue_for(q)
                == e4.peer_task_queue.queue_for(q),
        e3.score_ledger.entry_for(p) == e4.score_ledger.entry_for(p),
        forall|q: PeerId|
            q != p ==> #[trigger] e3.score_ledger.entry_for(q) == e4.score_ledger.entry_for(q),
{
    assert forall|q: PeerId, i: BlockId|
        #[trigger] e3.peer_ledger.wants_spec(q, i) == e4.peer_ledger.wants_spec(q, i) by {
        if q == p {
            assert(!e2.peer_ledger.wants_spec(p, i));
            assert(!e0.peer_ledger.wants_spec(p, i));
            assert(e3.peer_ledger.wants_spec(q, i) == e2.peer_ledger.wants_spec(q, i));
            assert(e4.peer_ledger.wants_spec(q, i) == e0.peer_ledger.wants_spec(q, i));
        } else {
            assert(e2.peer_ledger.wants_spec(q, i) == e1.peer_ledger.wants_spec(q, i));
            assert(e1.peer_ledger.wants_spec(q, i) == e0.peer_ledger.wants_spec(q, i));
        }
    }
    assert forall|i: BlockId|
        #[trigger] e3.peer_task_queue.pending_spec(p, i) == e4.peer_task_queue.pending_spec(
            p,
            i,
        ) by {
        assert(e3.peer_task_queue.pending_spec(p, i) == e2.peer_task_queue.pending_spec(p, i));
        assert(e4.peer_task_queue.pending_spec(p, i) == e0.peer_task_queue.pending_spec(p, i));
    }
    assert forall|q: PeerId|
        q != p implies #[trigger] e3.peer_task_queue.queue_for(q)
        == e4.peer_task_queue.queue_for(q) by {
        assert(e3.peer_task_queue.queue_for(q) == e2.peer_task_queue.queue_for(q));
        assert(e4.peer_task_queue.queue_for(q) == e0.peer_task_queue.queue_for(q));
    }
}

/// Want, cancel, want is the same as one want: in the reverse index, the
/// three-step history ends in exactly the state the single want produces.
pub proof fn lemma_want_cancel_want(
    l0: PeerLedger,
    l1: PeerLedger,
    l2: PeerLedger,
    l3: PeerLedger,
    l4: PeerLedger,
    p: PeerId,
    i: BlockId,
)
    requires
        // l0 -> l1 by wants(p, i)
        l1.wants_spec(p, i),
        forall|q: PeerId, j: BlockId|
            (q != p || j != i) ==> #[trigger] l1.wants_spec(q, j) == l0.wants_spec(q, j),
        // l1 -> l2 by cancel(p, i)
        !l2.wants_spec(p, i),
        forall|q: PeerId, j: BlockId|
            (q != p || j != i) ==> #[trigger] l2.wants_spec(q, j) == l1.wants_spec(q, j),
        // l2 -> l3 by wants(p, i)
        l3.wants_spec(p, i),
        forall|q: PeerId, j: BlockId|
            (q != p || j != i) ==> #[trigger] l3.wants_spec(q, j) == l2.wants_spec(q, j),
        // l0 -> l4 by wants(p, i)
        l4.wants_spec(p, i),
        forall|q: PeerId, j: BlockId|
            (q != p || j != i) ==> #[trigger] l4.wants_spec(q, j) == l0.wants_spec(q, j),
    ensures
        forall|q: PeerId, j: BlockId|
            #[trigger] l3.wants_spec(q, j) == l4.wants_spec(q, j),
{
    assert forall|q: PeerId, j: BlockId|
        #[trigger] l3.wants_spec(q, j) == l4.wants_spec(q, j) by {
        if q != p || j != i {
            assert(l3.wants_spec(q, j) == l2.wants_spec(q, j));
            assert(l2.wants_spec(q, j) == l1.wants_spec(q, j));
            assert(l1.wants_spec(q, j) == l0.wants_spec(q, j));
            assert(l4.wants_spec(q, j) == l0.wants_spec(q, j));
        }
    }
}

/// Want, cancel, want at the engine level: processing a want for `(p, i)`,
/// then its cancel, then the want again leaves the same wantlist entry and
/// the same queued task as processing the want once, provided nothing for
/// `(p, i)` was pending at the start.
pub proof fn lemma_engine_want_cancel_want<F: PeerBlockRequestFilter>(
    e0: Engine<F>,
    e1: Engine<F>,
    e2: Engine<F>,
    e3: Engine<F>,
    e4: Engine<F>,
    p: PeerId,
    i: BlockId,
    mw: Message,
    mc: Message,
)
    requires
        e0.peer_task_queue.pending_spec(p, i) is None,
        e0.allowed(p, i),
        mw.entry_for(i) is Some,
        !mw.entry_for(i)->Some_0.cancel,
        mw.full == false,
        mc.entry_for(i) is Some,
        mc.entry_for(i)->Some_0.cancel,
        mc.full == false,
        same_config(e0, e1),
        same_config(e0, e2),
        e1.blockstore_manager == e0.blockstore_manager,
        e2.blockstore_manager == e0.blockstore_manager,
        // transitions at key (p, i)
        e1.wantlist_entry(p, i) == crate::decision::spec_wl_after(
            e0,
            p,
            mw.entries@,
            mw.full,
            i,
        ),
        e1.peer_task_queue.pending_spec(p, i) == spec_pending_after(
            e0,
            p,
            mw.entries@,
            mw.full,
            i,
        ),
        e2.wantlist_entry(p, i) == crate::decision::spec_wl_after(
            e1,
            p,
            mc.entries@,
            mc.full,
            i,
        ),
        e2.peer_task_queue.pending_spec(p, i) == spec_pending_after(
            e1,
            p,
            mc.entries@,
            mc.full,
            i,
        ),
        e3.wantlist_entry(p, i) == crate::decision::spec_wl_after(
            e2,
            p,
            mw.entries@,
            mw.full,
            i,
        ),
        e3.peer_task_queue.pending_spec(p, i) == spec_pending_after(
            e2,
            p,
            mw.entries@,
            mw.full,
            i,
        ),
        e4.wantlist_entry(p, i) == crate::decision::spec_wl_after(
            e0,
            p,
            mw.entries@,
            mw.full,
            i,
        ),
        e4.peer_task_queue.pending_spec(p, i) == spec_pending_after(
            e0,
            p,
            mw.entries@,
            mw.full,
            i,
        ),
    ensures
        e3.wantlist_entry(p, i) == e4.wantlist_entry(p, i),
        e3.peer_task_queue.pending_spec(p, i) == e4.peer_task_queue.pending_spec(p, i),
{
    let ew = mw.entry_for(i)->Some_0;
    assert(ew.id == i) by {
        let k = key_at(mw.entries@, crate::message::entry_key(), i);
        assert(mw.entries@[k] == ew);
    }
    assert(e1.allowed(p, i) == e0.allowed(p, i));
    assert(e2.allowed(p, i) == e0.allowed(p, i));
    assert(spec_entry_task(e2, p, ew) == spec_entry_task(e0, p, ew));
    assert(e2.peer_task_queue.pending_spec(p, i) is None);
}

} // verus!
