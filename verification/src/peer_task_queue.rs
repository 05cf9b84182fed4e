//! The priority task queue, partitioned by peer.
//!
//! Each connected peer has a queue of tasks ordered by priority (higher
//! first; ties broken by smaller projected cost). Tasks for the same
//! `(peer, block)` pair are merged, so at most one task per pair is ever
//! queued. `pop_tasks` selects a peer round-robin among those that are not
//! frozen, have work queued, and are below the outstanding-bytes limit, then
//! pops tasks up to a size budget.

use vstd::prelude::*;

use crate::block::{BlockId, PeerId};
use crate::keyed::{
    get_by, has_key, key_at, lemma_get_by_index, lemma_get_by_insert, lemma_get_by_push,
    lemma_get_by_remove, lemma_get_by_suffix, lemma_get_by_update, unique_keys,
};

verus! {

/// Policy payload of one task.
#[derive(Debug, Clone, Copy, PartialEq, Eq, Structural)]
pub struct TaskData {
    /// Size of the block in the store at sizing time.
    pub block_size: usize,
    /// True if the block was found in the store.
    pub have_block: bool,
    /// True if the peer is to receive the block data, not just a presence.
    pub is_want_block: bool,
    /// True if a negative answer is owed when the block is missing.
    pub send_dont_have: bool,
}

/// One queued unit of outbound work for a peer.
#[derive(Debug, Clone, Copy, PartialEq, Eq, Structural)]
pub struct Task {
    /// The block in question.
    pub topic: BlockId,
    /// Priority as announced by the remote peer; higher pops first.
    pub priority: i32,
    /// Projected on-wire cost in bytes.
    pub work: usize,
    pub data: TaskData,
}

/// Spec-level key projection for tasks.
pub open spec fn task_key() -> spec_fn(Task) -> BlockId {
    |t: Task| t.topic
}

/// Queue order: by priority descending, then projected cost ascending.
pub open spec fn task_le(a: Task, b: Task) -> bool {
    a.priority > b.priority || (a.priority == b.priority && a.work <= b.work)
}

/// Sortedness of a task sequence under [`task_le`].
pub open spec fn tasks_sorted(s: Seq<Task>) -> bool {
    forall|i: int, j: int| 0 <= i < j < s.len() ==> task_le(s[i], s[j])
}

/// Total projected cost of a task sequence.
pub open spec fn sum_work(s: Seq<Task>) -> int
    decreases s.len(),
{
    if s.len() == 0 {
        0
    } else {
        s[0].work + sum_work(s.drop_first())
    }
}

/// Largest single projected cost in a task sequence (0 when empty).
pub open spec fn max_work(s: Seq<Task>) -> int
    decreases s.len(),
{
    if s.len() == 0 {
        0
    } else if s[0].work >= max_work(s.drop_first()) {
        s[0].work as int
    } else {
        max_work(s.drop_first())
    }
}

/// The larger of two integers.
pub open spec fn spec_max(a: int, b: int) -> int {
    if a >= b {
        a
    } else {
        b
    }
}

/// An integer clamped into `usize`.
pub open spec fn sat_usize(x: int) -> usize {
    if x > usize::MAX {
        usize::MAX
    } else if x < 0 {
        0
    } else {
        x as usize
    }
}

pub proof fn lemma_sum_work_push(s: Seq<Task>, x: Task)
    ensures
        sum_work(s.push(x)) == sum_work(s) + x.work,
    decreases s.len(),
{
    if s.len() == 0 {
        assert(s.push(x)[0] == x);
        assert(s =~= Seq::<Task>::empty());
        assert(s.push(x).drop_first() =~= s);
    } else {
        assert(s.push(x)[0] == s[0]);
        assert(s.push(x).drop_first() =~= s.drop_first().push(x));
        lemma_sum_work_push(s.drop_first(), x);
    }
}

pub proof fn lemma_max_work_push(s: Seq<Task>, x: Task)
    ensures
        max_work(s.push(x)) == spec_max(max_work(s), x.work as int),
    decreases s.len(),
{
    if s.len() == 0 {
        assert(s.push(x)[0] == x);
        assert(s =~= Seq::<Task>::empty());
        assert(s.push(x).drop_first() =~= s);
    } else {
        assert(s.push(x)[0] == s[0]);
        assert(s.push(x).drop_first() =~= s.drop_first().push(x));
        lemma_max_work_push(s.drop_first(), x);
    }
}

pub proof fn lemma_sum_work_nonneg(s: Seq<Task>)
    ensures
        sum_work(s) >= 0,
    decreases s.len(),
{
    if s.len() > 0 {
        lemma_sum_work_nonneg(s.drop_first());
    }
}

/// One peer's slice of the queue.
#[derive(Debug, Clone)]
pub struct PeerQueue {
    pub peer: PeerId,
    /// Queued tasks, sorted by [`task_le`], at most one per block.
    pub tasks: Vec<Task>,
    /// Bytes popped for this peer and not yet confirmed done.
    pub outstanding: usize,
    /// A frozen peer is skipped by `pop_tasks` until the next thaw.
    pub frozen: bool,
}

/// Spec-level key projection for peer queues.
pub open spec fn pq_key() -> spec_fn(PeerQueue) -> PeerId {
    |q: PeerQueue| q.peer
}

impl PeerQueue {
    pub open spec fn wf(self) -> bool {
        &&& unique_keys(self.tasks@, task_key())
        &&& tasks_sorted(self.tasks@)
    }
}

/// True if `pop_tasks` may select this queue.
pub open spec fn spec_eligible(q: PeerQueue, max_outstanding: usize) -> bool {
    &&& !q.frozen
    &&& q.tasks@.len() > 0
    &&& (max_outstanding == 0 || q.outstanding < max_outstanding)
}

/// What one `pop_tasks` call returns: the selected peer, the tasks popped
/// for it, and the projected cost still queued for that peer.
#[derive(Debug, Clone)]
pub struct PoppedTasks {
    pub peer: PeerId,
    pub tasks: Vec<Task>,
    pub pending_bytes: usize,
}

/// The priority task queue over all peers.
#[derive(Debug, Clone)]
pub struct PeerTaskQueue {
    pub peers: Vec<PeerQueue>,
    /// Round-robin cursor for fair peer selection.
    pub cursor: usize,
    /// Admission limit of outstanding bytes per peer; 0 disables the limit.
    pub max_outstanding: usize,
}

impl PeerTaskQueue {
    pub open spec fn wf(self) -> bool {
        &&& unique_keys(self.peers@, pq_key())
        &&& forall|k: int| 0 <= k < self.peers@.len() ==> (#[trigger] self.peers@[k]).wf()
    }

    /// The queue record for `p`, if the peer is known.
    pub open spec fn queue_for(self, p: PeerId) -> Option<PeerQueue> {
        get_by(self.peers@, pq_key(), p)
    }

    pub open spec fn knows_peer(self, p: PeerId) -> bool {
        has_key(self.peers@, pq_key(), p)
    }

    /// The task queued for `(p, i)`, if any.
    pub open spec fn pending_spec(self, p: PeerId, i: BlockId) -> Option<Task> {
        match self.queue_for(p) {
            Some(q) => get_by(q.tasks@, task_key(), i),
            None => None,
        }
    }

    /// Bytes popped for `p` and not yet confirmed done (0 when unknown).
    pub open spec fn outstanding_spec(self, p: PeerId) -> usize {
        match self.queue_for(p) {
            Some(q) => q.outstanding,
            None => 0,
        }
    }

    pub open spec fn frozen_spec(self, p: PeerId) -> bool {
        match self.queue_for(p) {
            Some(q) => q.frozen,
            None => false,
        }
    }

    /// Total projected cost queued for `p`.
    pub open spec fn queued_work_spec(self, p: PeerId) -> int {
        match self.queue_for(p) {
            Some(q) => sum_work(q.tasks@),
            None => 0,
        }
    }

    pub fn new(max_outstanding: usize) -> (q: PeerTaskQueue)
        ensures
            q.wf(),
            q.max_outstanding == max_outstanding,
            forall|p: PeerId| !q.knows_peer(p),
            forall|p: PeerId, i: BlockId| q.pending_spec(p, i) is None,
    {
        PeerTaskQueue { peers: Vec::new(), cursor: 0, max_outstanding }
    }

    /// Index of the queue for `p`, if any.
    fn index_of(&self, p: &PeerId) -> (r: Option<usize>)
        requires
            self.wf(),
        ensures
            match r {
                Some(i) => i < self.peers@.len() && self.peers@[i as int].peer == *p
                    && self.queue_for(*p) == Some(self.peers@[i as int]),
                None => self.queue_for(*p) is None,
            },
    {
        let n = self.peers.len();
        for i in 0..n
            invariant
                n == self.peers@.len(),
                self.wf(),
                forall|k: int| 0 <= k < i ==> self.peers@[k].peer != *p,
        {
            if self.peers[i].peer == *p {
                proof {
                    lemma_get_by_index(self.peers@, pq_key(), i as int);
                }
                return Some(i);
            }
        }
        proof {
            assert(!has_key(self.peers@, pq_key(), *p));
        }
        None
    }

    /// Push one task for `peer`, merging with any queued task for the same
    /// block. An unknown peer gets a fresh queue.
    pub fn push_task(&mut self, peer: PeerId, task: Task)
        requires
            old(self).wf(),
        ensures
            final(self).wf(),
            final(self).max_outstanding == old(self).max_outstanding,
            final(self).knows_peer(peer),
            final(self).pending_spec(peer, task.topic) == (Some(
                match old(self).pending_spec(peer, task.topic) {
                    Some(e) => crate::task_merger::spec_merge(e, task),
                    None => task,
                },
            )),
            forall|i: BlockId|
                i != task.topic ==> final(self).pending_spec(peer, i) == old(
                    self,
                ).pending_spec(peer, i),
            forall|p: PeerId|
                p != peer ==> final(self).queue_for(p) == old(self).queue_for(p),
            final(self).outstanding_spec(peer) == old(self).outstanding_spec(peer),
            final(self).frozen_spec(peer) == old(self).frozen_spec(peer),
            forall|p: PeerId| final(self).knows_peer(p) == (p == peer || old(self).knows_peer(p)),
    {
        match self.index_of(&peer) {
            Some(idx) => {
                let q = &self.peers[idx];
                let merged: Task;
                let mut ts: Vec<Task>;
                match task_index_of(&q.tasks, &task.topic) {
                    Some(ti) => {
                        merged = crate::task_merger::TaskMerger::merge(&q.tasks[ti], &task);
                        ts = copy_excluding(&q.tasks, ti);
                        proof {
                            lemma_get_by_remove(q.tasks@, task_key(), ti as int);
                            assert(tasks_sorted(ts@)) by {
                                assert forall|a: int, b: int|
                                    0 <= a < b < ts@.len() implies task_le(ts@[a], ts@[b]) by {
                                    let a0 = if a < ti { a } else { a + 1 };
                                    let b0 = if b < ti { b } else { b + 1 };
                                    assert(ts@[a] == q.tasks@[a0] && ts@[b] == q.tasks@[b0]);
                                }
                            }
                        }
                    },
                    None => {
                        merged = task;
                        ts = copy_all(&q.tasks);
                    },
                }
                sorted_insert(&mut ts, merged);
                let q2 = PeerQueue {
                    peer,
                    tasks: ts,
                    outstanding: q.outstanding,
                    frozen: q.frozen,
                };
                proof {
                    lemma_get_by_update(self.peers@, pq_key(), idx as int, q2);
                }
                self.peers.set(idx, q2);
            },
            None => {
                let mut ts: Vec<Task> = Vec::new();
                ts.push(task);
                let q2 = PeerQueue { peer, tasks: ts, outstanding: 0, frozen: false };
                proof {
                    assert(q2.wf()) by {
                        assert(q2.tasks@.len() == 1);
                    }
                    lemma_get_by_push(self.peers@, pq_key(), q2);
                    lemma_get_by_index(q2.tasks@, task_key(), 0);
                }
                self.peers.push(q2);
            },
        }
    }

    /// Push a batch of tasks for `peer`; the batch names each block at most
    /// once, and each task merges with whatever is queued for its block.
    pub fn push_tasks(&mut self, peer: PeerId, tasks: Vec<Task>)
        requires
            old(self).wf(),
            unique_keys(tasks@, task_key()),
        ensures
            final(self).wf(),
            final(self).max_outstanding == old(self).max_outstanding,
            final(self).knows_peer(peer),
            forall|i: BlockId|
                #[trigger] final(self).pending_spec(peer, i) == (match get_by(
                    tasks@,
                    task_key(),
                    i,
                ) {
                    Some(t) => Some(
                        match old(self).pending_spec(peer, i) {
                            Some(e) => crate::task_merger::spec_merge(e, t),
                            None => t,
                        },
                    ),
                    None => old(self).pending_spec(peer, i),
                }),
            forall|p: PeerId|
                p != peer ==> final(self).queue_for(p) == old(self).queue_for(p),
            final(self).outstanding_spec(peer) == old(self).outstanding_spec(peer),
            final(self).frozen_spec(peer) == old(self).frozen_spec(peer),
            forall|p: PeerId| final(self).knows_peer(p) == (p == peer || old(self).knows_peer(p)),
    {
        let n = tasks.len();
        let ghost pre = *self;
        let mut k: usize = 0;
        // an empty batch must still create the peer's queue
        if tasks.is_empty() {
            match self.index_of(&peer) {
                Some(_) => {},
                None => {
                    let q2 = PeerQueue {
                        peer,
                        tasks: Vec::new(),
                        outstanding: 0,
                        frozen: false,
                    };
                    proof {
                        lemma_get_by_push(self.peers@, pq_key(), q2);
                    }
                    self.peers.push(q2);
                },
            }
            return ;
        }
        while k < n
            invariant
                n == tasks@.len(),
                k <= n,
                self.wf(),
                self.max_outstanding == pre.max_outstanding,
                unique_keys(tasks@, task_key()),
                k > 0 ==> self.knows_peer(peer),
                forall|i: BlockId|
                    #[trigger] self.pending_spec(peer, i) == (match get_by(
                        tasks@.subrange(0, k as int),
                        task_key(),
                        i,
                    ) {
                        Some(t) => Some(
                            match pre.pending_spec(peer, i) {
                                Some(e) => crate::task_merger::spec_merge(e, t),
                                None => t,
                            },
                        ),
                        None => pre.pending_spec(peer, i),
                    }),
                forall|p: PeerId| p != peer ==> self.queue_for(p) == pre.queue_for(p),
                self.outstanding_spec(peer) == pre.outstanding_spec(peer),
                self.frozen_spec(peer) == pre.frozen_spec(peer),
                forall|p: PeerId|
                    self.knows_peer(p) == ((p == peer && k > 0) || pre.knows_peer(p)),
            decreases n - k,
        {
            let t = tasks[k];
            let ghost prefix = tasks@.subrange(0, k as int);
            let ghost prefix2 = tasks@.subrange(0, k + 1 as int);
            proof {
                assert(prefix2 =~= prefix.push(t));
                assert(unique_keys(prefix, task_key())) by {
                    assert forall|a: int, b: int|
                        0 <= a < b < prefix.len() implies task_key()(prefix[a]) != task_key()(
                        prefix[b],
                    ) by {
                        assert(prefix[a] == tasks@[a] && prefix[b] == tasks@[b]);
                    }
                }
                assert(!has_key(prefix, task_key(), t.topic)) by {
                    if has_key(prefix, task_key(), t.topic) {
                        let a = key_at(prefix, task_key(), t.topic);
                        assert(prefix[a] == tasks@[a]);
                    }
                }
                lemma_get_by_push(prefix, task_key(), t);
            }
            self.push_task(peer, t);
            k = k + 1;
        }
        proof {
            assert(tasks@.subrange(0, n as int) =~= tasks@);
        }
    }

    /// Delete the queued task for `(peer, topic)`, if one exists; the peer
    /// is frozen until the next thaw when a task was actually removed.
    pub fn remove(&mut self, topic: &BlockId, peer: &PeerId)
        requires
            old(self).wf(),
        ensures
            final(self).wf(),
            final(self).max_outstanding == old(self).max_outstanding,
            final(self).pending_spec(*peer, *topic) is None,
            forall|i: BlockId|
                i != *topic ==> final(self).pending_spec(*peer, i) == old(
                    self,
                ).pending_spec(*peer, i),
            forall|p: PeerId|
                p != *peer ==> final(self).queue_for(p) == old(self).queue_for(p),
            final(self).outstanding_spec(*peer) == old(self).outstanding_spec(*peer),
            final(self).frozen_spec(*peer) == (if old(self).pending_spec(*peer, *topic)
                is Some {
                true
            } else {
                old(self).frozen_spec(*peer)
            }),
            forall|p: PeerId| final(self).knows_peer(p) == old(self).knows_peer(p),
    {
        match self.index_of(peer) {
            Some(idx) => {
                let q = &self.peers[idx];
                match task_index_of(&q.tasks, topic) {
                    Some(ti) => {
                        let ts = copy_excluding(&q.tasks, ti);
                        proof {
                            lemma_get_by_remove(q.tasks@, task_key(), ti as int);
                            assert(tasks_sorted(ts@)) by {
                                assert forall|a: int, b: int|
                                    0 <= a < b < ts@.len() implies task_le(ts@[a], ts@[b]) by {
                                    let a0 = if a < ti { a } else { a + 1 };
                                    let b0 = if b < ti { b } else { b + 1 };
                                    assert(ts@[a] == q.tasks@[a0] && ts@[b] == q.tasks@[b0]);
                                }
                            }
                        }
                        let q2 = PeerQueue {
                            peer: *peer,
                            tasks: ts,
                            outstanding: q.outstanding,
                            frozen: true,
                        };
                        proof {
                            lemma_get_by_update(self.peers@, pq_key(), idx as int, q2);
                        }
                        self.peers.set(idx, q2);
                    },
                    None => {},
                }
            },
            None => {},
        }
    }

    /// Drop a peer's queue entirely, discarding its tasks and accounting.
    pub fn remove_peer(&mut self, peer: &PeerId)
        requires
            old(self).wf(),
        ensures
            final(self).wf(),
            final(self).max_outstanding == old(self).max_outstanding,
            !final(self).knows_peer(*peer),
            forall|i: BlockId| final(self).pending_spec(*peer, i) is None,
            final(self).outstanding_spec(*peer) == 0,
            !final(self).frozen_spec(*peer),
            forall|p: PeerId|
                p != *peer ==> final(self).queue_for(p) == old(self).queue_for(p),
            forall|p: PeerId| final(self).knows_peer(p) == (p != *peer && old(self).knows_peer(p)),
    {
        match self.index_of(peer) {
            Some(idx) => {
                proof {
                    lemma_get_by_remove(self.peers@, pq_key(), idx as int);
                }
                self.peers.remove(idx);
            },
            None => {},
        }
    }

    /// Confirm that previously popped tasks were handed to the transport;
    /// releases their bytes from the peer's outstanding account.
    pub fn tasks_done(&mut self, peer: PeerId, tasks: &Vec<Task>)
        requires
            old(self).wf(),
        ensures
            final(self).wf(),
            final(self).max_outstanding == old(self).max_outstanding,
            forall|p: PeerId, i: BlockId|
                final(self).pending_spec(p, i) == old(self).pending_spec(p, i),
            forall|p: PeerId| final(self).frozen_spec(p) == old(self).frozen_spec(p),
            forall|p: PeerId| final(self).knows_peer(p) == old(self).knows_peer(p),
            final(self).outstanding_spec(peer) == sat_usize(
                old(self).outstanding_spec(peer) - sat_usize(sum_work(tasks@)),
            ),
            forall|p: PeerId|
                p != peer ==> final(self).outstanding_spec(p) == old(self).outstanding_spec(p),
            count_pending(final(self).peers@) == count_pending(old(self).peers@),
    {
        proof {
            lemma_sum_work_nonneg(tasks@);
        }
        match self.index_of(&peer) {
            Some(idx) => {
                let w = total_work(tasks);
                let q = &self.peers[idx];
                let ts = copy_all(&q.tasks);
                let q2 = PeerQueue {
                    peer,
                    tasks: ts,
                    outstanding: q.outstanding.saturating_sub(w),
                    frozen: q.frozen,
                };
                proof {
                    lemma_get_by_update(self.peers@, pq_key(), idx as int, q2);
                    lemma_count_pending_update(self.peers@, idx as int, q2);
                }
                self.peers.set(idx, q2);
            },
            None => {},
        }
    }

    /// Return every frozen peer to the active set.
    pub fn thaw_round(&mut self)
        requires
            old(self).wf(),
        ensures
            final(self).wf(),
            final(self).max_outstanding == old(self).max_outstanding,
            forall|p: PeerId, i: BlockId|
                final(self).pending_spec(p, i) == old(self).pending_spec(p, i),
            forall|p: PeerId|
                final(self).outstanding_spec(p) == old(self).outstanding_spec(p),
            forall|p: PeerId| final(self).knows_peer(p) == old(self).knows_peer(p),
            forall|p: PeerId| !final(self).frozen_spec(p),
    {
        let n = self.peers.len();
        let mut out: Vec<PeerQueue> = Vec::new();
        let mut i: usize = 0;
        while i < n
            invariant
                n == self.peers@.len(),
                i <= n,
                self.wf(),
                out@.len() == i,
                forall|k: int|
                    0 <= k < i ==> {
                        let a = #[trigger] out@[k];
                        let b = self.peers@[k];
                        a.peer == b.peer && a.tasks@ == b.tasks@ && a.outstanding
                            == b.outstanding && !a.frozen && a.wf()
                    },
            decreases n - i,
        {
            let q = &self.peers[i];
            let ts = copy_all(&q.tasks);
            out.push(PeerQueue { peer: q.peer, tasks: ts, outstanding: q.outstanding, frozen: false });
            i = i + 1;
        }
        let ghost old_peers = self.peers@;
        self.peers = out;
        proof {
            assert(unique_keys(self.peers@, pq_key())) by {
                assert forall|a: int, b: int|
                    0 <= a < b < self.peers@.len() implies pq_key()(self.peers@[a]) != pq_key()(
                    self.peers@[b],
                ) by {
                    assert(self.peers@[a].peer == old_peers[a].peer);
                    assert(self.peers@[b].peer == old_peers[b].peer);
                }
            }
            assert forall|p: PeerId| #[trigger]
                has_key(self.peers@, pq_key(), p) == has_key(old_peers, pq_key(), p) by {
                if has_key(self.peers@, pq_key(), p) {
                    let k = key_at(self.peers@, pq_key(), p);
                    assert(old_peers[k].peer == p);
                }
                if has_key(old_peers, pq_key(), p) {
                    let k = key_at(old_peers, pq_key(), p);
                    assert(self.peers@[k].peer == p);
                }
            }
            assert forall|p: PeerId| #[trigger]
                has_key(old_peers, pq_key(), p) implies {
                let a = get_by(self.peers@, pq_key(), p)->Some_0;
                let b = get_by(old_peers, pq_key(), p)->Some_0;
                a.peer == b.peer && a.tasks@ == b.tasks@ && a.outstanding == b.outstanding
                    && !a.frozen
            } by {
                let k = key_at(old_peers, pq_key(), p);
                lemma_get_by_index(old_peers, pq_key(), k);
                assert(self.peers@[k].peer == p);
                lemma_get_by_index(self.peers@, pq_key(), k);
            }
        }
    }

    /// Pop tasks for one fairly selected peer, up to the `target` budget.
    ///
    /// Tasks are popped in queue order until adding the next task would
    /// exceed the budget; the very first task is always popped, so a single
    /// oversized task still moves. Returns `None` when no peer is eligible.
    pub fn pop_tasks(&mut self, target: usize) -> (r: Option<PoppedTasks>)
        requires
            old(self).wf(),
        ensures
            final(self).wf(),
            final(self).max_outstanding == old(self).max_outstanding,
            match r {
                None => final(self).peers@ == old(self).peers@ && (forall|k: int|
                    0 <= k < old(self).peers@.len() ==> !spec_eligible(
                        #[trigger] old(self).peers@[k],
                        old(self).max_outstanding,
                    )),
                Some(pr) => {
                    let oq = get_by(old(self).peers@, pq_key(), pr.peer)->Some_0;
                    let nq = get_by(final(self).peers@, pq_key(), pr.peer)->Some_0;
                    let c = pr.tasks@.len() as int;
                    &&& old(self).knows_peer(pr.peer)
                    &&& spec_eligible(oq, old(self).max_outstanding)
                    &&& 1 <= c <= oq.tasks@.len()
                    &&& pr.tasks@ == oq.tasks@.subrange(0, c)
                    &&& sum_work(pr.tasks@) <= spec_max(target as int, max_work(pr.tasks@))
                    &&& (c < oq.tasks@.len() ==> sum_work(pr.tasks@) + oq.tasks@[c].work
                        > target)
                    &&& final(self).knows_peer(pr.peer)
                    &&& nq.tasks@ == oq.tasks@.subrange(c, oq.tasks@.len() as int)
                    &&& nq.outstanding == sat_usize(oq.outstanding + sum_work(pr.tasks@))
                    &&& nq.frozen == oq.frozen
                    &&& pr.pending_bytes == sat_usize(sum_work(nq.tasks@))
                    &&& forall|p: PeerId|
                        p != pr.peer ==> final(self).queue_for(p) == old(self).queue_for(p)
                    &&& forall|i: BlockId|
                        #[trigger] final(self).pending_spec(pr.peer, i) == (if has_key(
                            pr.tasks@,
                            task_key(),
                            i,
                        ) {
                            None
                        } else {
                            old(self).pending_spec(pr.peer, i)
                        })
                    &&& count_pending(final(self).peers@) < count_pending(old(self).peers@)
                },
            },
    {
        let n = self.peers.len();
        if n == 0 {
            return None;
        }
        let start = self.cursor % n;
        let idx = match select_eligible(&self.peers, start, self.max_outstanding) {
            Some(idx) => idx,
            None => {
                return None;
            },
        };
        proof {
            assert(spec_eligible(self.peers@[idx as int], self.max_outstanding));
            lemma_get_by_index(self.peers@, pq_key(), idx as int);
        }
        let q = &self.peers[idx];
        let len = q.tasks.len();
        let (c, total) = pop_split(&q.tasks, target);
        let popped = copy_range(&q.tasks, 0, c);
        let rest = copy_range(&q.tasks, c, len);
        let pending = total_work(&rest);
        proof {
            lemma_sum_work_nonneg(q.tasks@.subrange(0, c as int));
            lemma_get_by_suffix(q.tasks@, task_key(), c as int);
        }
        let q2 = PeerQueue {
            peer: q.peer,
            tasks: rest,
            outstanding: q.outstanding.saturating_add(total),
            frozen: q.frozen,
        };
        proof {
            assert(q2.wf()) by {
                assert forall|a: int, b: int|
                    0 <= a < b < q2.tasks@.len() implies task_le(q2.tasks@[a], q2.tasks@[b]) by {
                    assert(q2.tasks@[a] == q.tasks@[a + c]);
                    assert(q2.tasks@[b] == q.tasks@[b + c]);
                }
            }
            lemma_get_by_update(self.peers@, pq_key(), idx as int, q2);
        }
        let peer = q.peer;
        proof {
            lemma_count_pending_update(self.peers@, idx as int, q2);
        }
        self.peers.set(idx, q2);
        self.cursor = if idx + 1 >= n {
            0
        } else {
            idx + 1
        };
        Some(PoppedTasks { peer, tasks: popped, pending_bytes: pending })
    }

    /// Snapshot of queue occupancy: peers with unreleased outstanding bytes,
    /// and tasks queued over all peers.
    pub fn stats(&self) -> (r: (usize, usize))
        requires
            self.wf(),
        ensures
            r.0 == count_active(self.peers@),
            r.1 == sat_usize(count_pending(self.peers@)),
    {
        let n = self.peers.len();
        let mut active: usize = 0;
        let mut pending: usize = 0;
        for i in 0..n
            invariant
                n == self.peers@.len(),
                active == count_active(self.peers@.subrange(0, i as int)),
                pending == sat_usize(count_pending(self.peers@.subrange(0, i as int))),
        {
            let ghost pfx = self.peers@.subrange(0, i as int);
            let ghost pfx2 = self.peers@.subrange(0, i + 1 as int);
            proof {
                assert(pfx2 =~= pfx.push(self.peers@[i as int]));
                lemma_count_active_push(pfx, self.peers@[i as int]);
                lemma_count_pending_push(pfx, self.peers@[i as int]);
                lemma_count_active_bounds(pfx);
                lemma_count_pending_nonneg(pfx);
            }
            if self.peers[i].outstanding > 0 {
                active = active + 1;
            }
            pending = pending.saturating_add(self.peers[i].tasks.len());
        }
        proof {
            assert(self.peers@.subrange(0, n as int) =~= self.peers@);
        }
        (active, pending)
    }
}

/// Number of peers with unreleased outstanding bytes.
pub open spec fn count_active(s: Seq<PeerQueue>) -> int
    decreases s.len(),
{
    if s.len() == 0 {
        0
    } else {
        (if s[0].outstanding > 0 {
            1int
        } else {
            0int
        }) + count_active(s.drop_first())
    }
}

/// Number of tasks queued over all peers.
pub open spec fn count_pending(s: Seq<PeerQueue>) -> int
    decreases s.len(),
{
    if s.len() == 0 {
        0
    } else {
        s[0].tasks@.len() + count_pending(s.drop_first())
    }
}

pub proof fn lemma_count_active_push(s: Seq<PeerQueue>, x: PeerQueue)
    ensures
        count_active(s.push(x)) == count_active(s) + (if x.outstanding > 0 {
            1int
        } else {
            0int
        }),
    decreases s.len(),
{
    if s.len() == 0 {
        assert(s.push(x)[0] == x);
        assert(s =~= Seq::<PeerQueue>::empty());
        assert(s.push(x).drop_first() =~= s);
    } else {
        assert(s.push(x)[0] == s[0]);
        assert(s.push(x).drop_first() =~= s.drop_first().push(x));
        lemma_count_active_push(s.drop_first(), x);
    }
}

pub proof fn lemma_count_pending_push(s: Seq<PeerQueue>, x: PeerQueue)
    ensures
        count_pending(s.push(x)) == count_pending(s) + x.tasks@.len(),
    decreases s.len(),
{
    if s.len() == 0 {
        assert(s.push(x)[0] == x);
        assert(s =~= Seq::<PeerQueue>::empty());
        assert(s.push(x).drop_first() =~= s);
    } else {
        assert(s.push(x)[0] == s[0]);
        assert(s.push(x).drop_first() =~= s.drop_first().push(x));
        lemma_count_pending_push(s.drop_first(), x);
    }
}

/// How the total task count changes when one peer's record is replaced.
pub proof fn lemma_count_pending_update(s: Seq<PeerQueue>, i: int, x: PeerQueue)
    requires
        0 <= i < s.len(),
    ensures
        count_pending(s.update(i, x)) == count_pending(s) - s[i].tasks@.len()
            + x.tasks@.len(),
    decreases s.len(),
{
    let t = s.update(i, x);
    if i == 0 {
        assert(t[0] == x);
        assert(t.drop_first() =~= s.drop_first());
    } else {
        assert(t[0] == s[0]);
        assert(t.drop_first() =~= s.drop_first().update(i - 1, x));
        lemma_count_pending_update(s.drop_first(), i - 1, x);
    }
}

pub proof fn lemma_count_active_bounds(s: Seq<PeerQueue>)
    ensures
        0 <= count_active(s) <= s.len(),
    decreases s.len(),
{
    if s.len() > 0 {
        lemma_count_active_bounds(s.drop_first());
    }
}

pub proof fn lemma_count_pending_nonneg(s: Seq<PeerQueue>)
    ensures
        count_pending(s) >= 0,
    decreases s.len(),
{
    if s.len() > 0 {
        lemma_count_pending_nonneg(s.drop_first());
    }
}

/// Round-robin scan for a peer that `pop_tasks` may serve, starting at
/// `start`. Returns `None` only when no peer at all is eligible.
fn select_eligible(peers: &Vec<PeerQueue>, start: usize, max_outstanding: usize) -> (r: Option<
    usize,
>)
    requires
        peers@.len() > 0,
        start < peers@.len(),
    ensures
        match r {
            Some(i) => i < peers@.len() && spec_eligible(peers@[i as int], max_outstanding),
            None => forall|k: int|
                0 <= k < peers@.len() ==> !spec_eligible(
                    #[trigger] peers@[k],
                    max_outstanding,
                ),
        },
{
    let n = peers.len();
    for k in 0..n
        invariant
            n == peers@.len(),
            start < n,
            forall|k2: int|
                0 <= k2 < k ==> !spec_eligible(
                    #[trigger] peers@[wrap_index(start as int, k2, n as int)],
                    max_outstanding,
                ),
    {
        let idx = if k < n - start {
            start + k
        } else {
            k - (n - start)
        };
        proof {
            assert(idx as int == wrap_index(start as int, k as int, n as int));
        }
        let q = &peers[idx];
        let eligible = !q.frozen && !q.tasks.is_empty() && (max_outstanding == 0
            || q.outstanding < max_outstanding);
        if eligible {
            return Some(idx);
        }
    }
    proof {
        assert forall|j: int| 0 <= j < peers@.len() implies !spec_eligible(
            #[trigger] peers@[j],
            max_outstanding,
        ) by {
            let k2 = if j >= start {
                j - start
            } else {
                j + peers@.len() - start
            };
            assert(wrap_index(start as int, k2, peers@.len() as int) == j);
        }
    }
    None
}

/// The index reached from `start` after `k` round-robin steps over `n` slots.
pub open spec fn wrap_index(start: int, k: int, n: int) -> int {
    if k < n - start {
        start + k
    } else {
        k - (n - start)
    }
}

/// How many leading tasks of `ts` fit into the `target` budget, and their
/// total cost. The first task is always taken; after that a task is taken
/// only while the total stays within the budget.
fn pop_split(ts: &Vec<Task>, target: usize) -> (r: (usize, usize))
    ensures
        r.0 <= ts@.len(),
        ts@.len() > 0 ==> r.0 >= 1,
        r.1 == sum_work(ts@.subrange(0, r.0 as int)),
        r.1 <= spec_max(target as int, max_work(ts@.subrange(0, r.0 as int))),
        r.0 < ts@.len() ==> r.1 + ts@[r.0 as int].work > target,
{
    let n = ts.len();
    let mut total: usize = 0;
    for c in 0..n
        invariant
            n == ts@.len(),
            total == sum_work(ts@.subrange(0, c as int)),
            total <= spec_max(target as int, max_work(ts@.subrange(0, c as int))),
            c > 0 ==> total > 0 || ts@.subrange(0, c as int).len() == c,
        decreases n - c,
    {
        let w = ts[c].work;
        let ghost pfx = ts@.subrange(0, c as int);
        let ghost pfx2 = ts@.subrange(0, c + 1 as int);
        proof {
            assert(pfx2 =~= pfx.push(ts@[c as int]));
            lemma_sum_work_push(pfx, ts@[c as int]);
            lemma_max_work_push(pfx, ts@[c as int]);
            lemma_sum_work_nonneg(pfx);
        }
        if total == 0 {
            total = w;
        } else if (total as u128) + (w as u128) <= (target as u128) {
            total = total + w;
        } else {
            return (c, total);
        }
    }
    proof {
        assert(ts@.subrange(0, n as int) =~= ts@);
    }
    (n, total)
}

/// Index of the task for `topic` in a per-peer task vector.
fn task_index_of(ts: &Vec<Task>, topic: &BlockId) -> (r: Option<usize>)
    requires
        unique_keys(ts@, task_key()),
    ensures
        match r {
            Some(i) => i < ts@.len() && ts@[i as int].topic == *topic && get_by(
                ts@,
                task_key(),
                *topic,
            ) == Some(ts@[i as int]),
            None => get_by(ts@, task_key(), *topic) is None,
        },
{
    let n = ts.len();
    for i in 0..n
        invariant
            n == ts@.len(),
            unique_keys(ts@, task_key()),
            forall|k: int| 0 <= k < i ==> ts@[k].topic != *topic,
    {
        if ts[i].topic == *topic {
            proof {
                lemma_get_by_index(ts@, task_key(), i as int);
            }
            return Some(i);
        }
    }
    proof {
        assert(!has_key(ts@, task_key(), *topic));
    }
    None
}

/// A copy of `ts` without the element at `skip`.
fn copy_excluding(ts: &Vec<Task>, skip: usize) -> (r: Vec<Task>)
    requires
        skip < ts@.len(),
    ensures
        r@ == ts@.remove(skip as int),
{
    let n = ts.len();
    let mut out: Vec<Task> = Vec::new();
    for i in 0..n
        invariant
            n == ts@.len(),
            skip < n,
            i <= skip ==> out@ =~= ts@.subrange(0, i as int),
            i > skip ==> out@ =~= ts@.remove(skip as int).subrange(0, i - 1),
    {
        if i != skip {
            out.push(ts[i]);
            proof {
                if i < skip {
                    assert(out@ =~= ts@.subrange(0, i + 1 as int));
                } else {
                    assert forall|k: int| 0 <= k < out@.len() implies out@[k] == ts@.remove(
                        skip as int,
                    ).subrange(0, i as int)[k] by {
                        if k < skip {
                            assert(out@[k] == ts@[k]);
                        } else {
                            assert(out@[k] == ts@[k + 1]);
                        }
                    }
                    assert(out@ =~= ts@.remove(skip as int).subrange(0, i as int));
                }
            }
        }
    }
    proof {
        assert(out@ =~= ts@.remove(skip as int));
    }
    out
}

/// A copy of the whole task vector.
fn copy_all(ts: &Vec<Task>) -> (r: Vec<Task>)
    ensures
        r@ == ts@,
{
    copy_range(ts, 0, ts.len())
}

/// A copy of `ts[from..to]`.
fn copy_range(ts: &Vec<Task>, from: usize, to: usize) -> (r: Vec<Task>)
    requires
        from <= to <= ts@.len(),
    ensures
        r@ == ts@.subrange(from as int, to as int),
{
    let mut out: Vec<Task> = Vec::new();
    let mut i = from;
    while i < to
        invariant
            from <= i <= to <= ts@.len(),
            out@ =~= ts@.subrange(from as int, i as int),
        decreases to - i,
    {
        out.push(ts[i]);
        proof {
            assert(out@ =~= ts@.subrange(from as int, i + 1 as int));
        }
        i = i + 1;
    }
    proof {
        assert(out@ =~= ts@.subrange(from as int, to as int));
    }
    out
}

/// Total projected cost of a task vector, clamped into `usize`.
fn total_work(ts: &Vec<Task>) -> (r: usize)
    ensures
        r == sat_usize(sum_work(ts@)),
{
    let n = ts.len();
    let mut acc: usize = 0;
    for i in 0..n
        invariant
            n == ts@.len(),
            acc == sat_usize(sum_work(ts@.subrange(0, i as int))),
    {
        let ghost pfx = ts@.subrange(0, i as int);
        let ghost pfx2 = ts@.subrange(0, i + 1 as int);
        proof {
            assert(pfx2 =~= pfx.push(ts@[i as int]));
            lemma_sum_work_push(pfx, ts@[i as int]);
            lemma_sum_work_nonneg(pfx);
        }
        acc = acc.saturating_add(ts[i].work);
    }
    proof {
        assert(ts@.subrange(0, n as int) =~= ts@);
    }
    acc
}

/// First position whose task does not come before `t` in queue order.
fn find_insert_pos(ts: &Vec<Task>, t: &Task) -> (pos: usize)
    ensures
        pos <= ts@.len(),
        forall|k: int| 0 <= k < pos ==> task_le(ts@[k], *t),
        pos < ts@.len() ==> !task_le(ts@[pos as int], *t),
{
    let n = ts.len();
    for pos in 0..n
        invariant
            n == ts@.len(),
            forall|k: int| 0 <= k < pos ==> task_le(ts@[k], *t),
    {
        let q = &ts[pos];
        let le = q.priority > t.priority || (q.priority == t.priority && q.work <= t.work);
        if !le {
            return pos;
        }
    }
    n
}

/// Insert `t` into a sorted task vector, keeping it sorted.
fn sorted_insert(ts: &mut Vec<Task>, t: Task)
    requires
        unique_keys(old(ts)@, task_key()),
        tasks_sorted(old(ts)@),
        !has_key(old(ts)@, task_key(), t.topic),
    ensures
        unique_keys(final(ts)@, task_key()),
        tasks_sorted(final(ts)@),
        get_by(final(ts)@, task_key(), t.topic) == Some(t),
        forall|i: BlockId|
            i != t.topic ==> get_by(final(ts)@, task_key(), i) == get_by(
                old(ts)@,
                task_key(),
                i,
            ),
{
    let pos = find_insert_pos(ts, &t);
    proof {
        lemma_get_by_insert(ts@, task_key(), pos as int, t);
        let s2 = ts@.insert(pos as int, t);
        assert(tasks_sorted(s2)) by {
            assert forall|a: int, b: int| 0 <= a < b < s2.len() implies task_le(s2[a], s2[b]) by {
                if a == pos {
                    assert(s2[a] == t && s2[b] == ts@[b - 1]);
                    assert(b - 1 >= pos);
                    if b - 1 > pos {
                        assert(task_le(ts@[pos as int], ts@[b - 1]));
                    }
                } else if b == pos {
                    assert(s2[b] == t && s2[a] == ts@[a]);
                } else {
                    let a0 = if a < pos { a } else { a - 1 };
                    let b0 = if b < pos { b } else { b - 1 };
                    assert(s2[a] == ts@[a0] && s2[b] == ts@[b0]);
                }
            }
        }
    }
    ts.insert(pos, t);
}

} // verus!
