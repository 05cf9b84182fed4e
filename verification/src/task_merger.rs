//! The task-merge rule: how a newly pushed task combines with a task already
//! queued for the same `(peer, block)` pair.
//!
//! A later "the block is here" supersedes an earlier "don't have", and a
//! later fetch upgrades a pending probe; the projected on-wire cost is
//! recomputed for the merged combination.

use vstd::prelude::*;

use crate::message::spec_presence_len;
use crate::peer_task_queue::Task;

verus! {

/// Which task supplies the block size: prefer one that has the block; among
/// those, prefer one that wants the block data; ties go to the fresh task.
pub open spec fn spec_merge_source(existing: Task, fresh: Task) -> Task {
    if existing.data.have_block && fresh.data.have_block {
        if existing.data.is_want_block && !fresh.data.is_want_block {
            existing
        } else {
            fresh
        }
    } else if existing.data.have_block {
        existing
    } else {
        fresh
    }
}

/// The merged task for one `(peer, block)` pair.
pub open spec fn spec_merge(existing: Task, fresh: Task) -> Task {
    let have_block = existing.data.have_block || fresh.data.have_block;
    let is_want_block = existing.data.is_want_block || fresh.data.is_want_block;
    let send_dont_have = existing.data.send_dont_have || fresh.data.send_dont_have;
    let priority = if existing.priority >= fresh.priority {
        existing.priority
    } else {
        fresh.priority
    };
    let block_size = spec_merge_source(existing, fresh).data.block_size;
    let work = if have_block && is_want_block {
        block_size as int
    } else {
        spec_presence_len()
    };
    Task {
        topic: existing.topic,
        priority,
        work: work as usize,
        data: crate::peer_task_queue::TaskData {
            block_size,
            have_block,
            is_want_block,
            send_dont_have,
        },
    }
}

/// Merges queued tasks; the unit value carries the default policy.
#[derive(Debug, Clone, Copy, PartialEq, Eq, Structural)]
pub struct TaskMerger;

impl TaskMerger {
    /// Combine the queued task `existing` with the newly pushed `fresh`.
    pub fn merge(existing: &Task, fresh: &Task) -> (r: Task)
        requires
            existing.topic == fresh.topic,
        ensures
            r == spec_merge(*existing, *fresh),
            r.topic == existing.topic,
    {
        let have_block = existing.data.have_block || fresh.data.have_block;
        let is_want_block = existing.data.is_want_block || fresh.data.is_want_block;
        let send_dont_have = existing.data.send_dont_have || fresh.data.send_dont_have;
        let priority = if existing.priority >= fresh.priority {
            existing.priority
        } else {
            fresh.priority
        };
        let source = if existing.data.have_block && fresh.data.have_block {
            if existing.data.is_want_block && !fresh.data.is_want_block {
                existing
            } else {
                fresh
            }
        } else if existing.data.have_block {
            existing
        } else {
            fresh
        };
        let block_size = source.data.block_size;
        let work = if have_block && is_want_block {
            block_size
        } else {
            crate::message::BlockPresence::encoded_len_for_id(&existing.topic)
        };
        Task {
            topic: existing.topic,
            priority,
            work,
            data: crate::peer_task_queue::TaskData {
                block_size,
                have_block,
                is_want_block,
                send_dont_have,
            },
        }
    }
}

} // verus!
