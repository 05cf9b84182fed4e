use iroh::block::{Block, BlockId, PeerId};
use iroh::peer_task_queue::{PeerTaskQueue, Task, TaskData};
use iroh::store::BlockstoreManager;
use iroh::decision::{AllowAllFilter, Config, DenyListFilter, Engine, Envelope, RecordingScoreHandler};
use iroh::message::{BlockPresence, Entry, Message, PresenceKind, WantKind};
use iroh::store::Store;

fn pid(n: u64) -> PeerId {
    PeerId { id: n }
}

fn bid(n: u64) -> BlockId {
    BlockId { key: n }
}

fn block(n: u64, len: usize) -> Block {
    Block::new(bid(n), vec![7u8; len])
}

fn want(id: BlockId, kind: WantKind, sdh: bool) -> Entry {
    Entry { id, priority: 1, kind, cancel: false, send_dont_have: sdh }
}

fn cancel(id: BlockId) -> Entry {
    Entry { id, priority: 1, kind: WantKind::Fetch, cancel: true, send_dont_have: false }
}

fn msg(full: bool, entries: Vec<Entry>) -> Message {
    let mut m = Message::new(full);
    for e in entries {
        m.push_entry(e);
    }
    m
}

fn engine(store: Store) -> Engine<AllowAllFilter> {
    Engine::new(store, pid(0), Config::default(), None)
}

fn drain(e: &mut Engine<AllowAllFilter>) -> Vec<Envelope> {
    let mut out = Vec::new();
    loop {
        e.peer_task_queue.thaw_round();
        match e.next_envelope() {
            Some(env) => {
                let tasks = env.sent_tasks.clone();
                let peer = env.peer;
                out.push(env);
                e.peer_task_queue.tasks_done(peer, &tasks);
            }
            None => return out,
        }
    }
}

#[test]
fn single_probe_block_present_upgrades() {
    let mut store = Store::new();
    store.put(block(1, 200));
    let mut e = engine(store);
    e.peer_connected(&pid(1));
    let new_work = e.message_received(&pid(1), &msg(true, vec![want(bid(1), WantKind::Probe, true)]));
    assert!(new_work);
    let envs = drain(&mut e);
    assert_eq!(envs.len(), 1);
    assert_eq!(envs[0].peer, pid(1));
    assert_eq!(envs[0].message.blocks.len(), 1);
    assert_eq!(envs[0].message.blocks[0].id, bid(1));
    assert_eq!(envs[0].message.blocks[0].data, vec![7u8; 200]);
    assert!(envs[0].message.block_presences.is_empty());
}

#[test]
fn single_probe_oversized_block_sends_have() {
    let mut store = Store::new();
    store.put(block(2, 2048));
    let mut e = engine(store);
    e.peer_connected(&pid(1));
    e.message_received(&pid(1), &msg(false, vec![want(bid(2), WantKind::Probe, true)]));
    let envs = drain(&mut e);
    assert_eq!(envs.len(), 1);
    assert!(envs[0].message.blocks.is_empty());
    assert_eq!(
        envs[0].message.block_presences,
        vec![BlockPresence { id: bid(2), typ: PresenceKind::Have }]
    );
}

#[test]
fn fetch_absent_block_sends_dont_have() {
    let mut e = engine(Store::new());
    e.peer_connected(&pid(1));
    e.message_received(&pid(1), &msg(false, vec![want(bid(3), WantKind::Fetch, true)]));
    let envs = drain(&mut e);
    assert_eq!(envs.len(), 1);
    assert!(envs[0].message.blocks.is_empty());
    assert_eq!(
        envs[0].message.block_presences,
        vec![BlockPresence { id: bid(3), typ: PresenceKind::DontHave }]
    );
}

#[test]
fn fetch_absent_without_dont_have_is_silent() {
    let mut e = engine(Store::new());
    e.peer_connected(&pid(1));
    let new_work = e.message_received(&pid(1), &msg(false, vec![want(bid(3), WantKind::Fetch, false)]));
    assert!(!new_work);
    assert!(drain(&mut e).is_empty());
}

#[test]
fn cancel_before_pop_suppresses_send() {
    let mut store = Store::new();
    store.put(block(4, 100));
    let mut e = engine(store);
    e.peer_connected(&pid(1));
    e.message_received(&pid(1), &msg(false, vec![want(bid(4), WantKind::Fetch, true)]));
    e.message_received(&pid(1), &msg(false, vec![cancel(bid(4))]));
    let envs = drain(&mut e);
    for env in &envs {
        assert!(env.message.blocks.iter().all(|b| b.id != bid(4)));
        assert!(env.message.block_presences.iter().all(|p| p.id != bid(4)));
    }
    assert!(envs.is_empty());
}

#[test]
fn notify_new_blocks_serves_every_waiter() {
    let mut e = engine(Store::new());
    e.peer_connected(&pid(1));
    e.peer_connected(&pid(2));
    e.message_received(&pid(1), &msg(false, vec![want(bid(5), WantKind::Fetch, true)]));
    e.message_received(&pid(2), &msg(false, vec![want(bid(5), WantKind::Fetch, true)]));
    // both waiters get a DontHave first; the block is not in the store yet
    let negatives = drain(&mut e);
    assert_eq!(negatives.len(), 2);
    let new_work = e.notify_new_blocks(&vec![block(5, 64)]);
    assert!(new_work);
    let envs = drain(&mut e);
    assert_eq!(envs.len(), 2);
    let mut peers: Vec<u64> = envs.iter().map(|env| env.peer.id).collect();
    peers.sort();
    assert_eq!(peers, vec![1, 2]);
    for env in &envs {
        assert_eq!(env.message.blocks.len(), 1);
        assert_eq!(env.message.blocks[0].id, bid(5));
    }
}

#[test]
fn size_budget_splits_envelopes() {
    let mut store = Store::new();
    store.put(block(61, 10 * 1024));
    store.put(block(62, 10 * 1024));
    let mut e = engine(store);
    e.peer_connected(&pid(1));
    e.message_received(
        &pid(1),
        &msg(
            false,
            vec![want(bid(61), WantKind::Fetch, true), want(bid(62), WantKind::Fetch, true)],
        ),
    );
    // default target_message_size is 16 KiB: only one 10 KiB block fits
    let first = e.next_envelope().expect("first envelope");
    assert_eq!(first.message.blocks.len(), 1);
    let first_tasks = first.sent_tasks.clone();
    let second = e.next_envelope().expect("second envelope");
    assert_eq!(second.message.blocks.len(), 1);
    assert_ne!(first.message.blocks[0].id, second.message.blocks[0].id);
    e.peer_task_queue.tasks_done(pid(1), &first_tasks);
    e.peer_task_queue.tasks_done(pid(1), &second.sent_tasks);
    assert!(e.next_envelope().is_none());
}

#[test]
fn backpressure_delays_second_envelope() {
    let mut store = Store::new();
    store.put(block(61, 10 * 1024));
    store.put(block(62, 10 * 1024));
    let mut e: Engine<AllowAllFilter> = Engine::new(
        store,
        pid(0),
        Config { max_outstanding_bytes_per_peer: 10 * 1024, ..Config::default() },
        None,
    );
    e.peer_connected(&pid(1));
    e.message_received(
        &pid(1),
        &msg(
            false,
            vec![want(bid(61), WantKind::Fetch, true), want(bid(62), WantKind::Fetch, true)],
        ),
    );
    let first = e.next_envelope().expect("first envelope");
    // 10 KiB outstanding meets the 10 KiB limit: the peer is not eligible again
    assert!(e.next_envelope().is_none());
    e.peer_task_queue.tasks_done(pid(1), &first.sent_tasks);
    let second = e.next_envelope().expect("second envelope");
    assert_ne!(first.message.blocks[0].id, second.message.blocks[0].id);
}

#[test]
fn coalescing_probe_then_fetch_sends_block_once() {
    let mut store = Store::new();
    store.put(block(7, 2048));
    let mut e = engine(store);
    e.peer_connected(&pid(1));
    // 2048 > max_replace_size, so the probe alone would only send Have
    e.message_received(&pid(1), &msg(false, vec![want(bid(7), WantKind::Probe, true)]));
    e.message_received(&pid(1), &msg(false, vec![want(bid(7), WantKind::Fetch, true)]));
    let envs = drain(&mut e);
    assert_eq!(envs.len(), 1);
    assert_eq!(envs[0].message.blocks.len(), 1);
    assert_eq!(envs[0].message.blocks[0].id, bid(7));
    assert!(envs[0].message.block_presences.is_empty());
}

#[test]
fn full_wantlist_replaces_old_wants() {
    let mut store = Store::new();
    store.put(block(8, 50));
    store.put(block(9, 50));
    let mut e = engine(store);
    e.peer_connected(&pid(1));
    e.message_received(&pid(1), &msg(false, vec![want(bid(8), WantKind::Fetch, true)]));
    // a full message drops the earlier want for block 8
    e.message_received(&pid(1), &msg(true, vec![want(bid(9), WantKind::Fetch, true)]));
    let wl = e.wantlist_for_peer(&pid(1));
    assert_eq!(wl.len(), 1);
    assert_eq!(wl[0].id, bid(9));
    let envs = drain(&mut e);
    assert_eq!(envs.len(), 1);
    assert_eq!(envs[0].message.blocks.len(), 1);
    assert_eq!(envs[0].message.blocks[0].id, bid(9));
}

#[test]
fn no_duplicate_tasks_for_repeated_want() {
    let mut store = Store::new();
    store.put(block(10, 50));
    let mut e = engine(store);
    e.peer_connected(&pid(1));
    e.message_received(&pid(1), &msg(false, vec![want(bid(10), WantKind::Fetch, true)]));
    e.message_received(&pid(1), &msg(false, vec![want(bid(10), WantKind::Fetch, true)]));
    let (_, pending) = e.peer_task_queue.stats();
    assert_eq!(pending, 1);
}

#[test]
fn disconnect_purges_peer() {
    let mut store = Store::new();
    store.put(block(11, 50));
    let mut e = engine(store);
    e.peer_connected(&pid(1));
    e.message_received(&pid(1), &msg(false, vec![want(bid(11), WantKind::Fetch, true)]));
    e.peer_disconnected(&pid(1));
    assert!(e.peers().is_empty());
    assert!(e.wantlist_for_peer(&pid(1)).is_empty());
    assert!(e.ledger_for_peer(&pid(1)).is_none());
    assert!(drain(&mut e).is_empty());
}

#[test]
fn connect_disconnect_connect_is_one_connect() {
    let mut e1 = engine(Store::new());
    e1.peer_connected(&pid(1));
    e1.peer_disconnected(&pid(1));
    e1.peer_connected(&pid(1));
    let mut e2 = engine(Store::new());
    e2.peer_connected(&pid(1));
    assert_eq!(e1.peers(), e2.peers());
    assert_eq!(e1.wantlist_for_peer(&pid(1)), e2.wantlist_for_peer(&pid(1)));
    assert_eq!(e1.ledger_for_peer(&pid(1)), e2.ledger_for_peer(&pid(1)));
    assert!(drain(&mut e1).is_empty() && drain(&mut e2).is_empty());
}

#[test]
fn want_cancel_want_is_one_want() {
    let mut store = Store::new();
    store.put(block(12, 50));
    let mut a = engine(store.clone());
    a.peer_connected(&pid(1));
    a.message_received(&pid(1), &msg(false, vec![want(bid(12), WantKind::Fetch, true)]));
    a.message_received(&pid(1), &msg(false, vec![cancel(bid(12))]));
    a.message_received(&pid(1), &msg(false, vec![want(bid(12), WantKind::Fetch, true)]));
    let mut b = engine(store);
    b.peer_connected(&pid(1));
    b.message_received(&pid(1), &msg(false, vec![want(bid(12), WantKind::Fetch, true)]));
    assert_eq!(a.wantlist_for_peer(&pid(1)), b.wantlist_for_peer(&pid(1)));
    let ea = drain(&mut a);
    let eb = drain(&mut b);
    assert_eq!(ea.len(), 1);
    assert_eq!(eb.len(), 1);
    assert_eq!(ea[0].message.blocks, eb[0].message.blocks);
}

#[test]
fn sent_bytes_only_increase() {
    let mut e = engine(Store::new());
    e.peer_connected(&pid(1));
    let mut sent_msg = Message::new(false);
    sent_msg.add_block(block(13, 300));
    e.message_sent(&pid(1), &sent_msg);
    let r1 = e.ledger_for_peer(&pid(1)).unwrap();
    assert_eq!(r1.sent, 300);
    e.message_sent(&pid(1), &sent_msg);
    let r2 = e.ledger_for_peer(&pid(1)).unwrap();
    assert_eq!(r2.sent, 600);
    assert!(r2.sent >= r1.sent);
}

#[test]
fn score_grows_with_sent_bytes() {
    let mut e = engine(Store::new());
    e.peer_connected(&pid(1));
    let mut sent_msg = Message::new(false);
    sent_msg.add_block(block(14, 4096));
    e.message_sent(&pid(1), &sent_msg);
    let r = e.ledger_for_peer(&pid(1)).unwrap();
    assert_eq!(r.sent, 4096);
    assert_eq!(r.score, 4);
}

#[test]
fn received_blocks_are_credited() {
    let mut e = engine(Store::new());
    e.peer_connected(&pid(1));
    e.received_blocks(&pid(1), &vec![block(15, 128), block(16, 72)]);
    let r = e.ledger_for_peer(&pid(1)).unwrap();
    assert_eq!(r.recv, 200);
    assert_eq!(r.sent, 0);
}

#[test]
fn message_sent_trims_satisfied_wants() {
    let mut store = Store::new();
    store.put(block(17, 50));
    let mut e = engine(store);
    e.peer_connected(&pid(1));
    e.message_received(&pid(1), &msg(false, vec![want(bid(17), WantKind::Fetch, true)]));
    assert_eq!(e.wantlist_for_peer(&pid(1)).len(), 1);
    let mut sent_msg = Message::new(false);
    sent_msg.add_block(block(17, 50));
    e.message_sent(&pid(1), &sent_msg);
    assert!(e.wantlist_for_peer(&pid(1)).is_empty());
}

#[test]
fn deny_filter_answers_with_dont_have() {
    let mut store = Store::new();
    store.put(block(18, 50));
    let filter = DenyListFilter { denied: vec![(pid(1), bid(18))] };
    let mut e: Engine<DenyListFilter> = Engine::new(store, pid(0), Config::default(), Some(filter));
    e.peer_connected(&pid(1));
    e.message_received(&pid(1), &msg(false, vec![want(bid(18), WantKind::Fetch, true)]));
    // the denied want is not recorded
    assert!(e.wantlist_for_peer(&pid(1)).is_empty());
    e.peer_task_queue.thaw_round();
    let env = e.next_envelope().expect("denial envelope");
    assert!(env.message.blocks.is_empty());
    assert_eq!(
        env.message.block_presences,
        vec![BlockPresence { id: bid(18), typ: PresenceKind::DontHave }]
    );
}

#[test]
fn unknown_peer_is_auto_connected() {
    let mut store = Store::new();
    store.put(block(19, 50));
    let mut e = engine(store);
    let new_work = e.message_received(&pid(9), &msg(false, vec![want(bid(19), WantKind::Fetch, true)]));
    assert!(new_work);
    assert_eq!(e.peers(), vec![pid(9)]);
    let envs = drain(&mut e);
    assert_eq!(envs.len(), 1);
    assert_eq!(envs[0].peer, pid(9));
}

#[test]
fn stop_makes_ingress_a_no_op() {
    let mut store = Store::new();
    store.put(block(20, 50));
    let mut e = engine(store);
    e.peer_connected(&pid(1));
    e.stop();
    e.stop();
    let new_work = e.message_received(&pid(1), &msg(false, vec![want(bid(20), WantKind::Fetch, true)]));
    assert!(!new_work);
    assert!(e.next_envelope().is_none());
    e.peer_connected(&pid(2));
    assert_eq!(e.peers(), vec![pid(1)]);
}

#[test]
fn config_defaults_match() {
    let c = Config::default();
    assert_eq!(c.engine_task_worker_count, 8);
    assert!(c.send_dont_haves);
    assert_eq!(c.engine_blockstore_worker_count, 128);
    assert_eq!(c.target_message_size, 16 * 1024);
    assert_eq!(c.max_outstanding_bytes_per_peer, 1024 * 1024);
    assert_eq!(c.max_replace_size, 1024);
}

#[test]
fn presence_encoding_length_is_stable() {
    assert_eq!(BlockPresence::encoded_len_for_id(&bid(1)), 42);
    assert_eq!(BlockPresence::encoded_len_for_id(&bid(999)), 42);
}

#[test]
fn pending_bytes_announce_remaining_work() {
    let mut store = Store::new();
    store.put(block(21, 10 * 1024));
    store.put(block(22, 10 * 1024));
    let mut e = engine(store);
    e.peer_connected(&pid(1));
    e.message_received(
        &pid(1),
        &msg(
            false,
            vec![want(bid(21), WantKind::Fetch, true), want(bid(22), WantKind::Fetch, true)],
        ),
    );
    let first = e.next_envelope().expect("first envelope");
    // one 10 KiB block is still queued after the first pop
    assert_eq!(first.message.pending_bytes, 10 * 1024);
}

#[test]
fn batched_gateway_lookups_skip_missing_blocks() {
    let mut store = Store::new();
    store.put(block(30, 10));
    store.put(block(31, 20));
    let manager = BlockstoreManager::new(store, 128);
    assert!(manager.has(&bid(30)));
    assert!(!manager.has(&bid(32)));
    assert_eq!(manager.get_size(&bid(31)), Some(20));
    let ids = vec![bid(30), bid(31), bid(32)];
    let sizes = manager.get_block_sizes(&ids);
    let mut found: Vec<(u64, usize)> = sizes.iter().map(|e| (e.id.key, e.size)).collect();
    found.sort();
    assert_eq!(found, vec![(30, 10), (31, 20)]);
    let blocks = manager.get_blocks(&ids);
    let mut got: Vec<u64> = blocks.iter().map(|b| b.id.key).collect();
    got.sort();
    assert_eq!(got, vec![30, 31]);
}

#[test]
fn pushed_tasks_merge_per_block() {
    let mut q = PeerTaskQueue::new(0);
    let probe = Task {
        topic: bid(40),
        priority: 1,
        work: 42,
        data: TaskData {
            block_size: 2048,
            have_block: true,
            is_want_block: false,
            send_dont_have: false,
        },
    };
    let fetch = Task {
        topic: bid(40),
        priority: 5,
        work: 2048,
        data: TaskData {
            block_size: 2048,
            have_block: true,
            is_want_block: true,
            send_dont_have: true,
        },
    };
    q.push_tasks(pid(1), vec![probe]);
    q.push_tasks(pid(1), vec![fetch]);
    let (_, pending) = q.stats();
    assert_eq!(pending, 1);
    let popped = q.pop_tasks(16 * 1024).expect("one pop");
    assert_eq!(popped.peer, pid(1));
    assert_eq!(popped.tasks.len(), 1);
    let merged = popped.tasks[0];
    assert!(merged.data.have_block);
    assert!(merged.data.is_want_block);
    assert!(merged.data.send_dont_have);
    assert_eq!(merged.priority, 5);
    assert_eq!(merged.work, 2048);
    assert_eq!(popped.pending_bytes, 0);
}

#[test]
fn score_events_are_all_delivered_in_order() {
    let mut e = engine(Store::new());
    e.peer_connected(&pid(1));
    let mut sent_msg = Message::new(false);
    sent_msg.add_block(block(23, 2048));
    e.message_sent(&pid(1), &sent_msg);
    e.message_sent(&pid(1), &sent_msg);
    let mut handler = RecordingScoreHandler::new();
    e.dispatch_score_events(&mut handler);
    let scores: Vec<u32> = handler.events.iter().map(|ev| ev.score).collect();
    assert_eq!(scores, vec![2, 4]);
    assert!(handler.events.iter().all(|ev| ev.peer == pid(1)));
    let mut handler2 = RecordingScoreHandler::new();
    e.dispatch_score_events(&mut handler2);
    assert!(handler2.events.is_empty());
}
