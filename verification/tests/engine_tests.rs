//! Tests of the engine: rounds, tie-breaks, timeouts, scheduling, and
//! two nodes converging end to end.

use sharded_gossip::arc::DhtArc;
use sharded_gossip::engine::ShardedGossipLocal;
use sharded_gossip::fixt::Fixt;
use sharded_gossip::fixt::Fixturator;
use sharded_gossip::fixt::Predictable;
use sharded_gossip::host::AppInfo;
use sharded_gossip::host::CallInfo;
use sharded_gossip::host::DnaInfo;
use sharded_gossip::host::HostContext;
use sharded_gossip::host::HostError;
use sharded_gossip::host::ZomeInfo;
use sharded_gossip::host::agent_info;
use sharded_gossip::host::app_info;
use sharded_gossip::host::call_info;
use sharded_gossip::host::dna_info;
use sharded_gossip::host::zome_info;
use sharded_gossip::examples::EntryTypes;
use sharded_gossip::examples::Msg;
use sharded_gossip::examples::Post;
use sharded_gossip::examples::PrivMsg;
use sharded_gossip::integrate::create;
use sharded_gossip::scheduler::GossipData;
use sharded_gossip::store::GossipStore;
use sharded_gossip::types::AgentInfo;
use sharded_gossip::types::GossipConfig;
use sharded_gossip::types::GossipError;
use sharded_gossip::wire::ShardedGossipWire;
use sharded_gossip::wire::encode;

const SPACE: u64 = 1;

fn full_arc_info(agent: u64, signed_at: u64) -> AgentInfo {
    AgentInfo {
        agent,
        space: SPACE,
        storage_arc: DhtArc::new(0, u32::MAX),
        signed_at,
        expires_at: signed_at + 100_000,
        addr: agent,
        signature: agent,
    }
}

struct Node {
    engine: ShardedGossipLocal,
    store: GossipStore,
}

fn node(agent: u64) -> Node {
    let mut engine = ShardedGossipLocal::new(SPACE, GossipConfig::default());
    engine.local_agent_join(agent);
    let mut store = GossipStore::new(SPACE);
    store.store_agent_info(full_arc_info(1, 10));
    store.store_agent_info(full_arc_info(2, 10));
    Node { engine, store }
}

#[test]
fn initiate_error_cases() {
    let mut engine = ShardedGossipLocal::new(SPACE, GossipConfig::default());
    let store = GossipStore::new(SPACE);
    // No local agent yet.
    assert_eq!(
        engine.initiate(&store, 9, 2, 100).unwrap_err(),
        GossipError::NoLocalAgents
    );
    engine.local_agent_join(1);
    // The peer has no stored record.
    assert_eq!(engine.initiate(&store, 9, 2, 100).unwrap_err(), GossipError::UnknownPeer);
    // With a record, initiating works and the peer becomes busy.
    let mut store = store;
    store.store_agent_info(full_arc_info(2, 10));
    let msgs = engine.initiate(&store, 9, 2, 100).unwrap();
    assert_eq!(msgs.len(), 1);
    assert!(matches!(msgs[0], ShardedGossipWire::Initiate { .. }));
    assert!(engine.is_busy(9));
    // A second initiate toward the same peer is refused.
    assert_eq!(
        engine.initiate(&store, 9, 2, 101).unwrap_err(),
        GossipError::RoundAlreadyActive
    );
}

#[test]
fn initiate_defers_at_concurrency_cap() {
    let mut config = GossipConfig::default();
    config.max_concurrent_rounds = 1;
    let mut engine = ShardedGossipLocal::new(SPACE, config);
    engine.local_agent_join(1);
    let mut store = GossipStore::new(SPACE);
    store.store_agent_info(full_arc_info(2, 10));
    store.store_agent_info(full_arc_info(3, 10));
    assert_eq!(engine.initiate(&store, 2, 2, 100).unwrap().len(), 1);
    // The cap is reached: the attempt is deferred, not an error.
    assert_eq!(engine.initiate(&store, 3, 3, 100).unwrap().len(), 0);
    assert!(!engine.is_busy(3));
}

#[test]
fn round_single_ownership_under_concurrent_initiates() {
    let mut n = node(1);
    // A remote peer (agent 2, certificate 7) opens a round.
    let msgs = n
        .engine
        .incoming_initiate(
            &n.store,
            7,
            vec![sharded_gossip::arc::ArcInterval::Full],
            2,
            1000,
            sample_bloom(),
            sample_bloom(),
            1000,
        )
        .unwrap();
    assert_eq!(msgs.len(), 3);
    assert!(n.engine.is_busy(7));
    assert_eq!(n.engine.active_rounds(), 1);
    // An older concurrent opening for the same certificate is dropped.
    let msgs = n
        .engine
        .incoming_initiate(
            &n.store,
            7,
            vec![sharded_gossip::arc::ArcInterval::Full],
            2,
            999,
            sample_bloom(),
            sample_bloom(),
            1001,
        )
        .unwrap();
    assert!(msgs.is_empty());
    assert_eq!(n.engine.active_rounds(), 1);
    // A newer one replaces the round; still exactly one per certificate.
    let msgs = n
        .engine
        .incoming_initiate(
            &n.store,
            7,
            vec![sharded_gossip::arc::ArcInterval::Full],
            2,
            2000,
            sample_bloom(),
            sample_bloom(),
            1002,
        )
        .unwrap();
    assert_eq!(msgs.len(), 3);
    assert_eq!(n.engine.active_rounds(), 1);
    assert!(n.engine.is_busy(7));
}

fn sample_bloom() -> sharded_gossip::bloom::BloomFilter {
    sharded_gossip::bloom::BloomFilter::new(1, 10, 7)
}

#[test]
fn timeout_frees_the_peer() {
    let mut n = node(1);
    n.engine.initiate(&n.store, 7, 2, 1000).unwrap();
    assert!(n.engine.is_busy(7));
    // Within the deadline nothing happens.
    let timed_out = n.engine.tick(1000 + 29_999);
    assert!(timed_out.is_empty());
    assert!(n.engine.is_busy(7));
    // Past the deadline the round is purged and the peer is free again.
    let timed_out = n.engine.tick(1000 + 30_001);
    assert_eq!(timed_out, vec![7]);
    assert!(!n.engine.is_busy(7));
    // The peer can be tried again at once.
    assert_eq!(n.engine.initiate(&n.store, 7, 2, 40_000).unwrap().len(), 1);
}

#[test]
fn stale_messages_are_dropped_or_refused() {
    let mut n = node(1);
    // An Accept with no round is quietly dropped.
    let r = n.engine.incoming_accept(&n.store, 9, 0, sample_bloom(), sample_bloom(), 10);
    assert_eq!(r.unwrap().len(), 0);
    // An Agents request with no round is refused.
    let r = n.engine.incoming_agents(&n.store, 9, sample_bloom(), 10);
    assert_eq!(r.unwrap_err(), GossipError::NoRoundForPeer);
    // A MissingOps push with no round changes nothing.
    let r = n.engine.incoming_missing_ops(&mut n.store, 9, vec![(1, vec![1])], true, 10);
    assert_eq!(r.unwrap().len(), 0);
    assert_eq!(n.store.ops.len(), 0);
}

#[test]
fn accept_with_wrong_digest_errors_the_round() {
    let mut n = node(1);
    n.engine.initiate(&n.store, 7, 2, 1000).unwrap();
    let r = n.engine.incoming_accept(&n.store, 7, 0xBAD, sample_bloom(), sample_bloom(), 1001);
    assert_eq!(r.unwrap_err(), GossipError::ArcDigestMismatch);
    // The round is purged; a fresh round may start on the next pass.
    assert!(!n.engine.is_busy(7));
}

#[test]
fn bad_frame_fails_only_that_frame() {
    let mut n = node(1);
    let r = n.engine.incoming_gossip(&mut n.store, 7, &[42, 42], 10);
    assert_eq!(r.unwrap_err(), GossipError::BadWireData);
    assert_eq!(n.engine.active_rounds(), 0);
    assert_eq!(n.store.ops.len(), 0);
}

/// Drive one full round between two nodes, moving every message as an
/// encoded frame, until neither side has anything left to send.
fn run_round(a: &mut Node, b: &mut Node, cert_a: u64, cert_b: u64, now: u64) {
    let opening = a.engine.initiate(&a.store, cert_b, 2, now).unwrap();
    // Queues of frames in flight toward each node.
    let mut to_b: Vec<Vec<u8>> = opening.iter().map(|m| encode(m)).collect();
    let mut to_a: Vec<Vec<u8>> = Vec::new();
    let mut steps = 0;
    while !to_a.is_empty() || !to_b.is_empty() {
        steps += 1;
        assert!(steps < 100, "round did not settle");
        if let Some(frame) = to_b.pop() {
            let replies = b.engine.incoming_gossip(&mut b.store, cert_a, &frame, now).unwrap();
            to_a.extend(replies.iter().map(|m| encode(m)));
        } else if let Some(frame) = to_a.pop() {
            let replies = a.engine.incoming_gossip(&mut a.store, cert_b, &frame, now).unwrap();
            to_b.extend(replies.iter().map(|m| encode(m)));
        }
    }
}

#[test]
fn two_nodes_converge_end_to_end() {
    let mut a = node(1);
    let mut b = node(2);
    let mut hashes = Vec::new();
    for payload in [vec![1], vec![2], vec![3]] {
        hashes.push(create(&mut a.store, payload, 10));
    }
    for payload in [vec![3], vec![4], vec![5]] {
        hashes.push(create(&mut b.store, payload, 10));
    }
    run_round(&mut a, &mut b, 1, 2, 1000);
    // Both stores hold exactly the five distinct ops, no duplicates.
    assert_eq!(a.store.ops.len(), 5);
    assert_eq!(b.store.ops.len(), 5);
    for h in &hashes {
        assert!(a.store.get_op(*h).is_some());
        assert!(b.store.get_op(*h).is_some());
    }
    // The round completed on both sides and the peers are resting.
    assert!(!a.engine.is_busy(2));
    assert!(!b.engine.is_busy(1));
    assert!(a.engine.in_cooldown(2, 1000));
    assert!(b.engine.in_cooldown(1, 1000));
    // A later round finds nothing more to exchange.
    let before_a = a.store.ops.len();
    a.engine.tick(100_000);
    b.engine.tick(100_000);
    run_round(&mut a, &mut b, 1, 2, 200_000);
    assert_eq!(a.store.ops.len(), before_a);
    assert_eq!(b.store.ops.len(), 5);
}

#[test]
fn newer_agent_info_supersedes_older() {
    let mut a = node(1);
    let mut b = node(2);
    // Node A refreshes its own record at a later signing time.
    a.store.store_agent_info(full_arc_info(1, 500));
    run_round(&mut a, &mut b, 1, 2, 1000);
    // B now holds exactly one record for agent 1, the newer one.
    let records: Vec<_> = b.store.agents.iter().filter(|r| r.agent == 1).collect();
    assert_eq!(records.len(), 1);
    assert_eq!(records[0].signed_at, 500);
    // Replaying the same record changes nothing.
    b.store.store_agent_info(full_arc_info(1, 500));
    assert_eq!(b.store.agents.iter().filter(|r| r.agent == 1).count(), 1);
}

#[test]
fn bad_hash_in_missing_ops_is_dropped_round_continues() {
    let mut n = node(1);
    // A live round with the peer.
    n.engine.initiate(&n.store, 7, 2, 1000).unwrap();
    let good = vec![8, 8];
    let bad_claim = sharded_gossip::hashing::content_hash(&[0, 0]);
    let items = vec![
        (sharded_gossip::hashing::content_hash(&good), good.clone()),
        (bad_claim, vec![9, 9, 9]),
    ];
    let r = n.engine.incoming_missing_ops(&mut n.store, 7, items, false, 1001);
    assert!(r.is_ok());
    // The valid item is merged, the forged one is dropped, nothing panics.
    assert_eq!(n.store.ops.len(), 1);
    assert!(n.store.get_op(sharded_gossip::hashing::content_hash(&good)).is_some());
    assert!(n.store.get_op(bad_claim).is_none());
    // The round is still live: the batch was not marked finished.
    assert!(n.engine.is_busy(7));
}

#[test]
fn filters_are_deterministic_across_nodes() {
    // Two engines over equal stores open rounds toward the same peer:
    // the opening frames are byte-for-byte identical.
    let mut x = node(1);
    let mut y = node(1);
    for payload in [vec![7], vec![8]] {
        create(&mut x.store, payload.clone(), 10);
        create(&mut y.store, payload, 10);
    }
    let mx = x.engine.initiate(&x.store, 9, 2, 500).unwrap();
    let my = y.engine.initiate(&y.store, 9, 2, 500).unwrap();
    assert_eq!(encode(&mx[0]), encode(&my[0]));
}

#[test]
fn scheduler_builds_all_pairs_and_pops() {
    let mut sched = GossipData::new();
    let locals = vec![1, 2];
    let remotes = vec![9];
    // First step refills, second starts handing out pairs.
    assert!(sched.take_action(&locals, &remotes).is_none());
    let expected = vec![(1, 2), (1, 9), (2, 9)];
    assert_eq!(sched.pending_gossip_list, expected);
    assert_eq!(sched.take_action(&locals, &remotes), Some((1, 2)));
    assert_eq!(sched.take_action(&locals, &remotes), Some((1, 9)));
    assert_eq!(sched.take_action(&locals, &remotes), Some((2, 9)));
    // Drained: the next step refills again.
    assert!(sched.take_action(&locals, &remotes).is_none());
    assert_eq!(sched.pending_gossip_list.len(), 3);
}

#[test]
fn local_agent_join_and_leave() {
    let mut engine = ShardedGossipLocal::new(SPACE, GossipConfig::default());
    engine.local_agent_join(1);
    engine.local_agent_join(2);
    engine.local_agent_join(1);
    assert_eq!(engine.local_agents, vec![1, 2]);
    engine.local_agent_leave(1);
    assert_eq!(engine.local_agents, vec![2]);
}

#[test]
fn host_info_accessors() {
    let mut ctx = HostContext::new();
    assert_eq!(agent_info(&ctx).unwrap_err(), HostError::NotRegistered);
    assert_eq!(app_info(&ctx).unwrap_err(), HostError::NotRegistered);
    assert_eq!(dna_info(&ctx).unwrap_err(), HostError::NotRegistered);
    assert_eq!(zome_info(&ctx).unwrap_err(), HostError::NotRegistered);
    assert_eq!(call_info(&ctx).unwrap_err(), HostError::NotRegistered);

    ctx.agent = Some(full_arc_info(1, 10));
    ctx.app = Some(AppInfo { app_id: 2, enabled: true });
    ctx.dna = Some(DnaInfo { hash: SPACE, name: 3 });
    ctx.zome = Some(ZomeInfo { name: 4, id: 0 });
    ctx.call = Some(CallInfo { function_name: 5, as_at: 6 });
    assert_eq!(agent_info(&ctx).unwrap(), full_arc_info(1, 10));
    assert_eq!(app_info(&ctx).unwrap(), AppInfo { app_id: 2, enabled: true });
    assert_eq!(dna_info(&ctx).unwrap().hash, SPACE);
    assert_eq!(zome_info(&ctx).unwrap().id, 0);
    assert_eq!(call_info(&ctx).unwrap().as_at, 6);
}

#[test]
fn fixturator_walks_its_series() {
    let mut f: Fixturator<Predictable, u64> = Fixturator::new();
    assert_eq!(f.index, 0);
    assert_eq!(f.step(), 0);
    assert_eq!(f.step(), 1);
    assert_eq!(f.index, 2);

    struct Sample;
    impl Fixt for Sample {}
    let f2: Fixturator<Predictable, Sample> = Sample::fixturator();
    assert_eq!(f2.index, 0);
}

#[test]
fn example_entries_become_ops() {
    let mut store = GossipStore::new(SPACE);
    let entries = vec![
        EntryTypes::Post(Post(b"hello".to_vec())),
        EntryTypes::Msg(Msg(b"hi".to_vec())),
        EntryTypes::PrivMsg(PrivMsg(b"psst".to_vec())),
    ];
    for e in &entries {
        let payload = e.to_payload();
        assert_eq!(payload[0], match e {
            EntryTypes::Post(_) => 0,
            EntryTypes::Msg(_) => 1,
            EntryTypes::PrivMsg(_) => 2,
        });
        create(&mut store, payload, 10);
    }
    assert_eq!(store.ops.len(), 3);
}
