//! Tests of the wire codec, the store merge rules, and op integration.

use sharded_gossip::arc::ArcInterval;
use sharded_gossip::arc::ArcSet;
use sharded_gossip::arc::DhtArc;
use sharded_gossip::bloom::BloomFilter;
use sharded_gossip::hashing::content_hash;
use sharded_gossip::integrate::IntegrateDhtOpsWorkspace;
use sharded_gossip::integrate::create;
use sharded_gossip::integrate::integrate_dht_ops_workflow;
use sharded_gossip::store::GossipStore;
use sharded_gossip::types::AgentInfo;
use sharded_gossip::types::GossipError;
use sharded_gossip::types::Op;
use sharded_gossip::wire::ShardedGossipWire;
use sharded_gossip::wire::decode;
use sharded_gossip::wire::encode;
use sharded_gossip::framing::FramingError;
use sharded_gossip::framing::build_message_payload;
use sharded_gossip::framing::parse_message_payload;
use sharded_gossip::scheduler::diff_needs;

fn sample_agent_info(agent: u64, signed_at: u64) -> AgentInfo {
    AgentInfo {
        agent,
        space: 1,
        storage_arc: DhtArc::new(0, u32::MAX),
        signed_at,
        expires_at: signed_at + 1000,
        addr: 7,
        signature: 9,
    }
}

fn sample_bloom() -> BloomFilter {
    let mut b = BloomFilter::new(3, 10, 7);
    b.insert(&1u64.to_le_bytes());
    b
}

#[test]
fn wire_roundtrip_initiate() {
    let msg = ShardedGossipWire::Initiate {
        intervals: vec![
            ArcInterval::Empty,
            ArcInterval::Full,
            ArcInterval::Bounded { start: 5, end: 2 },
        ],
        initiator_agent: 11,
        started_at: 22,
        agent_bloom: sample_bloom(),
        ops_bloom: sample_bloom(),
    };
    let bytes = encode(&msg);
    match decode(&bytes).unwrap() {
        ShardedGossipWire::Initiate {
            intervals,
            initiator_agent,
            started_at,
            agent_bloom,
            ops_bloom,
        } => {
            assert_eq!(
                intervals,
                vec![
                    ArcInterval::Empty,
                    ArcInterval::Full,
                    ArcInterval::Bounded { start: 5, end: 2 },
                ]
            );
            assert_eq!(initiator_agent, 11);
            assert_eq!(started_at, 22);
            assert_eq!(agent_bloom.bits, sample_bloom().bits);
            assert_eq!(ops_bloom.num_hashes, 7);
        }
        other => panic!("wrong variant: {:?}", other),
    }
}

#[test]
fn wire_roundtrip_accept() {
    let msg = ShardedGossipWire::Accept {
        intervals: vec![ArcInterval::Bounded { start: 0, end: 99 }],
        common_digest: 0xDEAD_BEEF,
        agent_bloom: sample_bloom(),
        ops_bloom: sample_bloom(),
    };
    let bytes = encode(&msg);
    match decode(&bytes).unwrap() {
        ShardedGossipWire::Accept { intervals, common_digest, .. } => {
            assert_eq!(intervals, vec![ArcInterval::Bounded { start: 0, end: 99 }]);
            assert_eq!(common_digest, 0xDEAD_BEEF);
        }
        other => panic!("wrong variant: {:?}", other),
    }
}

#[test]
fn wire_roundtrip_small_variants() {
    let bytes = encode(&ShardedGossipWire::NoAgents);
    assert!(matches!(decode(&bytes).unwrap(), ShardedGossipWire::NoAgents));

    let bytes = encode(&ShardedGossipWire::Agents { bloom: sample_bloom() });
    assert!(matches!(decode(&bytes).unwrap(), ShardedGossipWire::Agents { .. }));

    let bytes = encode(&ShardedGossipWire::Ops { bloom: sample_bloom() });
    assert!(matches!(decode(&bytes).unwrap(), ShardedGossipWire::Ops { .. }));

    let msg = ShardedGossipWire::MissingAgents {
        agents: vec![sample_agent_info(3, 100), sample_agent_info(4, 200)],
    };
    let bytes = encode(&msg);
    match decode(&bytes).unwrap() {
        ShardedGossipWire::MissingAgents { agents } => {
            assert_eq!(agents.len(), 2);
            assert_eq!(agents[0], sample_agent_info(3, 100));
            assert_eq!(agents[1], sample_agent_info(4, 200));
        }
        other => panic!("wrong variant: {:?}", other),
    }

    let msg = ShardedGossipWire::MissingOps {
        ops: vec![(content_hash(&[9, 9]), vec![9, 9])],
        finished: true,
    };
    let bytes = encode(&msg);
    match decode(&bytes).unwrap() {
        ShardedGossipWire::MissingOps { ops, finished } => {
            assert!(finished);
            assert_eq!(ops.len(), 1);
            assert_eq!(ops[0].0, content_hash(&[9, 9]));
            assert_eq!(ops[0].1, vec![9, 9]);
        }
        other => panic!("wrong variant: {:?}", other),
    }
}

#[test]
fn wire_rejects_malformed() {
    // Empty frame.
    assert_eq!(decode(&[]).unwrap_err(), GossipError::BadWireData);
    // Unknown tag.
    assert_eq!(decode(&[42]).unwrap_err(), GossipError::BadWireData);
    // Truncated frame.
    let bytes = encode(&ShardedGossipWire::Agents { bloom: sample_bloom() });
    assert_eq!(decode(&bytes[..bytes.len() - 1]).unwrap_err(), GossipError::BadWireData);
    // Trailing garbage.
    let mut bytes = encode(&ShardedGossipWire::NoAgents);
    bytes.push(0);
    assert_eq!(decode(&bytes).unwrap_err(), GossipError::BadWireData);
    // A bool byte that is neither zero nor one.
    let mut bytes = encode(&ShardedGossipWire::MissingOps { ops: vec![], finished: false });
    let last = bytes.len() - 1;
    bytes[last] = 2;
    assert_eq!(decode(&bytes).unwrap_err(), GossipError::BadWireData);
    // A bloom filter claiming zero bits.
    let mut bad = vec![3u8];
    bad.extend_from_slice(&0u64.to_le_bytes());
    bad.extend_from_slice(&7u32.to_le_bytes());
    assert_eq!(decode(&bad).unwrap_err(), GossipError::BadWireData);
}

#[test]
fn store_op_merge_is_idempotent() {
    let mut store = GossipStore::new(1);
    let h = create(&mut store, vec![1, 2, 3], 10);
    assert_eq!(store.ops.len(), 1);
    // Same op again: nothing changes.
    let h2 = create(&mut store, vec![1, 2, 3], 20);
    assert_eq!(h, h2);
    assert_eq!(store.ops.len(), 1);
    assert_eq!(store.ops[0].stored_at, 10);
    // Direct store of an equal op: still nothing.
    store.store_op(Op::new(vec![1, 2, 3], 30));
    assert_eq!(store.ops.len(), 1);
}

#[test]
fn store_agent_info_last_write_wins() {
    let mut store = GossipStore::new(1);
    store.store_agent_info(sample_agent_info(5, 100));
    assert_eq!(store.agents.len(), 1);
    // An older record for the same agent is a no-op.
    store.store_agent_info(sample_agent_info(5, 50));
    assert_eq!(store.agents.len(), 1);
    assert_eq!(store.agents[0].signed_at, 100);
    // The same record again is a no-op.
    store.store_agent_info(sample_agent_info(5, 100));
    assert_eq!(store.agents.len(), 1);
    assert_eq!(store.agents[0].signed_at, 100);
    // A strictly newer record replaces the old one.
    store.store_agent_info(sample_agent_info(5, 200));
    assert_eq!(store.agents.len(), 1);
    assert_eq!(store.agents[0].signed_at, 200);
    // A different agent gets its own record.
    store.store_agent_info(sample_agent_info(6, 10));
    assert_eq!(store.agents.len(), 2);
}

#[test]
fn store_queries_follow_eligibility() {
    let mut store = GossipStore::new(1);
    let h1 = create(&mut store, vec![1], 10);
    let h2 = create(&mut store, vec![2], 20);
    let full = ArcSet::new_full();
    let hashes = store.op_hashes_in_arc(&full, 0, u64::MAX);
    assert_eq!(hashes.len(), 2);
    assert!(hashes.contains(&h1));
    assert!(hashes.contains(&h2));
    // A time window can exclude ops.
    let recent = store.op_hashes_in_arc(&full, 15, u64::MAX);
    assert_eq!(recent, vec![h2]);
    // An empty arc set holds nothing.
    let none = store.op_hashes_in_arc(&ArcSet::new_empty(), 0, u64::MAX);
    assert!(none.is_empty());
    // Payload fetch skips unknown hashes.
    let data = store.op_data(&vec![h1, 0xFFFF]);
    assert_eq!(data.len(), 1);
    assert_eq!(data[0].0, h1);
    assert_eq!(data[0].1, vec![1]);
    // One answer per found request entry, in request order.
    let data = store.op_data(&vec![h2, 0xFFFF, h1, h2]);
    let answered: Vec<u64> = data.iter().map(|p| p.0).collect();
    assert_eq!(answered, vec![h2, h1, h2]);
    assert!(store.get_op(h2).is_some());
    assert!(store.get_op(0xFFFF).is_none());
}

#[test]
fn integrate_drops_bad_hash_keeps_rest() {
    let mut store = GossipStore::new(1);
    let mut ws = IntegrateDhtOpsWorkspace::new();
    let good1 = vec![10, 11];
    let good2 = vec![12, 13];
    ws.queue_op(content_hash(&good1), good1.clone());
    // An item whose claimed hash does not match its payload.
    ws.queue_op(content_hash(&[99, 99]), vec![1, 1]);
    ws.queue_op(content_hash(&good2), good2.clone());
    let (integrated, rejected) = integrate_dht_ops_workflow(&mut ws, &mut store, 50);
    assert_eq!(integrated, 2);
    assert_eq!(rejected, 1);
    assert_eq!(store.ops.len(), 2);
    assert!(store.get_op(content_hash(&good1)).is_some());
    assert!(store.get_op(content_hash(&good2)).is_some());
    assert!(store.get_op(content_hash(&[99, 99])).is_none());
    assert!(ws.integration_queue.is_empty());
}

#[test]
fn integrate_is_idempotent() {
    let mut store = GossipStore::new(1);
    let payload = vec![5, 5, 5];
    for _ in 0..2 {
        let mut ws = IntegrateDhtOpsWorkspace::new();
        ws.queue_op(content_hash(&payload), payload.clone());
        integrate_dht_ops_workflow(&mut ws, &mut store, 60);
    }
    assert_eq!(store.ops.len(), 1);
}

#[test]
fn call_frame_roundtrip() {
    let binary = vec![1, 2, 3, 4, 5];
    let content = vec![9, 8, 7];
    let frame = build_message_payload(&binary, &content);
    let (b2, c2) = parse_message_payload(&frame).unwrap();
    assert_eq!(b2, binary);
    assert_eq!(c2, content);
    // An empty attachment and empty content still frame correctly.
    let frame = build_message_payload(&vec![], &vec![]);
    let (b2, c2) = parse_message_payload(&frame).unwrap();
    assert!(b2.is_empty());
    assert!(c2.is_empty());
    // Too short for the prefix.
    assert_eq!(parse_message_payload(&[0, 0, 0]).unwrap_err(), FramingError::TooShort);
    // The prefix claims more attachment than the frame holds.
    let bad = vec![10, 0, 0, 0, 1, 2];
    assert_eq!(parse_message_payload(&bad).unwrap_err(), FramingError::BinaryOverrun);
}

#[test]
fn full_sync_diff_directions() {
    let from_has = vec![1, 2, 3];
    let to_has = vec![3, 4, 5];
    let (from_needs, to_needs) = diff_needs(&from_has, &to_has);
    assert_eq!(from_needs, vec![4, 5]);
    assert_eq!(to_needs, vec![1, 2]);
    // Equal sets need nothing.
    let (fe, te) = diff_needs(&from_has, &from_has);
    assert!(fe.is_empty());
    assert!(te.is_empty());
}
