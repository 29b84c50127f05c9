//! Building and evaluating the filters of one round.
//!
//! The builder side takes every local item eligible for the round's common
//! arc set and inserts its key into a fresh filter. The receiver side runs
//! its own eligible items against the peer's filter and collects exactly
//! those that test negative: items the peer provably lacks, queued for
//! push. A false positive only skips a push; it never loses data, because
//! a later round reconciles again.

use vstd::prelude::*;

use crate::arc::ArcSet;
use crate::bloom::BloomFilter;
use crate::bloom::spec_clear_bits;
use crate::bloom::spec_insert_keys;
use crate::hashing::agent_key;
use crate::hashing::op_key;
use crate::hashing::spec_agent_key;
use crate::hashing::spec_agent_loc;
use crate::hashing::spec_op_key;
use crate::store::GossipStore;
use crate::store::clone_bytes;
use crate::store::eligible_agents;
use crate::store::eligible_op_hashes;
use crate::store::has_op;
use crate::store::op_data_form;
use crate::types::AgentInfo;
use crate::types::GossipConfig;

verus! {

/// Whether an agent-info record is eligible for a round: its agent sits
/// inside the common arc set.
pub open spec fn agent_eligible(a: AgentInfo, common: ArcSet) -> bool {
    common.covers(spec_agent_loc(a.agent) as int)
}

/// Whether an op is eligible for a round: its basis sits inside the
/// common arc set.
pub open spec fn op_eligible(basis: u32, common: ArcSet) -> bool {
    common.covers(basis as int)
}

/// Largest item count used to size a filter; more items than this still
/// go in, the filter is just denser.
pub const MAX_BLOOM_SIZING_ITEMS: usize = 0x40_0000;


/// The bit count a filter gets for `n` items at the configured density.
pub open spec fn spec_bloom_size(n: int, bits_per_item: int) -> int {
    let sizing = if n < MAX_BLOOM_SIZING_ITEMS as int {
        n
    } else {
        MAX_BLOOM_SIZING_ITEMS as int
    };
    if sizing * bits_per_item >= 1 {
        sizing * bits_per_item
    } else {
        1
    }
}

/// The bloom keys of a record sequence, in order.
pub open spec fn agent_keys(items: Seq<AgentInfo>) -> Seq<Seq<u8>> {
    Seq::new(items.len(), |i: int| spec_agent_key(items[i].agent, items[i].signed_at))
}

/// The bloom keys of a hash sequence, in order.
pub open spec fn op_keys(hashes: Seq<u64>) -> Seq<Seq<u8>> {
    Seq::new(hashes.len(), |i: int| spec_op_key(hashes[i]))
}

/// What a filter built from `keys` at the given dimensions holds: the
/// deterministic insertion fold over an all-clear array.
pub open spec fn built_bloom_ok(r: BloomFilter, keys: Seq<Seq<u8>>, n: int, config: GossipConfig) -> bool {
    &&& r.num_hashes == config.bloom_num_hashes
    &&& r.num_bits == spec_bloom_size(n, config.bloom_bits_per_item as int)
    &&& r.bits@ == spec_insert_keys(
        spec_clear_bits((r.num_bits + 7) as int / 8),
        keys,
        config.bloom_num_hashes as int,
        r.num_bits as int,
    )
}

/// The records of `eligible` that test negative in the peer's filter, in
/// order, one each.
pub open spec fn missing_agents_seq(eligible: Seq<AgentInfo>, bloom: BloomFilter) -> Seq<AgentInfo>
    decreases eligible.len(),
{
    if eligible.len() == 0 {
        Seq::empty()
    } else {
        let rest = missing_agents_seq(eligible.drop_last(), bloom);
        let a = eligible.last();
        if !bloom.tests_positive(spec_agent_key(a.agent, a.signed_at)) {
            rest.push(a)
        } else {
            rest
        }
    }
}

/// The claimed-hash and payload pairs of the eligible ops that test
/// negative in the peer's filter, in store order, one each.
pub open spec fn missing_ops_seq(ops: Seq<crate::types::Op>, common: ArcSet, bloom: BloomFilter) -> Seq<
    (u64, Seq<u8>),
>
    decreases ops.len(),
{
    if ops.len() == 0 {
        Seq::empty()
    } else {
        let rest = missing_ops_seq(ops.drop_last(), common, bloom);
        let op = ops.last();
        if op_eligible(op.basis, common) && !bloom.tests_positive(spec_op_key(op.hash)) {
            rest.push((op.hash, op.payload@))
        } else {
            rest
        }
    }
}

/// Build the agent filter of a round: every eligible agent-info record's
/// key tests positive in the result.
pub fn build_agent_bloom(store: &GossipStore, common: &ArcSet, config: &GossipConfig) -> (r:
    BloomFilter)
    requires
        store.wf(),
        config.wf(),
    ensures
        r.wf(),
        forall|a: AgentInfo|
            store.agents@.contains(a) && agent_eligible(a, *common) ==> r.tests_positive(
                #[trigger] spec_agent_key(a.agent, a.signed_at),
            ),
        built_bloom_ok(
            r,
            agent_keys(eligible_agents(store.agents@, *common)),
            eligible_agents(store.agents@, *common).len() as int,
            *config,
        ),
{
    let items = store.agent_info_in_arc(common);
    let sizing = if items.len() < MAX_BLOOM_SIZING_ITEMS {
        items.len()
    } else {
        MAX_BLOOM_SIZING_ITEMS
    };
    let mut bloom = BloomFilter::new(sizing, config.bloom_bits_per_item, config.bloom_num_hashes);
    let n = items.len();
    let mut i: usize = 0;
    while i < n
        invariant
            0 <= i <= n,
            n == items@.len(),
            bloom.wf(),
            bloom.num_hashes == config.bloom_num_hashes,
            bloom.num_bits == spec_bloom_size(items@.len() as int, config.bloom_bits_per_item as int),
            bloom.bits@ == spec_insert_keys(
                spec_clear_bits((bloom.num_bits + 7) as int / 8),
                agent_keys(items@.take(i as int)),
                config.bloom_num_hashes as int,
                bloom.num_bits as int,
            ),
            forall|k: int|
                0 <= k < i ==> bloom.tests_positive(
                    #[trigger] spec_agent_key(items@[k].agent, items@[k].signed_at),
                ),
        decreases n - i,
    {
        let key = agent_key(items[i].agent, items[i].signed_at);
        bloom.insert(key.as_slice());
        proof {
            assert(agent_keys(items@.take(i as int)) =~= agent_keys(items@.take(i + 1 as int)).drop_last());
            assert(agent_keys(items@.take(i + 1 as int)).last() == spec_agent_key(
                items@[i as int].agent,
                items@[i as int].signed_at,
            ));
            assert(agent_keys(items@.take(i + 1 as int)).len() == i + 1);
        }
        i += 1;
    }
    proof {
        assert(agent_keys(items@.take(n as int)) =~= agent_keys(items@));
    }
    assert forall|a: AgentInfo|
        store.agents@.contains(a) && agent_eligible(a, *common) implies bloom.tests_positive(
        #[trigger] spec_agent_key(a.agent, a.signed_at),
    ) by {
        assert(items@.contains(a));
        let k = choose|k: int| 0 <= k < items@.len() && items@[k] == a;
        assert(bloom.tests_positive(spec_agent_key(items@[k].agent, items@[k].signed_at)));
    }
    bloom
}

/// Build the op filter of a round: every eligible op's key tests positive
/// in the result.
pub fn build_ops_bloom(store: &GossipStore, common: &ArcSet, config: &GossipConfig) -> (r:
    BloomFilter)
    requires
        store.wf(),
        config.wf(),
    ensures
        r.wf(),
        forall|i: int|
            0 <= i < store.ops@.len() && op_eligible((#[trigger] store.ops@[i]).basis, *common)
                ==> r.tests_positive(spec_op_key(store.ops@[i].hash)),
        built_bloom_ok(
            r,
            op_keys(eligible_op_hashes(store.ops@, *common, 0, u64::MAX)),
            eligible_op_hashes(store.ops@, *common, 0, u64::MAX).len() as int,
            *config,
        ),
{
    let hashes = store.op_hashes_in_arc(common, 0, u64::MAX);
    let sizing = if hashes.len() < MAX_BLOOM_SIZING_ITEMS {
        hashes.len()
    } else {
        MAX_BLOOM_SIZING_ITEMS
    };
    let mut bloom = BloomFilter::new(sizing, config.bloom_bits_per_item, config.bloom_num_hashes);
    let n = hashes.len();
    let mut i: usize = 0;
    while i < n
        invariant
            0 <= i <= n,
            n == hashes@.len(),
            bloom.wf(),
            bloom.num_hashes == config.bloom_num_hashes,
            bloom.num_bits == spec_bloom_size(hashes@.len() as int, config.bloom_bits_per_item as int),
            bloom.bits@ == spec_insert_keys(
                spec_clear_bits((bloom.num_bits + 7) as int / 8),
                op_keys(hashes@.take(i as int)),
                config.bloom_num_hashes as int,
                bloom.num_bits as int,
            ),
            forall|k: int|
                0 <= k < i ==> bloom.tests_positive(#[trigger] spec_op_key(hashes@[k])),
        decreases n - i,
    {
        let key = op_key(hashes[i]);
        bloom.insert(key.as_slice());
        proof {
            assert(op_keys(hashes@.take(i as int)) =~= op_keys(hashes@.take(i + 1 as int)).drop_last());
            assert(op_keys(hashes@.take(i + 1 as int)).last() == spec_op_key(hashes@[i as int]));
            assert(op_keys(hashes@.take(i + 1 as int)).len() == i + 1);
        }
        i += 1;
    }
    proof {
        assert(op_keys(hashes@.take(n as int)) =~= op_keys(hashes@));
    }
    assert forall|i2: int|
        0 <= i2 < store.ops@.len() && op_eligible((store.ops@[i2]).basis, *common)
            implies bloom.tests_positive(#[trigger] spec_op_key(store.ops@[i2].hash)) by {
        let h = store.ops@[i2].hash;
        assert(hashes@.contains(h));
        let k = choose|k: int| 0 <= k < hashes@.len() && hashes@[k] == h;
        assert(bloom.tests_positive(spec_op_key(hashes@[k])));
    }
    bloom
}

/// Evaluate the peer's agent filter against the local store: the records
/// the peer provably lacks, exactly the eligible ones testing negative.
pub fn collect_missing_agents(store: &GossipStore, common: &ArcSet, remote_bloom: &BloomFilter) -> (
    r: Vec<AgentInfo>)
    requires
        store.wf(),
        remote_bloom.wf(),
    ensures
        r@ == missing_agents_seq(eligible_agents(store.agents@, *common), *remote_bloom),
        forall|a: AgentInfo| #[trigger]
            r@.contains(a) <==> (store.agents@.contains(a) && agent_eligible(a, *common)
                && !remote_bloom.tests_positive(spec_agent_key(a.agent, a.signed_at))),
{
    let eligible = store.agent_info_in_arc(common);
    let n = eligible.len();
    let mut r: Vec<AgentInfo> = Vec::new();
    let mut i: usize = 0;
    while i < n
        invariant
            0 <= i <= n,
            n == eligible@.len(),
            remote_bloom.wf(),
            forall|a: AgentInfo| #[trigger]
                eligible@.contains(a) <==> (store.agents@.contains(a) && agent_eligible(
                    a,
                    *common,
                )),
            r@ == missing_agents_seq(eligible@.take(i as int), *remote_bloom),
            forall|a: AgentInfo| #[trigger]
                r@.contains(a) <==> (eligible@.take(i as int).contains(a)
                    && !remote_bloom.tests_positive(spec_agent_key(a.agent, a.signed_at))),
        decreases n - i,
    {
        let ghost prev = r@;
        let info = eligible[i];
        let key = agent_key(info.agent, info.signed_at);
        let hit = remote_bloom.check(key.as_slice());
        if !hit {
            r.push(info);
        }
        proof {
            assert(eligible@.take(i + 1 as int) =~= eligible@.take(i as int).push(info));
            assert(eligible@.take(i + 1 as int).drop_last() =~= eligible@.take(i as int));
            assert(r@ == missing_agents_seq(eligible@.take(i + 1 as int), *remote_bloom));
            assert forall|a: AgentInfo| #[trigger]
                r@.contains(a) <==> (eligible@.take(i + 1 as int).contains(a)
                    && !remote_bloom.tests_positive(spec_agent_key(a.agent, a.signed_at))) by {
                lemma_seq_contains_push(eligible@.take(i as int), info, a);
                if !hit {
                    lemma_seq_contains_push(prev, info, a);
                }
            }
        }
        i += 1;
    }
    proof {
        assert(eligible@.take(n as int) =~= eligible@);
    }
    assert forall|a: AgentInfo| #[trigger]
        r@.contains(a) <==> (store.agents@.contains(a) && agent_eligible(a, *common)
            && !remote_bloom.tests_positive(spec_agent_key(a.agent, a.signed_at))) by {}
    r
}

/// Evaluate the peer's op filter against the local store: the claimed
/// hash and payload of every eligible op testing negative — each valid by
/// construction — and nothing else.
pub fn collect_missing_ops(store: &GossipStore, common: &ArcSet, remote_bloom: &BloomFilter) -> (r:
    Vec<(u64, Vec<u8>)>)
    requires
        store.wf(),
        remote_bloom.wf(),
    ensures
        op_data_form(r@) == missing_ops_seq(store.ops@, *common, *remote_bloom),
        forall|k: int|
            0 <= k < r@.len() ==> {
                let h = (#[trigger] r@[k]).0;
                has_op(store.ops@, h) && h == crate::hashing::spec_content_hash(r@[k].1@)
                    && !remote_bloom.tests_positive(spec_op_key(h))
            },
        forall|i: int|
            0 <= i < store.ops@.len() && op_eligible((#[trigger] store.ops@[i]).basis, *common)
                && !remote_bloom.tests_positive(spec_op_key(store.ops@[i].hash)) ==> (exists|
                k: int,
            |
                0 <= k < r@.len() && (#[trigger] r@[k]).0 == store.ops@[i].hash),
{
    let n = store.ops.len();
    let mut r: Vec<(u64, Vec<u8>)> = Vec::new();
    let mut i: usize = 0;
    while i < n
        invariant
            0 <= i <= n,
            n == store.ops@.len(),
            store.wf(),
            remote_bloom.wf(),
            op_data_form(r@) == missing_ops_seq(store.ops@.take(i as int), *common, *remote_bloom),
            forall|k: int|
                0 <= k < r@.len() ==> {
                    let h = (#[trigger] r@[k]).0;
                    has_op(store.ops@, h) && h == crate::hashing::spec_content_hash(r@[k].1@)
                        && !remote_bloom.tests_positive(spec_op_key(h))
                },
            forall|i2: int|
                0 <= i2 < i && op_eligible((#[trigger] store.ops@[i2]).basis, *common)
                    && !remote_bloom.tests_positive(spec_op_key(store.ops@[i2].hash)) ==> (exists|
                    k: int,
                |
                    0 <= k < r@.len() && (#[trigger] r@[k]).0 == store.ops@[i2].hash),
        decreases n - i,
    {
        let ghost prev = r@;
        let basis = store.ops[i].basis;
        let h = store.ops[i].hash;
        let eligible = common.contains(basis);
        let mut pushed = false;
        if eligible {
            let key = op_key(h);
            if !remote_bloom.check(key.as_slice()) {
                let payload = clone_bytes(&store.ops[i].payload);
                proof {
                    assert(store.ops@[i as int].wf());
                }
                r.push((h, payload));
                pushed = true;
                proof {
                    assert(r@[prev.len() as int].0 == h);
                    assert(forall|k: int| 0 <= k < prev.len() ==> r@[k] == prev[k]);
                }
            }
        }
        proof {
            assert(store.ops@.take(i + 1 as int).drop_last() =~= store.ops@.take(i as int));
            assert(store.ops@.take(i + 1 as int).last() == store.ops@[i as int]);
            if pushed {
                assert(op_data_form(r@) =~= op_data_form(prev).push(
                    (store.ops@[i as int].hash, store.ops@[i as int].payload@),
                ));
            }
            assert(op_data_form(r@) == missing_ops_seq(
                store.ops@.take(i + 1 as int),
                *common,
                *remote_bloom,
            ));
            assert forall|i2: int|
                0 <= i2 < i + 1 && op_eligible((#[trigger] store.ops@[i2]).basis, *common)
                    && !remote_bloom.tests_positive(spec_op_key(store.ops@[i2].hash)) implies (
            exists|k: int| 0 <= k < r@.len() && (#[trigger] r@[k]).0 == store.ops@[i2].hash) by {
                if i2 < i {
                    let k = choose|k: int|
                        0 <= k < prev.len() && (#[trigger] prev[k]).0 == store.ops@[i2].hash;
                    assert(r@[k].0 == store.ops@[i2].hash);
                } else {
                    assert(r@[r@.len() - 1].0 == store.ops@[i2].hash);
                }
            }
        }
        i += 1;
    }
    proof {
        assert(store.ops@.take(n as int) =~= store.ops@);
    }
    r
}

proof fn lemma_seq_contains_push(s: Seq<AgentInfo>, x: AgentInfo, y: AgentInfo)
    ensures
        s.push(x).contains(y) <==> (s.contains(y) || x == y),
{
    if s.contains(y) {
        let i = choose|i: int| 0 <= i < s.len() && s[i] == y;
        assert(s.push(x)[i] == y);
    }
    if x == y {
        assert(s.push(x)[s.len() as int] == y);
    }
    if s.push(x).contains(y) {
        let i = choose|i: int| 0 <= i < s.push(x).len() && s.push(x)[i] == y;
        if i < s.len() {
            assert(s[i] == y);
        }
    }
}

} // verus!
