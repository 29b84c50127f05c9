//! Handling the messages a peer sends into a round.
//!
//! Every handler routes through the single round for the sending peer's
//! certificate: stale or out-of-place messages are dropped or end the
//! round, they are never applied, and a malformed frame fails only that
//! round, never the engine. Incoming records and ops pass validation
//! before they touch the store — agent-info merges last-write-wins by
//! signing time, and op payloads must hash to their claimed hash.

use vstd::prelude::*;

use crate::arc::ArcSet;
use crate::arc::ArcInterval;
use crate::arc::SPACE_LEN;
use crate::arc::ivs_cover;
use crate::bloom::BloomFilter;
use crate::engine::ShardedGossipLocal;
use crate::engine::certs_unique;
use crate::engine::cooldown_of;
use crate::engine::cooldowns_preserved_except;
use crate::engine::has_cooldown;
use crate::engine::spec_cooldown_until;
use crate::engine::has_round;
use crate::engine::node_coverage;
use crate::engine::round_idx;
use crate::engine::round_of;
use crate::hashing::spec_agent_key;
use crate::hashing::spec_agent_loc;
use crate::hashing::spec_op_key;
use crate::integrate::IntegrateDhtOpsWorkspace;
use crate::integrate::integrate_dht_ops_workflow;
use crate::integrate::integrate_step;
use crate::reconcile::agent_eligible;
use crate::reconcile::build_agent_bloom;
use crate::reconcile::build_ops_bloom;
use crate::reconcile::built_bloom_ok;
use crate::reconcile::collect_missing_agents;
use crate::reconcile::collect_missing_ops;
use crate::reconcile::missing_agents_seq;
use crate::reconcile::missing_ops_seq;
use crate::reconcile::agent_keys;
use crate::reconcile::op_keys;
use crate::reconcile::op_eligible;
use crate::round::RoundState;
use crate::round::RoundPhase;
use crate::store::GossipStore;
use crate::store::eligible_agents;
use crate::store::eligible_op_hashes;
use crate::store::op_data_form;
use crate::store::store_agent_step;
use crate::types::GossipConfig;
use crate::types::AgentInfo;
use crate::types::GossipError;
use crate::wire::ShardedGossipWire;
use crate::wire::WireForm;
use crate::wire::arc_set_digest;
use crate::wire::spec_arc_digest;
use crate::wire::spec_decode;

verus! {

/// The tie-break when two rounds contend for one peer certificate: the
/// later-started round wins; on an exact tie, the round whose initiating
/// agent has the greater identifier wins.
pub open spec fn tie_break_prefers(new_started: u64, new_agent: u64, existing: RoundState) -> bool {
    new_started > existing.started_at || (new_started == existing.started_at && new_agent
        > existing.local_agent)
}

/// The list inside a MissingAgents message: exactly the stored records
/// eligible for the common arc set that test negative in the peer's
/// filter.
pub open spec fn missing_agents_list_ok(
    agents: Seq<AgentInfo>,
    store: GossipStore,
    common: ArcSet,
    bloom: BloomFilter,
) -> bool {
    &&& agents == missing_agents_seq(eligible_agents(store.agents@, common), bloom)
    &&& forall|a: AgentInfo| #[trigger]
        agents.contains(a) <==> (store.agents@.contains(a) && agent_eligible(a, common)
            && !bloom.tests_positive(spec_agent_key(a.agent, a.signed_at)))
}

/// The agent-diff answer to a peer's filter: the missing records when
/// there are any, the explicit NoAgents otherwise.
#[verifier::opaque]
pub open spec fn agents_diff_msg_ok(
    m: ShardedGossipWire,
    store: GossipStore,
    common: ArcSet,
    bloom: BloomFilter,
) -> bool {
    ||| {
        &&& m matches ShardedGossipWire::MissingAgents { agents }
        &&& missing_agents_list_ok(m->MissingAgents_agents@, store, common, bloom)
        &&& m->MissingAgents_agents@.len() > 0
    }
    ||| {
        &&& m matches ShardedGossipWire::NoAgents
        &&& forall|a: AgentInfo|
            !(store.agents@.contains(a) && agent_eligible(a, common) && !bloom.tests_positive(
                #[trigger] spec_agent_key(a.agent, a.signed_at),
            ))
    }
}

/// The list inside a MissingOps message: every item is a stored op,
/// valid by construction, that tested negative in the peer's filter; and
/// every eligible stored op testing negative is in the list.
pub open spec fn missing_ops_list_ok(
    ops: Seq<(u64, Vec<u8>)>,
    store: GossipStore,
    common: ArcSet,
    bloom: BloomFilter,
) -> bool {
    &&& op_data_form(ops) == missing_ops_seq(store.ops@, common, bloom)
    &&& forall|k: int|
        0 <= k < ops.len() ==> {
            let h = (#[trigger] ops[k]).0;
            crate::store::has_op(store.ops@, h) && h == crate::hashing::spec_content_hash(
                ops[k].1@,
            ) && !bloom.tests_positive(spec_op_key(h))
        }
    &&& forall|i: int|
        0 <= i < store.ops@.len() && op_eligible((#[trigger] store.ops@[i]).basis, common)
            && !bloom.tests_positive(spec_op_key(store.ops@[i].hash)) ==> (exists|k: int|
            0 <= k < ops.len() && (#[trigger] ops[k]).0 == store.ops@[i].hash)
}

/// The op-diff answer to a peer's filter.
#[verifier::opaque]
pub open spec fn ops_diff_msg_ok(
    m: ShardedGossipWire,
    store: GossipStore,
    common: ArcSet,
    bloom: BloomFilter,
) -> bool {
    &&& m matches ShardedGossipWire::MissingOps { ops, finished }
    &&& m->MissingOps_finished == true
    &&& missing_ops_list_ok(m->MissingOps_ops@, store, common, bloom)
}

/// What merging a MissingAgents batch does to the stored records: each
/// record of the right space in order through the last-write-wins step;
/// records for other spaces are rejected.
pub open spec fn merge_agents_step(s: Seq<AgentInfo>, items: Seq<AgentInfo>, space: u64) -> Seq<
    AgentInfo,
>
    decreases items.len(),
{
    if items.len() == 0 {
        s
    } else {
        let rest = items.drop_first();
        if items[0].space == space {
            merge_agents_step(store_agent_step(s, items[0]), rest, space)
        } else {
            merge_agents_step(s, rest, space)
        }
    }
}


/// Both stores hold the same data.
pub open spec fn store_unchanged(pre: GossipStore, post: GossipStore) -> bool {
    post.space == pre.space && post.agents@ == pre.agents@ && post.ops@ == pre.ops@
}

/// What routing one decoded frame into the peer's round does: for each
/// message form, the state change and the answers are exactly the
/// matching handler's outcome on the decoded fields. Filters and
/// intervals are bound through their spec forms, which determine every
/// clause the handlers state about them.
#[verifier::opaque]
pub open spec fn gossip_outcome_ok(
    pre: ShardedGossipLocal,
    post: ShardedGossipLocal,
    pre_store: GossipStore,
    post_store: GossipStore,
    f: WireForm,
    cert: u64,
    now: u64,
    r: Result<Vec<ShardedGossipWire>, GossipError>,
) -> bool {
    match f {
        WireForm::Initiate { intervals, initiator_agent, started_at, agent_bloom, ops_bloom } => {
            &&& store_unchanged(pre_store, post_store)
            &&& post.cooldowns@ == pre.cooldowns@
            &&& r is Ok
            &&& pre.local_agents@.len() == 0 ==> post.rounds@ == pre.rounds@ && r->Ok_0@.len()
                == 0
            &&& pre.local_agents@.len() > 0 && has_round(pre.rounds@, cert) && !tie_break_prefers(
                started_at,
                initiator_agent,
                round_of(pre.rounds@, cert),
            ) ==> post.rounds@ == pre.rounds@ && r->Ok_0@.len() == 0
            &&& pre.local_agents@.len() > 0 && (!has_round(pre.rounds@, cert)
                || tie_break_prefers(started_at, initiator_agent, round_of(pre.rounds@, cert)))
                ==> (exists|ivs: Vec<ArcInterval>, ab: BloomFilter, ob: BloomFilter|
                ivs@ == intervals && ab.form() == agent_bloom && ob.form() == ops_bloom
                    && #[trigger] accept_outcome_ok(
                    pre,
                    post,
                    pre_store,
                    cert,
                    ivs@,
                    initiator_agent,
                    started_at,
                    now,
                    ab,
                    ob,
                    r->Ok_0@,
                ))
        },
        WireForm::Accept { intervals, common_digest, agent_bloom, ops_bloom } => {
            &&& store_unchanged(pre_store, post_store)
            &&& !has_round(pre.rounds@, cert) ==> post.rounds@ == pre.rounds@ && post.cooldowns@
                == pre.cooldowns@ && (r matches Ok(msgs) && msgs@.len() == 0)
            &&& has_round(pre.rounds@, cert) ==> {
                let rs0 = round_of(pre.rounds@, cert);
                &&& rounds_preserved_except(pre.rounds@, post.rounds@, cert)
                &&& (if rs0.spec_phase() != RoundPhase::Initiated {
                    &&& r == Err::<Vec<ShardedGossipWire>, GossipError>(
                        GossipError::UnexpectedMessage,
                    )
                    &&& !has_round(post.rounds@, cert)
                    &&& post.cooldowns@ == pre.cooldowns@
                } else if common_digest != rs0.sent_intervals_digest {
                    &&& r == Err::<Vec<ShardedGossipWire>, GossipError>(
                        GossipError::ArcDigestMismatch,
                    )
                    &&& !has_round(post.rounds@, cert)
                    &&& post.cooldowns@ == pre.cooldowns@
                } else {
                    &&& r is Ok
                    &&& r->Ok_0@.len() == 2
                    &&& (exists|ab: BloomFilter|
                        ab.form() == agent_bloom && #[trigger] agents_diff_msg_ok(
                            r->Ok_0@[0],
                            pre_store,
                            rs0.common_arc_set,
                            ab,
                        ))
                    &&& (exists|ob: BloomFilter|
                        ob.form() == ops_bloom && #[trigger] ops_diff_msg_ok(
                            r->Ok_0@[1],
                            pre_store,
                            rs0.common_arc_set,
                            ob,
                        ))
                    &&& (if accept_applied(rs0, now).spec_is_complete() {
                        &&& !has_round(post.rounds@, cert)
                        &&& has_cooldown(post.cooldowns@, cert)
                        &&& cooldown_of(post.cooldowns@, cert) == spec_cooldown_until(
                            now,
                            pre.config.cooldown_ms,
                        )
                        &&& cooldowns_preserved_except(pre.cooldowns@, post.cooldowns@, cert)
                    } else {
                        &&& has_round(post.rounds@, cert)
                        &&& round_of(post.rounds@, cert) == accept_applied(rs0, now)
                        &&& post.cooldowns@ == pre.cooldowns@
                    })
                })
            }
        },
        WireForm::Agents { bloom } => {
            &&& store_unchanged(pre_store, post_store)
            &&& !has_round(pre.rounds@, cert) ==> post.rounds@ == pre.rounds@ && post.cooldowns@
                == pre.cooldowns@ && r == Err::<Vec<ShardedGossipWire>, GossipError>(
                GossipError::NoRoundForPeer,
            )
            &&& has_round(pre.rounds@, cert) ==> {
                let rs0 = round_of(pre.rounds@, cert);
                let rs1 = agents_sent_applied(rs0, now);
                &&& rounds_preserved_except(pre.rounds@, post.rounds@, cert)
                &&& r is Ok
                &&& r->Ok_0@.len() == 1
                &&& (exists|b: BloomFilter|
                    b.form() == bloom && #[trigger] agents_diff_msg_ok(
                        r->Ok_0@[0],
                        pre_store,
                        rs0.common_arc_set,
                        b,
                    ))
                &&& (if rs1.spec_is_complete() {
                    &&& !has_round(post.rounds@, cert)
                    &&& has_cooldown(post.cooldowns@, cert)
                    &&& cooldown_of(post.cooldowns@, cert) == spec_cooldown_until(
                        now,
                        pre.config.cooldown_ms,
                    )
                    &&& cooldowns_preserved_except(pre.cooldowns@, post.cooldowns@, cert)
                } else {
                    &&& has_round(post.rounds@, cert)
                    &&& round_of(post.rounds@, cert) == rs1
                    &&& post.cooldowns@ == pre.cooldowns@
                })
            }
        },
        WireForm::MissingAgents { agents } => {
            &&& post_store.space == pre_store.space
            &&& post_store.ops@ == pre_store.ops@
            &&& (r matches Ok(msgs) && msgs@.len() == 0)
            &&& !has_round(pre.rounds@, cert) ==> post.rounds@ == pre.rounds@ && post.cooldowns@
                == pre.cooldowns@ && post_store.agents@ == pre_store.agents@
            &&& has_round(pre.rounds@, cert) ==> {
                let rs0 = round_of(pre.rounds@, cert);
                let rs1 = agents_recv_applied(rs0, now);
                &&& post_store.agents@ == merge_agents_step(pre_store.agents@, agents, pre.space)
                &&& rounds_preserved_except(pre.rounds@, post.rounds@, cert)
                &&& (if rs1.spec_is_complete() {
                    &&& !has_round(post.rounds@, cert)
                    &&& has_cooldown(post.cooldowns@, cert)
                    &&& cooldown_of(post.cooldowns@, cert) == spec_cooldown_until(
                        now,
                        pre.config.cooldown_ms,
                    )
                    &&& cooldowns_preserved_except(pre.cooldowns@, post.cooldowns@, cert)
                } else {
                    &&& has_round(post.rounds@, cert)
                    &&& round_of(post.rounds@, cert) == rs1
                    &&& post.cooldowns@ == pre.cooldowns@
                })
            }
        },
        WireForm::NoAgents => {
            &&& store_unchanged(pre_store, post_store)
            &&& (r matches Ok(msgs) && msgs@.len() == 0)
            &&& !has_round(pre.rounds@, cert) ==> post.rounds@ == pre.rounds@ && post.cooldowns@
                == pre.cooldowns@
            &&& has_round(pre.rounds@, cert) ==> {
                let rs0 = round_of(pre.rounds@, cert);
                let rs1 = agents_recv_applied(rs0, now);
                &&& rounds_preserved_except(pre.rounds@, post.rounds@, cert)
                &&& (if rs1.spec_is_complete() {
                    &&& !has_round(post.rounds@, cert)
                    &&& has_cooldown(post.cooldowns@, cert)
                    &&& cooldown_of(post.cooldowns@, cert) == spec_cooldown_until(
                        now,
                        pre.config.cooldown_ms,
                    )
                    &&& cooldowns_preserved_except(pre.cooldowns@, post.cooldowns@, cert)
                } else {
                    &&& has_round(post.rounds@, cert)
                    &&& round_of(post.rounds@, cert) == rs1
                    &&& post.cooldowns@ == pre.cooldowns@
                })
            }
        },
        WireForm::Ops { bloom } => {
            &&& store_unchanged(pre_store, post_store)
            &&& !has_round(pre.rounds@, cert) ==> post.rounds@ == pre.rounds@ && post.cooldowns@
                == pre.cooldowns@ && r == Err::<Vec<ShardedGossipWire>, GossipError>(
                GossipError::NoRoundForPeer,
            )
            &&& has_round(pre.rounds@, cert) ==> {
                let rs0 = round_of(pre.rounds@, cert);
                let rs1 = ops_sent_applied(rs0, now);
                &&& rounds_preserved_except(pre.rounds@, post.rounds@, cert)
                &&& r is Ok
                &&& r->Ok_0@.len() == 1
                &&& (exists|b: BloomFilter|
                    b.form() == bloom && #[trigger] ops_diff_msg_ok(
                        r->Ok_0@[0],
                        pre_store,
                        rs0.common_arc_set,
                        b,
                    ))
                &&& (if rs1.spec_is_complete() {
                    &&& !has_round(post.rounds@, cert)
                    &&& has_cooldown(post.cooldowns@, cert)
                    &&& cooldown_of(post.cooldowns@, cert) == spec_cooldown_until(
                        now,
                        pre.config.cooldown_ms,
                    )
                    &&& cooldowns_preserved_except(pre.cooldowns@, post.cooldowns@, cert)
                } else {
                    &&& has_round(post.rounds@, cert)
                    &&& round_of(post.rounds@, cert) == rs1
                    &&& post.cooldowns@ == pre.cooldowns@
                })
            }
        },
        WireForm::MissingOps { ops, finished } => {
            &&& post_store.space == pre_store.space
            &&& post_store.agents@ == pre_store.agents@
            &&& (r matches Ok(msgs) && msgs@.len() == 0)
            &&& !has_round(pre.rounds@, cert) ==> post.rounds@ == pre.rounds@ && post.cooldowns@
                == pre.cooldowns@ && post_store.ops@ == pre_store.ops@
            &&& has_round(pre.rounds@, cert) ==> {
                let rs0 = round_of(pre.rounds@, cert);
                let rs1 = ops_recv_applied(rs0, finished, now);
                &&& (exists|opsv: Seq<(u64, Vec<u8>)>|
                    op_data_form(opsv) == ops && post_store.ops@ == #[trigger] integrate_step(
                        pre_store.ops@,
                        opsv,
                        now,
                    ))
                &&& rounds_preserved_except(pre.rounds@, post.rounds@, cert)
                &&& (if rs1.spec_is_complete() {
                    &&& !has_round(post.rounds@, cert)
                    &&& has_cooldown(post.cooldowns@, cert)
                    &&& cooldown_of(post.cooldowns@, cert) == spec_cooldown_until(
                        now,
                        pre.config.cooldown_ms,
                    )
                    &&& cooldowns_preserved_except(pre.cooldowns@, post.cooldowns@, cert)
                } else {
                    &&& has_round(post.rounds@, cert)
                    &&& round_of(post.rounds@, cert) == rs1
                    &&& post.cooldowns@ == pre.cooldowns@
                })
            }
        },
    }
}

impl ShardedGossipLocal {
    /// Build the agent-diff answer to a peer's filter.
    fn agents_diff_response(
        &self,
        store: &GossipStore,
        common: &ArcSet,
        bloom: &BloomFilter,
    ) -> (m: ShardedGossipWire)
        requires
            store.wf(),
            bloom.wf(),
        ensures
            agents_diff_msg_ok(m, *store, *common, *bloom),
    {
        proof {
            reveal(agents_diff_msg_ok);
        }
        let missing = collect_missing_agents(store, common, bloom);
        if missing.len() > 0 {
            ShardedGossipWire::MissingAgents { agents: missing }
        } else {
            proof {
                assert forall|a: AgentInfo|
                    !(store.agents@.contains(a) && agent_eligible(a, *common)
                        && !bloom.tests_positive(
                        #[trigger] spec_agent_key(a.agent, a.signed_at),
                    )) by {
                    if store.agents@.contains(a) && agent_eligible(a, *common)
                        && !bloom.tests_positive(spec_agent_key(a.agent, a.signed_at)) {
                        assert(missing@.contains(a));
                    }
                }
            }
            ShardedGossipWire::NoAgents
        }
    }

    /// Build the op-diff answer to a peer's filter.
    fn ops_diff_response(&self, store: &GossipStore, common: &ArcSet, bloom: &BloomFilter) -> (m:
        ShardedGossipWire)
        requires
            store.wf(),
            bloom.wf(),
        ensures
            ops_diff_msg_ok(m, *store, *common, *bloom),
    {
        proof {
            reveal(ops_diff_msg_ok);
        }
        let missing = collect_missing_ops(store, common, bloom);
        ShardedGossipWire::MissingOps { ops: missing, finished: true }
    }

    /// Drop the round at `idx`: a protocol error ends it with no other
    /// effect.
    fn purge_round(&mut self, idx: usize)
        requires
            old(self).wf(),
            idx < old(self).rounds@.len(),
        ensures
            final(self).wf(),
            final(self).space == old(self).space,
            final(self).config == old(self).config,
            final(self).local_agents@ == old(self).local_agents@,
            final(self).cooldowns@ == old(self).cooldowns@,
            final(self).rounds@ == old(self).rounds@.remove(idx as int),
    {
        let _ = self.rounds.remove(idx);
        proof {
            lemma_rounds_remove(old(self).rounds@, idx as int);
        }
    }

    /// A peer opens a round toward us. With no local agent there is
    /// nothing to do. A live round for the same peer is kept or replaced
    /// by the tie-break, so exactly one survives. Otherwise we compute
    /// the common arc set against the peer's declared coverage and answer
    /// with our Accept — echoing a digest of the intervals we were sent —
    /// plus our agent diff and our op diff against the peer's filters.
    pub fn incoming_initiate(
        &mut self,
        store: &GossipStore,
        cert: u64,
        intervals: Vec<ArcInterval>,
        initiator_agent: u64,
        remote_started_at: u64,
        agent_bloom: BloomFilter,
        ops_bloom: BloomFilter,
        now: u64,
    ) -> (r: Result<Vec<ShardedGossipWire>, GossipError>)
        requires
            old(self).wf(),
            store.wf(),
            agent_bloom.wf(),
            ops_bloom.wf(),
        ensures
            final(self).wf(),
            final(self).space == old(self).space,
            final(self).config == old(self).config,
            final(self).local_agents@ == old(self).local_agents@,
            final(self).cooldowns@ == old(self).cooldowns@,
            r is Ok,
            old(self).local_agents@.len() == 0 ==> final(self).rounds@ == old(self).rounds@
                && r->Ok_0@.len() == 0,
            old(self).local_agents@.len() > 0 && has_round(old(self).rounds@, cert)
                && !tie_break_prefers(
                remote_started_at,
                initiator_agent,
                round_of(old(self).rounds@, cert),
            ) ==> final(self).rounds@ == old(self).rounds@ && r->Ok_0@.len() == 0,
            old(self).local_agents@.len() > 0 && (!has_round(old(self).rounds@, cert)
                || tie_break_prefers(
                remote_started_at,
                initiator_agent,
                round_of(old(self).rounds@, cert),
            )) ==> accept_outcome_ok(
                *old(self),
                *final(self),
                *store,
                cert,
                intervals@,
                initiator_agent,
                remote_started_at,
                now,
                agent_bloom,
                ops_bloom,
                r->Ok_0@,
            ),
    {
        if self.local_agents.len() == 0 {
            return Ok(Vec::new());
        }
        let existing = self.find_round(cert);
        if let Some(i) = existing {
            let keep_new = {
                let ex = &self.rounds[i].1;
                remote_started_at > ex.started_at || (remote_started_at == ex.started_at
                    && initiator_agent > ex.local_agent)
            };
            proof {
                assert(round_idx(self.rounds@, cert) == i);
            }
            if !keep_new {
                return Ok(Vec::new());
            }
        }
        let msgs = self.do_accept(
            store,
            cert,
            existing,
            intervals,
            initiator_agent,
            remote_started_at,
            agent_bloom,
            ops_bloom,
            now,
        );
        Ok(msgs)
    }

    /// The accepting core: install (or replace) the round in `Accepted`
    /// with both diffs already sent, and produce the Accept and the two
    /// diff answers.
    fn do_accept(
        &mut self,
        store: &GossipStore,
        cert: u64,
        existing: Option<usize>,
        intervals: Vec<ArcInterval>,
        initiator_agent: u64,
        remote_started_at: u64,
        agent_bloom: BloomFilter,
        ops_bloom: BloomFilter,
        now: u64,
    ) -> (msgs: Vec<ShardedGossipWire>)
        requires
            old(self).wf(),
            store.wf(),
            agent_bloom.wf(),
            ops_bloom.wf(),
            old(self).local_agents@.len() > 0,
            match existing {
                Some(i) => i < old(self).rounds@.len() && old(self).rounds@[i as int].0 == cert,
                None => !has_round(old(self).rounds@, cert),
            },
        ensures
            final(self).wf(),
            final(self).space == old(self).space,
            final(self).config == old(self).config,
            final(self).local_agents@ == old(self).local_agents@,
            final(self).cooldowns@ == old(self).cooldowns@,
            accept_outcome_ok(
                *old(self),
                *final(self),
                *store,
                cert,
                intervals@,
                initiator_agent,
                remote_started_at,
                now,
                agent_bloom,
                ops_bloom,
                msgs@,
            ),
    {
        proof {
            reveal(accept_outcome_ok);
            reveal(accept_msg_ok);
        }
        let local_set = store.local_arcs(&self.local_agents);
        let ghost lsv = local_set;
        let remote_set = ArcSet::from_intervals(intervals);
        let common = local_set.intersect(&remote_set);
        proof {
            assert forall|p: int|
                0 <= p < SPACE_LEN implies (ivs_cover(lsv.intervals@, p) <==> node_coverage(
                store.agents@,
                self.local_agents@,
                p,
            )) by {
                assert(lsv.covers(p) == ivs_cover(lsv.intervals@, p));
            }
        }
        let agent_response = self.agents_diff_response(store, &common, &agent_bloom);
        let ops_response = self.ops_diff_response(store, &common, &ops_bloom);
        let my_agent_bloom = build_agent_bloom(store, &common, &self.config);
        let my_ops_bloom = build_ops_bloom(store, &common, &self.config);
        let digest = arc_set_digest(&remote_set.intervals);
        let local_agent = self.local_agents[0];
        let rs = RoundState {
            local_agent,
            remote_agent: initiator_agent,
            common_arc_set: common,
            started_at: remote_started_at,
            last_touched_at: now,
            sent_intervals_digest: digest,
            initiated_by_us: false,
            agent_diff_sent: true,
            agent_diff_received: false,
            ops_diff_sent: true,
            ops_diff_received: false,
        };
        match existing {
            Some(i) => {
                let ghost prev = self.rounds@;
                let (c, _old_rs) = self.rounds.remove(i);
                self.rounds.insert(i, (c, rs));
                proof {
                    assert(self.rounds@ =~= prev.update(i as int, (prev[i as int].0, rs)));
                    assert forall|i2: int, j2: int|
                        0 <= i2 < self.rounds@.len() && 0 <= j2 < self.rounds@.len() && (
                        #[trigger] self.rounds@[i2]).0 == (#[trigger] self.rounds@[j2]).0
                            implies i2 == j2 by {
                        assert(self.rounds@[i2].0 == prev[i2].0);
                        assert(self.rounds@[j2].0 == prev[j2].0);
                    }
                    assert(self.rounds@[i as int].0 == cert);
                    assert(round_idx(self.rounds@, cert) == i);
                    lemma_rounds_update_other(prev, i as int, rs, cert);
                }
            },
            None => {
                let ghost prev = self.rounds@;
                self.rounds.push((cert, rs));
                proof {
                    assert(self.rounds@[prev.len() as int].0 == cert);
                    assert forall|i2: int, j2: int|
                        0 <= i2 < self.rounds@.len() && 0 <= j2 < self.rounds@.len() && (
                        #[trigger] self.rounds@[i2]).0 == (#[trigger] self.rounds@[j2]).0
                            implies i2 == j2 by {
                        if i2 < prev.len() && j2 == prev.len() {
                            assert(prev[i2].0 == cert);
                        } else if j2 < prev.len() && i2 == prev.len() {
                            assert(prev[j2].0 == cert);
                        }
                    }
                    assert(round_idx(self.rounds@, cert) == prev.len());
                    lemma_rounds_push_other(prev, cert, rs);
                }
            },
        }
        let accept = ShardedGossipWire::Accept {
            intervals: local_set.intervals,
            common_digest: digest,
            agent_bloom: my_agent_bloom,
            ops_bloom: my_ops_bloom,
        };
        let mut msgs: Vec<ShardedGossipWire> = Vec::new();
        msgs.push(accept);
        msgs.push(agent_response);
        msgs.push(ops_response);
        msgs
    }
}

/// Everything an accepted opening leaves behind: the round table holds
/// the accepted round for `cert` and is otherwise untouched, and the
/// three answers are the Accept and the two diffs.
#[verifier::opaque]
pub open spec fn accept_outcome_ok(
    pre: ShardedGossipLocal,
    post: ShardedGossipLocal,
    store: GossipStore,
    cert: u64,
    recv_intervals: Seq<ArcInterval>,
    initiator_agent: u64,
    remote_started_at: u64,
    now: u64,
    agent_bloom: BloomFilter,
    ops_bloom: BloomFilter,
    msgs: Seq<ShardedGossipWire>,
) -> bool {
    &&& has_round(post.rounds@, cert)
    &&& accept_round_ok(
        round_of(post.rounds@, cert),
        store,
        pre.local_agents@,
        initiator_agent,
        remote_started_at,
        now,
        recv_intervals,
    )
    &&& forall|c: u64|
        c != cert ==> ((has_round(post.rounds@, c) <==> has_round(pre.rounds@, c)) && (has_round(
            pre.rounds@,
            c,
        ) ==> round_of(post.rounds@, c) == round_of(pre.rounds@, c)))
    &&& msgs.len() == 3
    &&& accept_msg_ok(
        msgs[0],
        store,
        pre.local_agents@,
        recv_intervals,
        pre.config,
        round_of(post.rounds@, cert).common_arc_set,
    )
    &&& agents_diff_msg_ok(
        msgs[1],
        store,
        round_of(post.rounds@, cert).common_arc_set,
        agent_bloom,
    )
    &&& ops_diff_msg_ok(msgs[2], store, round_of(post.rounds@, cert).common_arc_set, ops_bloom)
}



/// The state of `rs0` after our two diffs went out in answer to an
/// Accept.
pub open spec fn accept_applied(rs0: RoundState, now: u64) -> RoundState {
    RoundState { agent_diff_sent: true, ops_diff_sent: true, last_touched_at: now, ..rs0 }
}

/// The state of `rs0` after our agent diff went out.
pub open spec fn agents_sent_applied(rs0: RoundState, now: u64) -> RoundState {
    RoundState { agent_diff_sent: true, last_touched_at: now, ..rs0 }
}

/// The state of `rs0` after the peer's agent diff arrived.
pub open spec fn agents_recv_applied(rs0: RoundState, now: u64) -> RoundState {
    RoundState { agent_diff_received: true, last_touched_at: now, ..rs0 }
}

/// The state of `rs0` after our op diff went out.
pub open spec fn ops_sent_applied(rs0: RoundState, now: u64) -> RoundState {
    RoundState { ops_diff_sent: true, last_touched_at: now, ..rs0 }
}

/// The state of `rs0` after the peer's op diff arrived; only a batch
/// marked finished closes the diff.
pub open spec fn ops_recv_applied(rs0: RoundState, finished: bool, now: u64) -> RoundState {
    RoundState { ops_diff_received: rs0.ops_diff_received || finished, last_touched_at: now, ..rs0 }
}

/// Rounds of every other peer are untouched.
pub open spec fn rounds_preserved_except(
    pre: Seq<(u64, RoundState)>,
    post: Seq<(u64, RoundState)>,
    cert: u64,
) -> bool {
    forall|c: u64|
        c != cert ==> ((has_round(post, c) <==> has_round(pre, c)) && (has_round(pre, c)
            ==> round_of(post, c) == round_of(pre, c)))
}

impl ShardedGossipLocal {
    /// The peer answered our opening message. Without a live round in
    /// `Initiated` the message is out of place: a missing round is
    /// quietly dropped, a wrong phase or a digest that does not match the
    /// intervals we sent ends the round as a protocol error. Otherwise we
    /// answer the peer's filters with our two diffs and wait for theirs.
    pub fn incoming_accept(
        &mut self,
        store: &GossipStore,
        cert: u64,
        common_digest: u64,
        agent_bloom: BloomFilter,
        ops_bloom: BloomFilter,
        now: u64,
    ) -> (r: Result<Vec<ShardedGossipWire>, GossipError>)
        requires
            old(self).wf(),
            store.wf(),
            agent_bloom.wf(),
            ops_bloom.wf(),
        ensures
            final(self).wf(),
            final(self).space == old(self).space,
            final(self).config == old(self).config,
            final(self).local_agents@ == old(self).local_agents@,
            !has_round(old(self).rounds@, cert) ==> final(self).rounds@ == old(self).rounds@
                && final(self).cooldowns@ == old(self).cooldowns@ && (r matches Ok(msgs)
                && msgs@.len() == 0),
            has_round(old(self).rounds@, cert) ==> {
                let rs0 = round_of(old(self).rounds@, cert);
                &&& rounds_preserved_except(old(self).rounds@, final(self).rounds@, cert)
                &&& (if rs0.spec_phase() != RoundPhase::Initiated {
                    &&& r == Err::<Vec<ShardedGossipWire>, GossipError>(
                        GossipError::UnexpectedMessage,
                    )
                    &&& !has_round(final(self).rounds@, cert)
                    &&& final(self).cooldowns@ == old(self).cooldowns@
                } else if common_digest != rs0.sent_intervals_digest {
                    &&& r == Err::<Vec<ShardedGossipWire>, GossipError>(
                        GossipError::ArcDigestMismatch,
                    )
                    &&& !has_round(final(self).rounds@, cert)
                    &&& final(self).cooldowns@ == old(self).cooldowns@
                } else {
                    &&& r is Ok
                    &&& r->Ok_0@.len() == 2
                    &&& agents_diff_msg_ok(r->Ok_0@[0], *store, rs0.common_arc_set, agent_bloom)
                    &&& ops_diff_msg_ok(r->Ok_0@[1], *store, rs0.common_arc_set, ops_bloom)
                    &&& (if accept_applied(rs0, now).spec_is_complete() {
                        &&& !has_round(final(self).rounds@, cert)
                        &&& has_cooldown(final(self).cooldowns@, cert)
                        &&& cooldown_of(final(self).cooldowns@, cert) == spec_cooldown_until(
                            now,
                            old(self).config.cooldown_ms,
                        )
                        &&& cooldowns_preserved_except(
                            old(self).cooldowns@,
                            final(self).cooldowns@,
                            cert,
                        )
                    } else {
                        has_round(final(self).rounds@, cert) && round_of(
                            final(self).rounds@,
                            cert,
                        ) == accept_applied(rs0, now) && final(self).cooldowns@ == old(
                            self,
                        ).cooldowns@
                    })
                })
            },
    {
        let idx = match self.find_round(cert) {
            Some(i) => i,
            None => {
                return Ok(Vec::new());
            },
        };
        proof {
            assert(has_round(self.rounds@, cert));
            assert(round_idx(self.rounds@, cert) == idx);
        }
        let phase_ok = {
            let rs = &self.rounds[idx].1;
            rs.phase() == RoundPhase::Initiated
        };
        if !phase_ok {
            let ghost prev = self.rounds@;
            self.purge_round(idx);
            proof {
                lemma_rounds_remove(prev, idx as int);
            }
            return Err(GossipError::UnexpectedMessage);
        }
        let digest_ok = {
            let rs = &self.rounds[idx].1;
            common_digest == rs.sent_intervals_digest
        };
        if !digest_ok {
            let ghost prev = self.rounds@;
            self.purge_round(idx);
            proof {
                lemma_rounds_remove(prev, idx as int);
            }
            return Err(GossipError::ArcDigestMismatch);
        }
        let agent_response = self.agents_diff_response(
            store,
            &self.rounds[idx].1.common_arc_set,
            &agent_bloom,
        );
        let ops_response = self.ops_diff_response(
            store,
            &self.rounds[idx].1.common_arc_set,
            &ops_bloom,
        );
        let ghost prev = self.rounds@;
        let (c, rs0) = self.rounds.remove(idx);
        let rs1 = RoundState {
            agent_diff_sent: true,
            ops_diff_sent: true,
            last_touched_at: now,
            ..rs0
        };
        self.rounds.insert(idx, (c, rs1));
        proof {
            assert(self.rounds@ =~= prev.update(idx as int, (prev[idx as int].0, rs1)));
            lemma_rounds_update_other(prev, idx as int, rs1, cert);
        }
        self.finish_if_complete(cert, now);
        let mut msgs: Vec<ShardedGossipWire> = Vec::new();
        msgs.push(agent_response);
        msgs.push(ops_response);
        Ok(msgs)
    }

    /// The peer asks for our agent diff with a fresh filter: a resume
    /// path when an earlier answer was lost. Needs a live round.
    pub fn incoming_agents(
        &mut self,
        store: &GossipStore,
        cert: u64,
        remote_bloom: BloomFilter,
        now: u64,
    ) -> (r: Result<Vec<ShardedGossipWire>, GossipError>)
        requires
            old(self).wf(),
            store.wf(),
            remote_bloom.wf(),
        ensures
            final(self).wf(),
            final(self).space == old(self).space,
            final(self).config == old(self).config,
            final(self).local_agents@ == old(self).local_agents@,
            !has_round(old(self).rounds@, cert) ==> final(self).rounds@ == old(self).rounds@
                && final(self).cooldowns@ == old(self).cooldowns@ && r == Err::<
                Vec<ShardedGossipWire>,
                GossipError,
            >(GossipError::NoRoundForPeer),
            has_round(old(self).rounds@, cert) ==> {
                let rs0 = round_of(old(self).rounds@, cert);
                let rs1 = agents_sent_applied(rs0, now);
                &&& rounds_preserved_except(old(self).rounds@, final(self).rounds@, cert)
                &&& r is Ok
                &&& r->Ok_0@.len() == 1
                &&& agents_diff_msg_ok(r->Ok_0@[0], *store, rs0.common_arc_set, remote_bloom)
                &&& (if rs1.spec_is_complete() {
                    &&& !has_round(final(self).rounds@, cert)
                    &&& has_cooldown(final(self).cooldowns@, cert)
                    &&& cooldown_of(final(self).cooldowns@, cert) == spec_cooldown_until(
                        now,
                        old(self).config.cooldown_ms,
                    )
                    &&& cooldowns_preserved_except(
                        old(self).cooldowns@,
                        final(self).cooldowns@,
                        cert,
                    )
                } else {
                    has_round(final(self).rounds@, cert) && round_of(final(self).rounds@, cert)
                        == rs1 && final(self).cooldowns@ == old(self).cooldowns@
                })
            },
    {
        let idx = match self.find_round(cert) {
            Some(i) => i,
            None => {
                return Err(GossipError::NoRoundForPeer);
            },
        };
        proof {
            assert(has_round(self.rounds@, cert));
            assert(round_idx(self.rounds@, cert) == idx);
        }
        let response = self.agents_diff_response(
            store,
            &self.rounds[idx].1.common_arc_set,
            &remote_bloom,
        );
        let ghost prev = self.rounds@;
        let (c, rs0) = self.rounds.remove(idx);
        let rs1 = RoundState { agent_diff_sent: true, last_touched_at: now, ..rs0 };
        self.rounds.insert(idx, (c, rs1));
        proof {
            assert(self.rounds@ =~= prev.update(idx as int, (prev[idx as int].0, rs1)));
            lemma_rounds_update_other(prev, idx as int, rs1, cert);
        }
        self.finish_if_complete(cert, now);
        let mut msgs: Vec<ShardedGossipWire> = Vec::new();
        msgs.push(response);
        Ok(msgs)
    }

    /// The peer answered our agent filter with nothing missing: its side
    /// of the agent diff is done. Without a live round the message is a
    /// stale leftover and is dropped.
    pub fn incoming_no_agents(&mut self, cert: u64, now: u64) -> (r: Result<
        Vec<ShardedGossipWire>,
        GossipError,
    >)
        requires
            old(self).wf(),
        ensures
            final(self).wf(),
            final(self).space == old(self).space,
            final(self).config == old(self).config,
            final(self).local_agents@ == old(self).local_agents@,
            (r matches Ok(msgs) && msgs@.len() == 0),
            !has_round(old(self).rounds@, cert) ==> final(self).rounds@ == old(self).rounds@
                && final(self).cooldowns@ == old(self).cooldowns@,
            has_round(old(self).rounds@, cert) ==> {
                let rs0 = round_of(old(self).rounds@, cert);
                let rs1 = agents_recv_applied(rs0, now);
                &&& rounds_preserved_except(old(self).rounds@, final(self).rounds@, cert)
                &&& (if rs1.spec_is_complete() {
                    &&& !has_round(final(self).rounds@, cert)
                    &&& has_cooldown(final(self).cooldowns@, cert)
                    &&& cooldown_of(final(self).cooldowns@, cert) == spec_cooldown_until(
                        now,
                        old(self).config.cooldown_ms,
                    )
                    &&& cooldowns_preserved_except(
                        old(self).cooldowns@,
                        final(self).cooldowns@,
                        cert,
                    )
                } else {
                    has_round(final(self).rounds@, cert) && round_of(final(self).rounds@, cert)
                        == rs1 && final(self).cooldowns@ == old(self).cooldowns@
                })
            },
    {
        let idx = match self.find_round(cert) {
            Some(i) => i,
            None => {
                return Ok(Vec::new());
            },
        };
        proof {
            assert(has_round(self.rounds@, cert));
            assert(round_idx(self.rounds@, cert) == idx);
        }
        let ghost prev = self.rounds@;
        let (c, rs0) = self.rounds.remove(idx);
        let rs1 = RoundState { agent_diff_received: true, last_touched_at: now, ..rs0 };
        self.rounds.insert(idx, (c, rs1));
        proof {
            assert(self.rounds@ =~= prev.update(idx as int, (prev[idx as int].0, rs1)));
            lemma_rounds_update_other(prev, idx as int, rs1, cert);
        }
        self.finish_if_complete(cert, now);
        Ok(Vec::new())
    }

    /// The peer pushed agent-info records our filter showed us missing.
    /// Records for another space are rejected; the rest merge into the
    /// store last-write-wins by signing time, so an older or duplicate
    /// record changes nothing. Without a live round nothing is applied.
    pub fn incoming_missing_agents(
        &mut self,
        store: &mut GossipStore,
        cert: u64,
        agents: Vec<AgentInfo>,
        now: u64,
    ) -> (r: Result<Vec<ShardedGossipWire>, GossipError>)
        requires
            old(self).wf(),
            old(store).wf(),
        ensures
            final(self).wf(),
            final(store).wf(),
            final(self).space == old(self).space,
            final(self).config == old(self).config,
            final(self).local_agents@ == old(self).local_agents@,
            final(store).space == old(store).space,
            final(store).ops@ == old(store).ops@,
            (r matches Ok(msgs) && msgs@.len() == 0),
            !has_round(old(self).rounds@, cert) ==> final(self).rounds@ == old(self).rounds@
                && final(self).cooldowns@ == old(self).cooldowns@ && final(store).agents@ == old(
                store,
            ).agents@,
            has_round(old(self).rounds@, cert) ==> {
                let rs0 = round_of(old(self).rounds@, cert);
                let rs1 = agents_recv_applied(rs0, now);
                &&& final(store).agents@ == merge_agents_step(
                    old(store).agents@,
                    agents@,
                    old(self).space,
                )
                &&& rounds_preserved_except(old(self).rounds@, final(self).rounds@, cert)
                &&& (if rs1.spec_is_complete() {
                    &&& !has_round(final(self).rounds@, cert)
                    &&& has_cooldown(final(self).cooldowns@, cert)
                    &&& cooldown_of(final(self).cooldowns@, cert) == spec_cooldown_until(
                        now,
                        old(self).config.cooldown_ms,
                    )
                    &&& cooldowns_preserved_except(
                        old(self).cooldowns@,
                        final(self).cooldowns@,
                        cert,
                    )
                } else {
                    has_round(final(self).rounds@, cert) && round_of(final(self).rounds@, cert)
                        == rs1 && final(self).cooldowns@ == old(self).cooldowns@
                })
            },
    {
        let idx = match self.find_round(cert) {
            Some(i) => i,
            None => {
                return Ok(Vec::new());
            },
        };
        proof {
            assert(has_round(self.rounds@, cert));
            assert(round_idx(self.rounds@, cert) == idx);
        }
        let ghost items = agents@;
        let ghost pre_agents = store.agents@;
        proof {
            assert(items.skip(0) =~= items);
        }
        let n = agents.len();
        let mut i: usize = 0;
        while i < n
            invariant
                0 <= i <= n,
                n == agents@.len(),
                agents@ == items,
                store.wf(),
                store.space == old(store).space,
                store.ops@ == old(store).ops@,
                merge_agents_step(pre_agents, items, self.space) == merge_agents_step(
                    store.agents@,
                    items.skip(i as int),
                    self.space,
                ),
                self == old(self),
            decreases n - i,
        {
            let info = agents[i];
            proof {
                assert(items.skip(i as int)[0] == items[i as int]);
                assert(items.skip(i as int).drop_first() =~= items.skip(i + 1 as int));
            }
            if info.space == self.space {
                store.store_agent_info(info);
            }
            i += 1;
        }
        proof {
            assert(items.skip(n as int) =~= Seq::<AgentInfo>::empty());
        }
        let ghost prev = self.rounds@;
        let (c, rs0) = self.rounds.remove(idx);
        let rs1 = RoundState { agent_diff_received: true, last_touched_at: now, ..rs0 };
        self.rounds.insert(idx, (c, rs1));
        proof {
            assert(self.rounds@ =~= prev.update(idx as int, (prev[idx as int].0, rs1)));
            lemma_rounds_update_other(prev, idx as int, rs1, cert);
        }
        self.finish_if_complete(cert, now);
        Ok(Vec::new())
    }

    /// The peer asks for our op diff with a fresh filter: the resume path
    /// for the op side. Needs a live round.
    pub fn incoming_ops(
        &mut self,
        store: &GossipStore,
        cert: u64,
        remote_bloom: BloomFilter,
        now: u64,
    ) -> (r: Result<Vec<ShardedGossipWire>, GossipError>)
        requires
            old(self).wf(),
            store.wf(),
            remote_bloom.wf(),
        ensures
            final(self).wf(),
            final(self).space == old(self).space,
            final(self).config == old(self).config,
            final(self).local_agents@ == old(self).local_agents@,
            !has_round(old(self).rounds@, cert) ==> final(self).rounds@ == old(self).rounds@
                && final(self).cooldowns@ == old(self).cooldowns@ && r == Err::<
                Vec<ShardedGossipWire>,
                GossipError,
            >(GossipError::NoRoundForPeer),
            has_round(old(self).rounds@, cert) ==> {
                let rs0 = round_of(old(self).rounds@, cert);
                let rs1 = ops_sent_applied(rs0, now);
                &&& rounds_preserved_except(old(self).rounds@, final(self).rounds@, cert)
                &&& r is Ok
                &&& r->Ok_0@.len() == 1
                &&& ops_diff_msg_ok(r->Ok_0@[0], *store, rs0.common_arc_set, remote_bloom)
                &&& (if rs1.spec_is_complete() {
                    &&& !has_round(final(self).rounds@, cert)
                    &&& has_cooldown(final(self).cooldowns@, cert)
                    &&& cooldown_of(final(self).cooldowns@, cert) == spec_cooldown_until(
                        now,
                        old(self).config.cooldown_ms,
                    )
                    &&& cooldowns_preserved_except(
                        old(self).cooldowns@,
                        final(self).cooldowns@,
                        cert,
                    )
                } else {
                    has_round(final(self).rounds@, cert) && round_of(final(self).rounds@, cert)
                        == rs1 && final(self).cooldowns@ == old(self).cooldowns@
                })
            },
    {
        let idx = match self.find_round(cert) {
            Some(i) => i,
            None => {
                return Err(GossipError::NoRoundForPeer);
            },
        };
        proof {
            assert(has_round(self.rounds@, cert));
            assert(round_idx(self.rounds@, cert) == idx);
        }
        let response = self.ops_diff_response(
            store,
            &self.rounds[idx].1.common_arc_set,
            &remote_bloom,
        );
        let ghost prev = self.rounds@;
        let (c, rs0) = self.rounds.remove(idx);
        let rs1 = RoundState { ops_diff_sent: true, last_touched_at: now, ..rs0 };
        self.rounds.insert(idx, (c, rs1));
        proof {
            assert(self.rounds@ =~= prev.update(idx as int, (prev[idx as int].0, rs1)));
            lemma_rounds_update_other(prev, idx as int, rs1, cert);
        }
        self.finish_if_complete(cert, now);
        let mut msgs: Vec<ShardedGossipWire> = Vec::new();
        msgs.push(response);
        Ok(msgs)
    }

    /// The peer pushed op payloads our filter showed us missing. Each
    /// payload's hash is recomputed: an item whose claimed hash does not
    /// match is dropped and the rest still merge, idempotently. A batch
    /// marked finished closes the peer's op diff; when both sides are
    /// done the round completes. Without a live round nothing is applied.
    pub fn incoming_missing_ops(
        &mut self,
        store: &mut GossipStore,
        cert: u64,
        ops: Vec<(u64, Vec<u8>)>,
        finished: bool,
        now: u64,
    ) -> (r: Result<Vec<ShardedGossipWire>, GossipError>)
        requires
            old(self).wf(),
            old(store).wf(),
        ensures
            final(self).wf(),
            final(store).wf(),
            final(self).space == old(self).space,
            final(self).config == old(self).config,
            final(self).local_agents@ == old(self).local_agents@,
            final(store).space == old(store).space,
            final(store).agents@ == old(store).agents@,
            (r matches Ok(msgs) && msgs@.len() == 0),
            !has_round(old(self).rounds@, cert) ==> final(self).rounds@ == old(self).rounds@
                && final(self).cooldowns@ == old(self).cooldowns@ && final(store).ops@ == old(
                store,
            ).ops@,
            has_round(old(self).rounds@, cert) ==> {
                let rs0 = round_of(old(self).rounds@, cert);
                let rs1 = ops_recv_applied(rs0, finished, now);
                &&& final(store).ops@ == integrate_step(old(store).ops@, ops@, now)
                &&& rounds_preserved_except(old(self).rounds@, final(self).rounds@, cert)
                &&& (if rs1.spec_is_complete() {
                    &&& !has_round(final(self).rounds@, cert)
                    &&& has_cooldown(final(self).cooldowns@, cert)
                    &&& cooldown_of(final(self).cooldowns@, cert) == spec_cooldown_until(
                        now,
                        old(self).config.cooldown_ms,
                    )
                    &&& cooldowns_preserved_except(
                        old(self).cooldowns@,
                        final(self).cooldowns@,
                        cert,
                    )
                } else {
                    has_round(final(self).rounds@, cert) && round_of(final(self).rounds@, cert)
                        == rs1 && final(self).cooldowns@ == old(self).cooldowns@
                })
            },
    {
        let idx = match self.find_round(cert) {
            Some(i) => i,
            None => {
                return Ok(Vec::new());
            },
        };
        proof {
            assert(has_round(self.rounds@, cert));
            assert(round_idx(self.rounds@, cert) == idx);
        }
        let mut workspace = IntegrateDhtOpsWorkspace::new();
        let ghost items = ops@;
        let mut ops = ops;
        while ops.len() > 0
            invariant
                workspace.integration_queue@ + ops@ == items,
            decreases ops@.len(),
        {
            let ghost q_prev = workspace.integration_queue@;
            let ghost o_prev = ops@;
            let (h, pl) = ops.remove(0);
            workspace.queue_op(h, pl);
            proof {
                assert(ops@ =~= o_prev.drop_first());
                assert(workspace.integration_queue@ + ops@ =~= q_prev + o_prev);
            }
        }
        proof {
            assert(workspace.integration_queue@ =~= items);
        }
        let _counts = integrate_dht_ops_workflow(&mut workspace, store, now);
        let ghost prev = self.rounds@;
        let (c, rs0) = self.rounds.remove(idx);
        let rs1 = RoundState {
            ops_diff_received: rs0.ops_diff_received || finished,
            last_touched_at: now,
            ..rs0
        };
        self.rounds.insert(idx, (c, rs1));
        proof {
            assert(self.rounds@ =~= prev.update(idx as int, (prev[idx as int].0, rs1)));
            lemma_rounds_update_other(prev, idx as int, rs1, cert);
        }
        self.finish_if_complete(cert, now);
        Ok(Vec::new())
    }

    /// Tear the round down and start the peer's cooldown when both diffs
    /// have crossed in both directions.
    fn finish_if_complete(&mut self, cert: u64, now: u64)
        requires
            old(self).wf(),
        ensures
            final(self).wf(),
            final(self).space == old(self).space,
            final(self).config == old(self).config,
            final(self).local_agents@ == old(self).local_agents@,
            rounds_preserved_except(old(self).rounds@, final(self).rounds@, cert),
            !has_round(old(self).rounds@, cert) ==> final(self).rounds@ == old(self).rounds@
                && final(self).cooldowns@ == old(self).cooldowns@,
            has_round(old(self).rounds@, cert) && !round_of(
                old(self).rounds@,
                cert,
            ).spec_is_complete() ==> final(self).rounds@ == old(self).rounds@
                && final(self).cooldowns@ == old(self).cooldowns@,
            has_round(old(self).rounds@, cert) && round_of(
                old(self).rounds@,
                cert,
            ).spec_is_complete() ==> {
                &&& !has_round(final(self).rounds@, cert)
                &&& has_cooldown(final(self).cooldowns@, cert)
                &&& cooldown_of(final(self).cooldowns@, cert) == spec_cooldown_until(
                    now,
                    old(self).config.cooldown_ms,
                )
                &&& cooldowns_preserved_except(
                    old(self).cooldowns@,
                    final(self).cooldowns@,
                    cert,
                )
            },
    {
        let idx = match self.find_round(cert) {
            Some(i) => i,
            None => {
                return ;
            },
        };
        proof {
            assert(has_round(self.rounds@, cert));
            assert(round_idx(self.rounds@, cert) == idx);
        }
        let complete = self.rounds[idx].1.is_complete();
        if complete {
            let ghost prev = self.rounds@;
            self.purge_round(idx);
            proof {
                lemma_rounds_remove(prev, idx as int);
            }
            let until = if now <= u64::MAX - self.config.cooldown_ms {
                now + self.config.cooldown_ms
            } else {
                u64::MAX
            };
            self.set_cooldown(cert, until);
        }
    }

    /// Route one raw frame from a peer into its round. A frame that is
    /// not a well-formed message is refused with no effect at all; a
    /// well-formed one is handled by the matching handler above, and the
    /// outcome is exactly that handler's, on the decoded fields.
    pub fn incoming_gossip(
        &mut self,
        store: &mut GossipStore,
        cert: u64,
        gossip_data: &[u8],
        now: u64,
    ) -> (r: Result<Vec<ShardedGossipWire>, GossipError>)
        requires
            old(self).wf(),
            old(store).wf(),
        ensures
            final(self).wf(),
            final(store).wf(),
            final(self).space == old(self).space,
            final(self).config == old(self).config,
            final(self).local_agents@ == old(self).local_agents@,
            final(store).space == old(store).space,
            spec_decode(gossip_data@) is None <==> r == Err::<
                Vec<ShardedGossipWire>,
                GossipError,
            >(GossipError::BadWireData),
            spec_decode(gossip_data@) is None ==> final(self).rounds@ == old(self).rounds@
                && final(self).cooldowns@ == old(self).cooldowns@ && final(store).agents@ == old(
                store,
            ).agents@ && final(store).ops@ == old(store).ops@,
            spec_decode(gossip_data@) matches Some(f) ==> gossip_outcome_ok(
                *old(self),
                *final(self),
                *old(store),
                *final(store),
                f,
                cert,
                now,
                r,
            ),
    {
        let msg = match crate::wire::decode(gossip_data) {
            Ok(m) => m,
            Err(e) => {
                return Err(GossipError::BadWireData);
            },
        };
        match msg {
            ShardedGossipWire::Initiate {
                intervals,
                initiator_agent,
                started_at,
                agent_bloom,
                ops_bloom,
            } => self.route_initiate(
                store,
                cert,
                intervals,
                initiator_agent,
                started_at,
                agent_bloom,
                ops_bloom,
                now,
            ),
            ShardedGossipWire::Accept { intervals, common_digest, agent_bloom, ops_bloom } => self
                .route_accept(store, cert, intervals, common_digest, agent_bloom, ops_bloom, now),
            ShardedGossipWire::Agents { bloom } => self.route_agents(store, cert, bloom, now),
            ShardedGossipWire::MissingAgents { agents } => self.route_missing_agents(
                store,
                cert,
                agents,
                now,
            ),
            ShardedGossipWire::NoAgents => self.route_no_agents(store, cert, now),
            ShardedGossipWire::Ops { bloom } => self.route_ops(store, cert, bloom, now),
            ShardedGossipWire::MissingOps { ops, finished } => self.route_missing_ops(
                store,
                cert,
                ops,
                finished,
                now,
            ),
        }
    }

    /// Route a decoded opening message.
    #[verifier::rlimit(100)]
    fn route_initiate(
        &mut self,
        store: &mut GossipStore,
        cert: u64,
        intervals: Vec<ArcInterval>,
        initiator_agent: u64,
        started_at: u64,
        agent_bloom: BloomFilter,
        ops_bloom: BloomFilter,
        now: u64,
    ) -> (r: Result<Vec<ShardedGossipWire>, GossipError>)
        requires
            old(self).wf(),
            old(store).wf(),
            agent_bloom.wf(),
            ops_bloom.wf(),
        ensures
            final(self).wf(),
            final(store).wf(),
            final(self).space == old(self).space,
            final(self).config == old(self).config,
            final(self).local_agents@ == old(self).local_agents@,
            final(store).space == old(store).space,
            r != Err::<Vec<ShardedGossipWire>, GossipError>(GossipError::BadWireData),
            gossip_outcome_ok(
                *old(self),
                *final(self),
                *old(store),
                *final(store),
                (WireForm::Initiate {
                    intervals: intervals@,
                    initiator_agent,
                    started_at,
                    agent_bloom: agent_bloom.form(),
                    ops_bloom: ops_bloom.form(),
                }),
                cert,
                now,
                r,
            ),
    {
        let ghost g_ivs = intervals;
        let ghost g_ab = agent_bloom;
        let ghost g_ob = ops_bloom;
        let r = self.incoming_initiate(
            store,
            cert,
            intervals,
            initiator_agent,
            started_at,
            agent_bloom,
            ops_bloom,
            now,
        );
        proof {
            let ghost form = WireForm::Initiate {
                intervals: g_ivs@,
                initiator_agent,
                started_at,
                agent_bloom: g_ab.form(),
                ops_bloom: g_ob.form(),
            };
            assert(gossip_outcome_ok(
                *old(self),
                *self,
                *old(store),
                *store,
                form,
                cert,
                now,
                r,
            )) by {
                reveal(gossip_outcome_ok);
                if old(self).local_agents@.len() > 0 && (!has_round(old(self).rounds@, cert)
                    || tie_break_prefers(
                    started_at,
                    initiator_agent,
                    round_of(old(self).rounds@, cert),
                )) {
                    assert(accept_outcome_ok(
                        *old(self),
                        *self,
                        *old(store),
                        cert,
                        g_ivs@,
                        form->Initiate_initiator_agent,
                        form->Initiate_started_at,
                        now,
                        g_ab,
                        g_ob,
                        r->Ok_0@,
                    ));
                }
            }
        }
        r
    }

    /// Route a decoded Accept.
    #[verifier::rlimit(100)]
    #[verifier::spinoff_prover]
    fn route_accept(
        &mut self,
        store: &mut GossipStore,
        cert: u64,
        intervals: Vec<ArcInterval>,
        common_digest: u64,
        agent_bloom: BloomFilter,
        ops_bloom: BloomFilter,
        now: u64,
    ) -> (r: Result<Vec<ShardedGossipWire>, GossipError>)
        requires
            old(self).wf(),
            old(store).wf(),
            agent_bloom.wf(),
            ops_bloom.wf(),
        ensures
            final(self).wf(),
            final(store).wf(),
            final(self).space == old(self).space,
            final(self).config == old(self).config,
            final(self).local_agents@ == old(self).local_agents@,
            final(store).space == old(store).space,
            r != Err::<Vec<ShardedGossipWire>, GossipError>(GossipError::BadWireData),
            gossip_outcome_ok(
                *old(self),
                *final(self),
                *old(store),
                *final(store),
                (WireForm::Accept {
                    intervals: intervals@,
                    common_digest,
                    agent_bloom: agent_bloom.form(),
                    ops_bloom: ops_bloom.form(),
                }),
                cert,
                now,
                r,
            ),
    {
        let ghost g_ivs = intervals;
        let ghost g_ab = agent_bloom;
        let ghost g_ob = ops_bloom;
        let r = self.incoming_accept(store, cert, common_digest, agent_bloom, ops_bloom, now);
        proof {
            assert(gossip_outcome_ok(
                *old(self),
                *self,
                *old(store),
                *store,
                (WireForm::Accept {
                    intervals: g_ivs@,
                    common_digest,
                    agent_bloom: g_ab.form(),
                    ops_bloom: g_ob.form(),
                }),
                cert,
                now,
                r,
            )) by {
                reveal(gossip_outcome_ok);
                if has_round(old(self).rounds@, cert) {
                    let rs0 = round_of(old(self).rounds@, cert);
                    if rs0.spec_phase() == RoundPhase::Initiated && common_digest
                        == rs0.sent_intervals_digest {
                        assert(agents_diff_msg_ok(
                            r->Ok_0@[0],
                            *old(store),
                            rs0.common_arc_set,
                            g_ab,
                        ));
                        assert(ops_diff_msg_ok(
                            r->Ok_0@[1],
                            *old(store),
                            rs0.common_arc_set,
                            g_ob,
                        ));
                    }
                }
            }
        }
        r
    }

    /// Route a decoded agent-filter request.
    #[verifier::rlimit(100)]
    #[verifier::spinoff_prover]
    fn route_agents(
        &mut self,
        store: &mut GossipStore,
        cert: u64,
        bloom: BloomFilter,
        now: u64,
    ) -> (r: Result<Vec<ShardedGossipWire>, GossipError>)
        requires
            old(self).wf(),
            old(store).wf(),
            bloom.wf(),
        ensures
            final(self).wf(),
            final(store).wf(),
            final(self).space == old(self).space,
            final(self).config == old(self).config,
            final(self).local_agents@ == old(self).local_agents@,
            final(store).space == old(store).space,
            r != Err::<Vec<ShardedGossipWire>, GossipError>(GossipError::BadWireData),
            gossip_outcome_ok(
                *old(self),
                *final(self),
                *old(store),
                *final(store),
                (WireForm::Agents { bloom: bloom.form() }),
                cert,
                now,
                r,
            ),
    {
        let ghost g_b = bloom;
        let r = self.incoming_agents(store, cert, bloom, now);
        proof {
            assert(gossip_outcome_ok(
                *old(self),
                *self,
                *old(store),
                *store,
                (WireForm::Agents { bloom: g_b.form() }),
                cert,
                now,
                r,
            )) by {
                reveal(gossip_outcome_ok);
                if has_round(old(self).rounds@, cert) {
                    let rs0 = round_of(old(self).rounds@, cert);
                    assert(agents_diff_msg_ok(r->Ok_0@[0], *old(store), rs0.common_arc_set, g_b));
                }
            }
        }
        r
    }

    /// Route a decoded agent push.
    #[verifier::rlimit(100)]
    #[verifier::spinoff_prover]
    fn route_missing_agents(
        &mut self,
        store: &mut GossipStore,
        cert: u64,
        agents: Vec<AgentInfo>,
        now: u64,
    ) -> (r: Result<Vec<ShardedGossipWire>, GossipError>)
        requires
            old(self).wf(),
            old(store).wf(),
        ensures
            final(self).wf(),
            final(store).wf(),
            final(self).space == old(self).space,
            final(self).config == old(self).config,
            final(self).local_agents@ == old(self).local_agents@,
            final(store).space == old(store).space,
            r != Err::<Vec<ShardedGossipWire>, GossipError>(GossipError::BadWireData),
            gossip_outcome_ok(
                *old(self),
                *final(self),
                *old(store),
                *final(store),
                (WireForm::MissingAgents { agents: agents@ }),
                cert,
                now,
                r,
            ),
    {
        let ghost g_agents = agents@;
        let r = self.incoming_missing_agents(store, cert, agents, now);
        proof {
            assert(gossip_outcome_ok(
                *old(self),
                *self,
                *old(store),
                *store,
                (WireForm::MissingAgents { agents: g_agents }),
                cert,
                now,
                r,
            )) by {
                reveal(gossip_outcome_ok);
            }
        }
        r
    }

    /// Route a decoded NoAgents.
    #[verifier::rlimit(100)]
    #[verifier::spinoff_prover]
    fn route_no_agents(&mut self, store: &mut GossipStore, cert: u64, now: u64) -> (r: Result<
        Vec<ShardedGossipWire>,
        GossipError,
    >)
        requires
            old(self).wf(),
            old(store).wf(),
        ensures
            final(self).wf(),
            final(store).wf(),
            final(self).space == old(self).space,
            final(self).config == old(self).config,
            final(self).local_agents@ == old(self).local_agents@,
            final(store).space == old(store).space,
            final(store).agents@ == old(store).agents@,
            final(store).ops@ == old(store).ops@,
            r != Err::<Vec<ShardedGossipWire>, GossipError>(GossipError::BadWireData),
            gossip_outcome_ok(
                *old(self),
                *final(self),
                *old(store),
                *final(store),
                WireForm::NoAgents,
                cert,
                now,
                r,
            ),
    {
        let r = self.incoming_no_agents(cert, now);
        proof {
            assert(gossip_outcome_ok(
                *old(self),
                *self,
                *old(store),
                *store,
                WireForm::NoAgents,
                cert,
                now,
                r,
            )) by {
                reveal(gossip_outcome_ok);
            }
        }
        r
    }

    /// Route a decoded op-filter request.
    #[verifier::rlimit(100)]
    #[verifier::spinoff_prover]
    fn route_ops(
        &mut self,
        store: &mut GossipStore,
        cert: u64,
        bloom: BloomFilter,
        now: u64,
    ) -> (r: Result<Vec<ShardedGossipWire>, GossipError>)
        requires
            old(self).wf(),
            old(store).wf(),
            bloom.wf(),
        ensures
            final(self).wf(),
            final(store).wf(),
            final(self).space == old(self).space,
            final(self).config == old(self).config,
            final(self).local_agents@ == old(self).local_agents@,
            final(store).space == old(store).space,
            r != Err::<Vec<ShardedGossipWire>, GossipError>(GossipError::BadWireData),
            gossip_outcome_ok(
                *old(self),
                *final(self),
                *old(store),
                *final(store),
                (WireForm::Ops { bloom: bloom.form() }),
                cert,
                now,
                r,
            ),
    {
        let ghost g_b = bloom;
        let r = self.incoming_ops(store, cert, bloom, now);
        proof {
            assert(gossip_outcome_ok(
                *old(self),
                *self,
                *old(store),
                *store,
                (WireForm::Ops { bloom: g_b.form() }),
                cert,
                now,
                r,
            )) by {
                reveal(gossip_outcome_ok);
                if has_round(old(self).rounds@, cert) {
                    let rs0 = round_of(old(self).rounds@, cert);
                    assert(ops_diff_msg_ok(r->Ok_0@[0], *old(store), rs0.common_arc_set, g_b));
                }
            }
        }
        r
    }

    /// Route a decoded op push.
    #[verifier::rlimit(100)]
    #[verifier::spinoff_prover]
    fn route_missing_ops(
        &mut self,
        store: &mut GossipStore,
        cert: u64,
        ops: Vec<(u64, Vec<u8>)>,
        finished: bool,
        now: u64,
    ) -> (r: Result<Vec<ShardedGossipWire>, GossipError>)
        requires
            old(self).wf(),
            old(store).wf(),
        ensures
            final(self).wf(),
            final(store).wf(),
            final(self).space == old(self).space,
            final(self).config == old(self).config,
            final(self).local_agents@ == old(self).local_agents@,
            final(store).space == old(store).space,
            r != Err::<Vec<ShardedGossipWire>, GossipError>(GossipError::BadWireData),
            gossip_outcome_ok(
                *old(self),
                *final(self),
                *old(store),
                *final(store),
                (WireForm::MissingOps {
                    ops: crate::wire::ops_form(ops@),
                    finished,
                }),
                cert,
                now,
                r,
            ),
    {
        let ghost g_ops = ops@;
        let r = self.incoming_missing_ops(store, cert, ops, finished, now);
        proof {
            assert(gossip_outcome_ok(
                *old(self),
                *self,
                *old(store),
                *store,
                (WireForm::MissingOps { ops: crate::wire::ops_form(g_ops), finished }),
                cert,
                now,
                r,
            )) by {
                reveal(gossip_outcome_ok);
                assert(crate::wire::ops_form(g_ops) =~= op_data_form(g_ops));
                if has_round(old(self).rounds@, cert) {
                    assert(op_data_form(g_ops) == crate::wire::ops_form(g_ops) && store.ops@
                        == integrate_step(old(store).ops@, g_ops, now));
                }
            }
        }
        r
    }
}

/// What the state of a round we accepted looks like.
pub open spec fn accept_round_ok(
    rs: RoundState,
    store: GossipStore,
    locals: Seq<u64>,
    initiator_agent: u64,
    remote_started_at: u64,
    now: u64,
    recv_intervals: Seq<ArcInterval>,
) -> bool {
    &&& rs.local_agent == locals[0]
    &&& rs.remote_agent == initiator_agent
    &&& rs.started_at == remote_started_at
    &&& rs.last_touched_at == now
    &&& !rs.initiated_by_us
    &&& rs.agent_diff_sent
    &&& !rs.agent_diff_received
    &&& rs.ops_diff_sent
    &&& !rs.ops_diff_received
    &&& rs.sent_intervals_digest == spec_arc_digest(recv_intervals)
    &&& forall|p: int|
        0 <= p < SPACE_LEN ==> (rs.common_arc_set.covers(p) <==> (node_coverage(
            store.agents@,
            locals,
            p,
        ) && ivs_cover(recv_intervals, p)))
}

/// What our Accept answer says: our coverage, the digest of the intervals
/// the initiator sent, and filters that every eligible local item tests
/// positive in.
#[verifier::opaque]
pub open spec fn accept_msg_ok(
    m: ShardedGossipWire,
    store: GossipStore,
    locals: Seq<u64>,
    recv_intervals: Seq<ArcInterval>,
    config: GossipConfig,
    common: ArcSet,
) -> bool {
    &&& m matches ShardedGossipWire::Accept { intervals, common_digest, agent_bloom, ops_bloom }
    &&& m->Accept_common_digest == spec_arc_digest(recv_intervals)
    &&& forall|p: int|
        0 <= p < SPACE_LEN ==> (ivs_cover(m->Accept_intervals@, p) <==> node_coverage(
            store.agents@,
            locals,
            p,
        ))
    &&& m->Accept_agent_bloom.wf()
    &&& m->Accept_ops_bloom.wf()
    &&& forall|a: AgentInfo|
        store.agents@.contains(a) && node_coverage(
            store.agents@,
            locals,
            spec_agent_loc(a.agent) as int,
        ) && ivs_cover(recv_intervals, spec_agent_loc(a.agent) as int)
            ==> m->Accept_agent_bloom.tests_positive(
            #[trigger] spec_agent_key(a.agent, a.signed_at),
        )
    &&& forall|i: int|
        0 <= i < store.ops@.len() && node_coverage(
            store.agents@,
            locals,
            (#[trigger] store.ops@[i]).basis as int,
        ) && ivs_cover(recv_intervals, store.ops@[i].basis as int)
            ==> m->Accept_ops_bloom.tests_positive(spec_op_key(store.ops@[i].hash))
    &&& built_bloom_ok(
        m->Accept_agent_bloom,
        agent_keys(eligible_agents(store.agents@, common)),
        eligible_agents(store.agents@, common).len() as int,
        config,
    )
    &&& built_bloom_ok(
        m->Accept_ops_bloom,
        op_keys(eligible_op_hashes(store.ops@, common, 0, u64::MAX)),
        eligible_op_hashes(store.ops@, common, 0, u64::MAX).len() as int,
        config,
    )
}


/// Arc intersection commutativity at the round level. The hypothesis is
/// the coverage clause of [`accept_round_ok`], which `incoming_initiate`
/// establishes for the stored round whenever an opening is accepted
/// (no live round for the certificate, or the tie-break preferred the
/// opening): the common arc set covers exactly the points covered by
/// both the local coverage and the peer's declared coverage — the same
/// set with the two sides taken in either order.
pub proof fn lemma_round_common_commutative(
    common: ArcSet,
    store: GossipStore,
    locals: Seq<u64>,
    recv_intervals: Seq<ArcInterval>,
)
    requires
        forall|p: int|
            0 <= p < SPACE_LEN ==> (common.covers(p) <==> (node_coverage(
                store.agents@,
                locals,
                p,
            ) && ivs_cover(recv_intervals, p))),
    ensures
        forall|p: int|
            0 <= p < SPACE_LEN ==> (common.covers(p) <==> (ivs_cover(recv_intervals, p)
                && node_coverage(store.agents@, locals, p))),
{
}

/// Arc wraparound at the round level, under the same hypothesis: when
/// the peer's declared coverage holds an interval spanning the space
/// boundary, the round's common arc set covers the first and the last
/// point of the space whenever the local coverage does — points on each
/// side of the wrap point.
pub proof fn lemma_round_common_wraparound(
    common: ArcSet,
    store: GossipStore,
    locals: Seq<u64>,
    recv_intervals: Seq<ArcInterval>,
    start: u32,
    end: u32,
)
    requires
        forall|p: int|
            0 <= p < SPACE_LEN ==> (common.covers(p) <==> (node_coverage(
                store.agents@,
                locals,
                p,
            ) && ivs_cover(recv_intervals, p))),
        recv_intervals.contains((ArcInterval::Bounded { start, end })),
        start > end,
    ensures
        node_coverage(store.agents@, locals, 0) ==> common.covers(0),
        node_coverage(store.agents@, locals, SPACE_LEN - 1) ==> common.covers(SPACE_LEN - 1),
{
    crate::arc::lemma_wrapping_interval_covers_boundary(start, end);
    let k = choose|k: int|
        0 <= k < recv_intervals.len() && recv_intervals[k] == (ArcInterval::Bounded {
            start,
            end,
        });
    assert(recv_intervals[k].spec_contains(0));
    assert(ivs_cover(recv_intervals, 0));
    assert(recv_intervals[k].spec_contains(SPACE_LEN - 1));
    assert(ivs_cover(recv_intervals, SPACE_LEN - 1));
}

proof fn lemma_rounds_update_other(prev: Seq<(u64, RoundState)>, i: int, rs: RoundState, cert: u64)
    requires
        certs_unique(prev),
        0 <= i < prev.len(),
        prev[i].0 == cert,
    ensures
        round_of(prev.update(i, (cert, rs)), cert) == rs,
        has_round(prev.update(i, (cert, rs)), cert),
        forall|c: u64|
            c != cert ==> ((has_round(prev.update(i, (cert, rs)), c) <==> has_round(prev, c)) && (
            has_round(prev, c) ==> round_of(prev.update(i, (cert, rs)), c) == round_of(prev, c))),
{
    let u = prev.update(i, (cert, rs));
    assert(u[i].0 == cert);
    assert(has_round(u, cert));
    assert forall|i2: int, j2: int|
        0 <= i2 < u.len() && 0 <= j2 < u.len() && (#[trigger] u[i2]).0 == (#[trigger] u[j2]).0
            implies i2 == j2 by {
        assert(u[i2].0 == prev[i2].0);
        assert(u[j2].0 == prev[j2].0);
    }
    let k = round_idx(u, cert);
    assert(0 <= k < u.len() && u[k].0 == cert);
    assert(u[k].0 == prev[k].0);
    assert(k == i);
    assert forall|c: u64|
        c != cert implies ((has_round(u, c) <==> has_round(prev, c)) && (has_round(prev, c)
            ==> round_of(u, c) == round_of(prev, c))) by {
        if has_round(u, c) {
            let k2 = choose|k2: int| 0 <= k2 < u.len() && (#[trigger] u[k2]).0 == c;
            assert(prev[k2].0 == c);
            assert(has_round(prev, c));
        }
        if has_round(prev, c) {
            let k2 = choose|k2: int| 0 <= k2 < prev.len() && (#[trigger] prev[k2]).0 == c;
            assert(k2 != i);
            assert(u[k2].0 == c);
            assert(has_round(u, c));
            let a = round_idx(u, c);
            assert(0 <= a < u.len() && u[a].0 == c);
            let b = round_idx(prev, c);
            assert(0 <= b < prev.len() && prev[b].0 == c);
            assert(a != i);
            assert(prev[a].0 == c);
            assert(a == b);
            assert(round_of(u, c) == round_of(prev, c));
        }
    }
}

proof fn lemma_rounds_push_other(prev: Seq<(u64, RoundState)>, cert: u64, rs: RoundState)
    requires
        certs_unique(prev),
        !has_round(prev, cert),
    ensures
        round_of(prev.push((cert, rs)), cert) == rs,
        has_round(prev.push((cert, rs)), cert),
        forall|c: u64|
            c != cert ==> ((has_round(prev.push((cert, rs)), c) <==> has_round(prev, c)) && (
            has_round(prev, c) ==> round_of(prev.push((cert, rs)), c) == round_of(prev, c))),
{
    let u = prev.push((cert, rs));
    assert(u[prev.len() as int].0 == cert);
    assert(has_round(u, cert));
    let k = round_idx(u, cert);
    assert(0 <= k < u.len() && u[k].0 == cert);
    assert(k == prev.len()) by {
        if k < prev.len() {
            assert(prev[k].0 == cert);
        }
    }
    assert forall|c: u64|
        c != cert implies ((has_round(u, c) <==> has_round(prev, c)) && (has_round(prev, c)
            ==> round_of(u, c) == round_of(prev, c))) by {
        if has_round(u, c) {
            let k2 = choose|k2: int| 0 <= k2 < u.len() && (#[trigger] u[k2]).0 == c;
            assert(k2 < prev.len());
            assert(prev[k2].0 == c);
            assert(has_round(prev, c));
        }
        if has_round(prev, c) {
            let k2 = choose|k2: int| 0 <= k2 < prev.len() && (#[trigger] prev[k2]).0 == c;
            assert(u[k2].0 == c);
            assert(has_round(u, c));
            let a = round_idx(u, c);
            assert(0 <= a < u.len() && u[a].0 == c);
            assert(a < prev.len()) by {
                if a == prev.len() {
                    assert(u[a].0 == cert);
                }
            }
            assert(prev[a].0 == c);
            let b = round_idx(prev, c);
            assert(0 <= b < prev.len() && prev[b].0 == c);
            assert(a == b);
        }
    }
}

proof fn lemma_rounds_remove(s: Seq<(u64, RoundState)>, i: int)
    requires
        certs_unique(s),
        0 <= i < s.len(),
    ensures
        certs_unique(s.remove(i)),
        !has_round(s.remove(i), s[i].0),
        forall|c: u64|
            c != s[i].0 ==> (has_round(s.remove(i), c) <==> has_round(s, c)),
        forall|c: u64|
            c != s[i].0 && has_round(s, c) ==> round_of(s.remove(i), c) == round_of(s, c),
{
    let t = s.remove(i);
    assert(forall|k: int| 0 <= k < i ==> t[k] == s[k]);
    assert(forall|k: int| i <= k < t.len() ==> t[k] == s[k + 1]);
    assert forall|i2: int, j2: int|
        0 <= i2 < t.len() && 0 <= j2 < t.len() && (#[trigger] t[i2]).0 == (#[trigger] t[j2]).0
            implies i2 == j2 by {
        let a = if i2 < i {
            i2
        } else {
            i2 + 1
        };
        let b = if j2 < i {
            j2
        } else {
            j2 + 1
        };
        assert(s[a].0 == s[b].0);
    }
    assert(!has_round(t, s[i].0)) by {
        if has_round(t, s[i].0) {
            let k = choose|k: int| 0 <= k < t.len() && (#[trigger] t[k]).0 == s[i].0;
            let a = if k < i {
                k
            } else {
                k + 1
            };
            assert(s[a].0 == s[i].0);
        }
    }
    assert forall|c: u64| c != s[i].0 implies (has_round(t, c) <==> has_round(s, c)) by {
        if has_round(t, c) {
            let k = choose|k: int| 0 <= k < t.len() && (#[trigger] t[k]).0 == c;
            let a = if k < i {
                k
            } else {
                k + 1
            };
            assert(s[a].0 == c);
        }
        if has_round(s, c) {
            let k = choose|k: int| 0 <= k < s.len() && (#[trigger] s[k]).0 == c;
            if k < i {
                assert(t[k].0 == c);
            } else {
                assert(k > i);
                assert(t[k - 1].0 == c);
            }
        }
    }
    assert forall|c: u64| c != s[i].0 && has_round(s, c) implies round_of(t, c) == round_of(
        s,
        c,
    ) by {
        let k = round_idx(t, c);
        assert(0 <= k < t.len() && t[k].0 == c);
        let a = if k < i {
            k
        } else {
            k + 1
        };
        assert(s[a].0 == c);
        let ji = round_idx(s, c);
        assert(0 <= ji < s.len() && s[ji].0 == c);
        assert(ji == a);
    }
}

} // verus!
