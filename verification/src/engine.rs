//! The sharded gossip engine: one per space.
//!
//! The engine owns the table from peer certificate to live [`RoundState`]
//! — at most one round per peer at any instant — opens rounds toward
//! chosen peers, answers their messages, and tears rounds down on
//! completion, protocol error, or timeout. It computes decisions and
//! outgoing messages only; the hosting service moves the bytes and drives
//! the clock, so rounds toward different peers never block each other.

use vstd::prelude::*;

use crate::arc::ArcSet;
use crate::arc::SPACE_LEN;
use crate::arc::ivs_cover;
use crate::hashing::spec_agent_key;
use crate::hashing::spec_agent_loc;
use crate::reconcile::agent_keys;
use crate::reconcile::build_agent_bloom;
use crate::reconcile::build_ops_bloom;
use crate::reconcile::built_bloom_ok;
use crate::reconcile::op_keys;
use crate::store::eligible_agents;
use crate::store::lemma_contains_push_u64;
use crate::store::eligible_op_hashes;
use crate::round::RoundState;
use crate::store::GossipStore;
use crate::store::has_agent;
use crate::store::agent_idx;
use crate::types::AgentInfo;
use crate::types::GossipConfig;
use crate::types::GossipError;
use crate::wire::ShardedGossipWire;
use crate::wire::arc_set_digest;

verus! {

/// Whether some live round in `s` belongs to `cert`.
pub open spec fn has_round(s: Seq<(u64, RoundState)>, cert: u64) -> bool {
    exists|i: int| 0 <= i < s.len() && (#[trigger] s[i]).0 == cert
}

/// The index of `cert`'s round; meaningful when [`has_round`] holds and
/// certificates are unique.
pub open spec fn round_idx(s: Seq<(u64, RoundState)>, cert: u64) -> int {
    choose|i: int| 0 <= i < s.len() && (#[trigger] s[i]).0 == cert
}

/// The round of `cert`.
pub open spec fn round_of(s: Seq<(u64, RoundState)>, cert: u64) -> RoundState {
    s[round_idx(s, cert)].1
}

/// At most one live round per peer certificate.
pub open spec fn certs_unique(s: Seq<(u64, RoundState)>) -> bool {
    forall|i: int, j: int|
        0 <= i < s.len() && 0 <= j < s.len() && (#[trigger] s[i]).0 == (#[trigger] s[j]).0 ==> i
            == j
}

/// Whether a cooldown entry for `cert` exists.
pub open spec fn has_cooldown(s: Seq<(u64, u64)>, cert: u64) -> bool {
    exists|i: int| 0 <= i < s.len() && (#[trigger] s[i]).0 == cert
}

/// The index of `cert`'s cooldown entry; meaningful when
/// [`has_cooldown`] holds and certificates are unique.
pub open spec fn cooldown_idx(s: Seq<(u64, u64)>, cert: u64) -> int {
    choose|i: int| 0 <= i < s.len() && (#[trigger] s[i]).0 == cert
}

/// The time `cert` becomes eligible again.
pub open spec fn cooldown_of(s: Seq<(u64, u64)>, cert: u64) -> u64 {
    s[cooldown_idx(s, cert)].1
}

/// The deadline a completed round sets: the completion time plus the
/// configured cooldown, capped at the top of the clock.
pub open spec fn spec_cooldown_until(now: u64, ms: u64) -> u64 {
    if now as int + ms as int <= u64::MAX as int {
        (now + ms) as u64
    } else {
        u64::MAX
    }
}

/// Cooldowns of every other peer are untouched.
pub open spec fn cooldowns_preserved_except(pre: Seq<(u64, u64)>, post: Seq<(u64, u64)>, cert: u64) -> bool {
    forall|c: u64|
        c != cert ==> ((has_cooldown(post, c) <==> has_cooldown(pre, c)) && (has_cooldown(pre, c)
            ==> cooldown_of(post, c) == cooldown_of(pre, c)))
}

/// At most one cooldown entry per peer certificate.
pub open spec fn cooldowns_unique(s: Seq<(u64, u64)>) -> bool {
    forall|i: int, j: int|
        0 <= i < s.len() && 0 <= j < s.len() && (#[trigger] s[i]).0 == (#[trigger] s[j]).0 ==> i
            == j
}

/// The points of the ring a node covers: those inside the stored arc of
/// some listed local agent.
pub open spec fn node_coverage(agents: Seq<AgentInfo>, locals: Seq<u64>, p: int) -> bool {
    exists|i: int|
        0 <= i < agents.len() && locals.contains((#[trigger] agents[i]).agent)
            && agents[i].storage_arc.spec_contains(p)
}


/// A pair of `kept` that came from a live (not expired) entry among the
/// first `seen` of `orig`.
pub open spec fn from_live(
    orig: Seq<(u64, RoundState)>,
    e: (u64, RoundState),
    seen: int,
    now: u64,
    timeout: u64,
) -> bool {
    exists|j: int|
        0 <= j < seen && #[trigger] orig[j] == e && !orig[j].1.spec_expired(now, timeout)
}

/// A certificate that came from an expired entry among the first `seen`
/// of `orig`.
pub open spec fn from_expired(
    orig: Seq<(u64, RoundState)>,
    c: u64,
    seen: int,
    now: u64,
    timeout: u64,
) -> bool {
    exists|j: int|
        0 <= j < seen && (#[trigger] orig[j]).0 == c && orig[j].1.spec_expired(now, timeout)
}

proof fn from_live_j(
    orig: Seq<(u64, RoundState)>,
    e: (u64, RoundState),
    seen: int,
    now: u64,
    timeout: u64,
) -> (j: int)
    requires
        from_live(orig, e, seen, now, timeout),
    ensures
        0 <= j < seen,
        orig[j] == e,
        !orig[j].1.spec_expired(now, timeout),
{
    choose|j: int|
        0 <= j < seen && #[trigger] orig[j] == e && !orig[j].1.spec_expired(now, timeout)
}

/// A cooldown entry taken from the first `seen` entries of `orig`.
pub open spec fn cd_from_prefix(orig: Seq<(u64, u64)>, e: (u64, u64), seen: int) -> bool {
    exists|j: int| 0 <= j < seen && #[trigger] orig[j] == e
}

proof fn cd_from_j(orig: Seq<(u64, u64)>, e: (u64, u64), seen: int) -> (j: int)
    requires
        cd_from_prefix(orig, e, seen),
    ensures
        0 <= j < seen,
        orig[j] == e,
{
    choose|j: int| 0 <= j < seen && #[trigger] orig[j] == e
}

proof fn from_expired_j(
    orig: Seq<(u64, RoundState)>,
    c: u64,
    seen: int,
    now: u64,
    timeout: u64,
) -> (j: int)
    requires
        from_expired(orig, c, seen, now, timeout),
    ensures
        0 <= j < seen,
        orig[j].0 == c,
        orig[j].1.spec_expired(now, timeout),
{
    choose|j: int|
        0 <= j < seen && (#[trigger] orig[j]).0 == c && orig[j].1.spec_expired(now, timeout)
}


/// The arc of the peer as the store last saw it.
pub open spec fn remote_arc_of(store: GossipStore, remote_agent: u64) -> crate::arc::DhtArc {
    store.agents@[agent_idx(store.agents@, remote_agent)].storage_arc
}

/// What the state of a round we initiated looks like.
pub open spec fn initiate_round_ok(
    rs: RoundState,
    store: GossipStore,
    locals: Seq<u64>,
    remote_agent: u64,
    now: u64,
) -> bool {
    &&& rs.local_agent == locals[0]
    &&& rs.remote_agent == remote_agent
    &&& rs.started_at == now
    &&& rs.last_touched_at == now
    &&& rs.initiated_by_us
    &&& !rs.agent_diff_sent
    &&& !rs.agent_diff_received
    &&& !rs.ops_diff_sent
    &&& !rs.ops_diff_received
    &&& forall|p: int|
        0 <= p < SPACE_LEN ==> (rs.common_arc_set.covers(p) <==> (node_coverage(
            store.agents@,
            locals,
            p,
        ) && remote_arc_of(store, remote_agent).spec_contains(p)))
}

/// What the opening message of a round we initiate says: our coverage,
/// our identity and start time, and filters that every eligible local
/// item tests positive in.
#[verifier::opaque]
pub open spec fn initiate_msg_ok(
    m: ShardedGossipWire,
    store: GossipStore,
    locals: Seq<u64>,
    remote_agent: u64,
    now: u64,
    config: GossipConfig,
    common: ArcSet,
) -> bool {
    &&& m matches ShardedGossipWire::Initiate {
        intervals,
        initiator_agent,
        started_at,
        agent_bloom,
        ops_bloom,
    }
    &&& m->Initiate_initiator_agent == locals[0]
    &&& m->Initiate_started_at == now
    &&& forall|p: int|
        0 <= p < SPACE_LEN ==> (ivs_cover(m->Initiate_intervals@, p) <==> node_coverage(
            store.agents@,
            locals,
            p,
        ))
    &&& m->Initiate_agent_bloom.wf()
    &&& m->Initiate_ops_bloom.wf()
    &&& forall|a: AgentInfo|
        store.agents@.contains(a) && node_coverage(
            store.agents@,
            locals,
            spec_agent_loc(a.agent) as int,
        ) && remote_arc_of(store, remote_agent).spec_contains(spec_agent_loc(a.agent) as int)
            ==> m->Initiate_agent_bloom.tests_positive(
            #[trigger] spec_agent_key(a.agent, a.signed_at),
        )
    &&& forall|i: int|
        0 <= i < store.ops@.len() && node_coverage(
            store.agents@,
            locals,
            (#[trigger] store.ops@[i]).basis as int,
        ) && remote_arc_of(store, remote_agent).spec_contains(store.ops@[i].basis as int)
            ==> m->Initiate_ops_bloom.tests_positive(
            crate::hashing::spec_op_key(store.ops@[i].hash),
        )
    &&& built_bloom_ok(
        m->Initiate_agent_bloom,
        agent_keys(eligible_agents(store.agents@, common)),
        eligible_agents(store.agents@, common).len() as int,
        config,
    )
    &&& built_bloom_ok(
        m->Initiate_ops_bloom,
        op_keys(eligible_op_hashes(store.ops@, common, 0, u64::MAX)),
        eligible_op_hashes(store.ops@, common, 0, u64::MAX).len() as int,
        config,
    )
}

/// The engine for one space: local agents, configuration, the per-peer
/// round table, and per-peer cooldowns after completed rounds.
#[derive(Clone, Debug)]
pub struct ShardedGossipLocal {
    /// The space this engine reconciles.
    pub space: u64,
    /// The agents this node speaks for.
    pub local_agents: Vec<u64>,
    /// Tuning.
    pub config: GossipConfig,
    /// The live rounds, one per peer certificate.
    pub rounds: Vec<(u64, RoundState)>,
    /// Certificates resting after a completed round, with the time they
    /// become eligible again.
    pub cooldowns: Vec<(u64, u64)>,
}

impl ShardedGossipLocal {
    /// Engine invariant: sound configuration, one round per certificate,
    /// one cooldown per certificate, no duplicate local agents.
    pub open spec fn wf(self) -> bool {
        &&& self.config.wf()
        &&& certs_unique(self.rounds@)
        &&& cooldowns_unique(self.cooldowns@)
        &&& self.local_agents@.no_duplicates()
    }

    /// A fresh engine with no rounds.
    pub fn new(space: u64, config: GossipConfig) -> (r: ShardedGossipLocal)
        requires
            config.wf(),
        ensures
            r.wf(),
            r.space == space,
            r.config == config,
            r.local_agents@.len() == 0,
            r.rounds@.len() == 0,
            r.cooldowns@.len() == 0,
    {
        ShardedGossipLocal {
            space,
            local_agents: Vec::new(),
            config,
            rounds: Vec::new(),
            cooldowns: Vec::new(),
        }
    }

    /// A local agent joins this space.
    pub fn local_agent_join(&mut self, agent: u64)
        requires
            old(self).wf(),
        ensures
            final(self).wf(),
            final(self).space == old(self).space,
            final(self).config == old(self).config,
            final(self).rounds@ == old(self).rounds@,
            final(self).cooldowns@ == old(self).cooldowns@,
            final(self).local_agents@.contains(agent),
            old(self).local_agents@.contains(agent) ==> final(self).local_agents@ == old(
                self,
            ).local_agents@,
            !old(self).local_agents@.contains(agent) ==> final(self).local_agents@ == old(
                self,
            ).local_agents@.push(agent),
    {
        let present = crate::store::contains_u64(&self.local_agents, agent);
        if !present {
            let ghost prev = self.local_agents@;
            self.local_agents.push(agent);
            proof {
                assert(self.local_agents@[prev.len() as int] == agent);
                assert(self.local_agents@.no_duplicates()) by {
                    assert(forall|i: int|
                        0 <= i < prev.len() ==> self.local_agents@[i] == prev[i]);
                }
            }
        } else {
            proof {
                assert(self.local_agents@.contains(agent));
            }
        }
    }

    /// A local agent leaves this space.
    pub fn local_agent_leave(&mut self, agent: u64)
        requires
            old(self).wf(),
        ensures
            final(self).wf(),
            final(self).space == old(self).space,
            final(self).config == old(self).config,
            final(self).rounds@ == old(self).rounds@,
            final(self).cooldowns@ == old(self).cooldowns@,
            !final(self).local_agents@.contains(agent),
            forall|a: u64|
                a != agent ==> (final(self).local_agents@.contains(a) == old(
                    self,
                ).local_agents@.contains(a)),
    {
        let n = self.local_agents.len();
        let mut out: Vec<u64> = Vec::new();
        let mut i: usize = 0;
        while i < n
            invariant
                0 <= i <= n,
                n == self.local_agents@.len(),
                self.local_agents@.no_duplicates(),
                !out@.contains(agent),
                forall|a: u64|
                    a != agent ==> (out@.contains(a) == self.local_agents@.take(
                        i as int,
                    ).contains(a)),
                out@.no_duplicates(),
                forall|a: u64| out@.contains(a) ==> self.local_agents@.contains(a),
            decreases n - i,
        {
            let ghost prev = out@;
            let a = self.local_agents[i];
            if a != agent {
                out.push(a);
                proof {
                    assert(self.local_agents@.take(i as int).contains(a) == false) by {
                        if self.local_agents@.take(i as int).contains(a) {
                            let k = choose|k: int|
                                0 <= k < i && self.local_agents@.take(i as int)[k] == a;
                            assert(self.local_agents@[k] == a);
                            assert(self.local_agents@[i as int] == a);
                        }
                    }
                    assert(!prev.contains(a));
                    assert(out@.no_duplicates());
                }
            }
            proof {
                assert forall|a2: u64|
                    a2 != agent implies (out@.contains(a2) == self.local_agents@.take(
                    i + 1 as int,
                ).contains(a2)) by {
                    assert(self.local_agents@.take(i + 1 as int) =~= self.local_agents@.take(
                        i as int,
                    ).push(self.local_agents@[i as int]));
                    lemma_contains_push_u64(self.local_agents@.take(i as int), self.local_agents@[i as int], a2);
                    if a != agent {
                        lemma_contains_push_u64(prev, a, a2);
                    }
                }
                assert(!out@.contains(agent)) by {
                    if out@.contains(agent) {
                        let k = choose|k: int| 0 <= k < out@.len() && out@[k] == agent;
                        if k < prev.len() {
                            assert(prev[k] == agent);
                        }
                    }
                }
            }
            i += 1;
        }
        proof {
            assert(self.local_agents@.take(n as int) =~= self.local_agents@);
        }
        self.local_agents = out;
    }

    /// Find the index of the live round for `cert`, if any.
    pub(crate) fn find_round(&self, cert: u64) -> (r: Option<usize>)
        ensures
            match r {
                Some(i) => i < self.rounds@.len() && self.rounds@[i as int].0 == cert,
                None => !has_round(self.rounds@, cert),
            },
    {
        let n = self.rounds.len();
        let mut i: usize = 0;
        while i < n
            invariant
                0 <= i <= n,
                n == self.rounds@.len(),
                forall|j: int| 0 <= j < i ==> (#[trigger] self.rounds@[j]).0 != cert,
            decreases n - i,
        {
            if self.rounds[i].0 == cert {
                return Some(i);
            }
            i += 1;
        }
        None
    }

    /// Whether a round is live for this peer: such a peer is not
    /// scheduled again until its round ends.
    pub fn is_busy(&self, cert: u64) -> (r: bool)
        ensures
            r == has_round(self.rounds@, cert),
    {
        match self.find_round(cert) {
            Some(i) => {
                proof {
                    assert(has_round(self.rounds@, cert));
                }
                true
            },
            None => false,
        }
    }

    /// How many rounds are live.
    pub fn active_rounds(&self) -> (r: usize)
        ensures
            r == self.rounds@.len(),
    {
        self.rounds.len()
    }

    /// Whether this peer is resting after a completed round.
    pub fn in_cooldown(&self, cert: u64, now: u64) -> (r: bool)
        requires
            self.wf(),
        ensures
            r == (exists|i: int|
                0 <= i < self.cooldowns@.len() && (#[trigger] self.cooldowns@[i]).0 == cert
                    && self.cooldowns@[i].1 > now),
    {
        let n = self.cooldowns.len();
        let mut i: usize = 0;
        while i < n
            invariant
                0 <= i <= n,
                n == self.cooldowns@.len(),
                forall|j: int|
                    0 <= j < i ==> !((#[trigger] self.cooldowns@[j]).0 == cert
                        && self.cooldowns@[j].1 > now),
            decreases n - i,
        {
            if self.cooldowns[i].0 == cert && self.cooldowns[i].1 > now {
                proof {
                    assert((self.cooldowns@[i as int]).0 == cert && self.cooldowns@[i as int].1
                        > now);
                }
                return true;
            }
            i += 1;
        }
        false
    }

    /// Record a cooldown for a peer whose round just completed.
    pub(crate) fn set_cooldown(&mut self, cert: u64, until: u64)
        requires
            old(self).wf(),
        ensures
            final(self).wf(),
            final(self).space == old(self).space,
            final(self).config == old(self).config,
            final(self).local_agents@ == old(self).local_agents@,
            final(self).rounds@ == old(self).rounds@,
            final(self).cooldowns@.len() <= old(self).cooldowns@.len() + 1,
            has_cooldown(final(self).cooldowns@, cert),
            cooldown_of(final(self).cooldowns@, cert) == until,
            forall|c: u64|
                c != cert ==> ((has_cooldown(final(self).cooldowns@, c) <==> has_cooldown(
                    old(self).cooldowns@,
                    c,
                )) && (has_cooldown(old(self).cooldowns@, c) ==> cooldown_of(
                    final(self).cooldowns@,
                    c,
                ) == cooldown_of(old(self).cooldowns@, c))),
    {
        let n = self.cooldowns.len();
        let mut i: usize = 0;
        while i < n
            invariant
                0 <= i <= n,
                self == old(self),
                n == self.cooldowns@.len(),
                old(self).wf(),
                forall|j: int| 0 <= j < i ==> (#[trigger] self.cooldowns@[j]).0 != cert,
            decreases n - i,
        {
            if self.cooldowns[i].0 == cert {
                let ghost prev = self.cooldowns@;
                self.cooldowns.set(i, (cert, until));
                proof {
                    assert(self.cooldowns@[i as int].0 == cert);
                    assert forall|i2: int, j2: int|
                        0 <= i2 < self.cooldowns@.len() && 0 <= j2 < self.cooldowns@.len() && (
                        #[trigger] self.cooldowns@[i2]).0 == (#[trigger] self.cooldowns@[j2]).0
                            implies i2 == j2 by {
                        assert(self.cooldowns@[i2].0 == prev[i2].0);
                        assert(self.cooldowns@[j2].0 == prev[j2].0);
                    }
                    let k = cooldown_idx(self.cooldowns@, cert);
                    assert(0 <= k < self.cooldowns@.len() && self.cooldowns@[k].0 == cert);
                    assert(k == i);
                    assert forall|c: u64|
                        c != cert implies ((has_cooldown(self.cooldowns@, c) <==> has_cooldown(
                        prev,
                        c,
                    )) && (has_cooldown(prev, c) ==> cooldown_of(self.cooldowns@, c)
                        == cooldown_of(prev, c))) by {
                        if has_cooldown(self.cooldowns@, c) {
                            let k2 = choose|k2: int|
                                0 <= k2 < self.cooldowns@.len() && (
                                #[trigger] self.cooldowns@[k2]).0 == c;
                            assert(prev[k2].0 == c);
                        }
                        if has_cooldown(prev, c) {
                            let k2 = choose|k2: int|
                                0 <= k2 < prev.len() && (#[trigger] prev[k2]).0 == c;
                            assert(k2 != i);
                            assert(self.cooldowns@[k2].0 == c);
                            let a = cooldown_idx(self.cooldowns@, c);
                            assert(0 <= a < self.cooldowns@.len() && self.cooldowns@[a].0 == c);
                            assert(a == k2);
                            let b = cooldown_idx(prev, c);
                            assert(0 <= b < prev.len() && prev[b].0 == c);
                            assert(b == k2);
                        }
                    }
                }
                return ;
            }
            i += 1;
        }
        let ghost prev = self.cooldowns@;
        self.cooldowns.push((cert, until));
        proof {
            assert(self.cooldowns@[prev.len() as int].0 == cert);
            assert forall|i2: int, j2: int|
                0 <= i2 < self.cooldowns@.len() && 0 <= j2 < self.cooldowns@.len() && (
                #[trigger] self.cooldowns@[i2]).0 == (#[trigger] self.cooldowns@[j2]).0 implies i2
                == j2 by {
                if i2 < prev.len() && j2 == prev.len() {
                    assert(prev[i2].0 == cert);
                } else if j2 < prev.len() && i2 == prev.len() {
                    assert(prev[j2].0 == cert);
                }
            }
            let k = cooldown_idx(self.cooldowns@, cert);
            assert(0 <= k < self.cooldowns@.len() && self.cooldowns@[k].0 == cert);
            assert(k == prev.len()) by {
                if k < prev.len() {
                    assert(prev[k].0 == cert);
                }
            }
            assert forall|c: u64|
                c != cert implies ((has_cooldown(self.cooldowns@, c) <==> has_cooldown(prev, c))
                && (has_cooldown(prev, c) ==> cooldown_of(self.cooldowns@, c) == cooldown_of(
                prev,
                c,
            ))) by {
                if has_cooldown(self.cooldowns@, c) {
                    let k2 = choose|k2: int|
                        0 <= k2 < self.cooldowns@.len() && (#[trigger] self.cooldowns@[k2]).0
                            == c;
                    assert(k2 < prev.len());
                    assert(prev[k2].0 == c);
                }
                if has_cooldown(prev, c) {
                    let k2 = choose|k2: int| 0 <= k2 < prev.len() && (#[trigger] prev[k2]).0 == c;
                    assert(self.cooldowns@[k2].0 == c);
                    let a = cooldown_idx(self.cooldowns@, c);
                    assert(0 <= a < self.cooldowns@.len() && self.cooldowns@[a].0 == c);
                    assert(a < prev.len()) by {
                        if a == prev.len() {
                            assert(self.cooldowns@[a].0 == cert);
                        }
                    }
                    assert(a == k2);
                    let b = cooldown_idx(prev, c);
                    assert(0 <= b < prev.len() && prev[b].0 == c);
                    assert(b == k2);
                }
            }
        }
    }


    /// Open a round toward a peer. Refused while a round for that peer is
    /// live; quietly deferred when the concurrency cap is reached; needs
    /// a local agent and a stored record of the remote agent. On success
    /// the round table gains exactly this round, in `Initiated`, and the
    /// one message returned carries our coverage and our two filters.
    pub fn initiate(&mut self, store: &GossipStore, cert: u64, remote_agent: u64, now: u64) -> (r:
        Result<Vec<ShardedGossipWire>, GossipError>)
        requires
            old(self).wf(),
            store.wf(),
        ensures
            final(self).wf(),
            final(self).space == old(self).space,
            final(self).config == old(self).config,
            final(self).local_agents@ == old(self).local_agents@,
            final(self).cooldowns@ == old(self).cooldowns@,
            match r {
                Err(e) => final(self).rounds@ == old(self).rounds@ && (if has_round(
                    old(self).rounds@,
                    cert,
                ) {
                    e == GossipError::RoundAlreadyActive
                } else if old(self).rounds@.len() >= old(self).config.max_concurrent_rounds {
                    false
                } else if old(self).local_agents@.len() == 0 {
                    e == GossipError::NoLocalAgents
                } else {
                    e == GossipError::UnknownPeer && !has_agent(store.agents@, remote_agent)
                }),
                Ok(msgs) => !has_round(old(self).rounds@, cert) && (if old(self).rounds@.len()
                    >= old(self).config.max_concurrent_rounds {
                    msgs@.len() == 0 && final(self).rounds@ == old(self).rounds@
                } else {
                    &&& old(self).local_agents@.len() > 0
                    &&& has_agent(store.agents@, remote_agent)
                    &&& final(self).rounds@.len() == old(self).rounds@.len() + 1
                    &&& final(self).rounds@ == old(self).rounds@.push(final(self).rounds@.last())
                    &&& final(self).rounds@.last().0 == cert
                    &&& initiate_round_ok(
                        final(self).rounds@.last().1,
                        *store,
                        old(self).local_agents@,
                        remote_agent,
                        now,
                    )
                    &&& msgs@.len() == 1
                    &&& initiate_msg_ok(
                        msgs@[0],
                        *store,
                        old(self).local_agents@,
                        remote_agent,
                        now,
                        old(self).config,
                        final(self).rounds@.last().1.common_arc_set,
                    )
                }),
            },
    {
        if self.find_round(cert).is_some() {
            proof {
                assert(has_round(self.rounds@, cert));
            }
            return Err(GossipError::RoundAlreadyActive);
        }
        if self.rounds.len() >= self.config.max_concurrent_rounds {
            return Ok(Vec::new());
        }
        if self.local_agents.len() == 0 {
            return Err(GossipError::NoLocalAgents);
        }
        let remote_info = match store.get_agent_info(remote_agent) {
            Some(info) => info,
            None => {
                return Err(GossipError::UnknownPeer);
            },
        };
        proof {
            reveal(initiate_msg_ok);
        }
        let local_set = store.local_arcs(&self.local_agents);
        let ghost lsv = local_set;
        let remote_set = ArcSet::from_arc(&remote_info.storage_arc);
        let common = local_set.intersect(&remote_set);
        proof {
            assert forall|p: int|
                0 <= p < SPACE_LEN implies (ivs_cover(lsv.intervals@, p) <==> node_coverage(
                store.agents@,
                self.local_agents@,
                p,
            )) by {
                assert(lsv.covers(p) == ivs_cover(lsv.intervals@, p));
            }
        }
        let agent_bloom = build_agent_bloom(store, &common, &self.config);
        let ops_bloom = build_ops_bloom(store, &common, &self.config);
        let digest = arc_set_digest(&local_set.intervals);
        let local_agent = self.local_agents[0];
        let rs = RoundState {
            local_agent,
            remote_agent,
            common_arc_set: common,
            started_at: now,
            last_touched_at: now,
            sent_intervals_digest: digest,
            initiated_by_us: true,
            agent_diff_sent: false,
            agent_diff_received: false,
            ops_diff_sent: false,
            ops_diff_received: false,
        };
        let ghost prev = self.rounds@;
        self.rounds.push((cert, rs));
        proof {
            assert(self.rounds@[prev.len() as int].0 == cert);
            assert(self.rounds@.last() == (cert, rs));
            assert(self.rounds@ =~= prev.push(self.rounds@.last()));
            assert forall|i2: int, j2: int|
                0 <= i2 < self.rounds@.len() && 0 <= j2 < self.rounds@.len() && (
                #[trigger] self.rounds@[i2]).0 == (#[trigger] self.rounds@[j2]).0 implies i2
                == j2 by {
                if i2 < prev.len() && j2 == prev.len() {
                    assert(prev[i2].0 == cert);
                } else if j2 < prev.len() && i2 == prev.len() {
                    assert(prev[j2].0 == cert);
                }
            }
            assert(remote_info == store.agents@[agent_idx(store.agents@, remote_agent)]);
        }
        let msg = ShardedGossipWire::Initiate {
            intervals: local_set.intervals,
            initiator_agent: local_agent,
            started_at: now,
            agent_bloom,
            ops_bloom,
        };
        let mut msgs: Vec<ShardedGossipWire> = Vec::new();
        msgs.push(msg);
        Ok(msgs)
    }

    /// Timeout sweep: every round past its deadline is removed and its
    /// certificate returned, so the peer is schedulable again at once;
    /// every other round is kept untouched. Expired cooldowns are purged.
    pub fn tick(&mut self, now: u64) -> (r: Vec<u64>)
        requires
            old(self).wf(),
        ensures
            final(self).wf(),
            final(self).space == old(self).space,
            final(self).config == old(self).config,
            final(self).local_agents@ == old(self).local_agents@,
            forall|c: u64|
                has_round(final(self).rounds@, c) <==> (has_round(old(self).rounds@, c) && !round_of(
                    old(self).rounds@,
                    c,
                ).spec_expired(now, old(self).config.round_timeout_ms)),
            forall|c: u64|
                has_round(final(self).rounds@, c) ==> round_of(final(self).rounds@, c) == round_of(
                    old(self).rounds@,
                    c,
                ),
            forall|c: u64| #[trigger]
                r@.contains(c) <==> (has_round(old(self).rounds@, c) && round_of(
                    old(self).rounds@,
                    c,
                ).spec_expired(now, old(self).config.round_timeout_ms)),
            forall|c: u64|
                has_cooldown(final(self).cooldowns@, c) <==> (has_cooldown(
                    old(self).cooldowns@,
                    c,
                ) && cooldown_of(old(self).cooldowns@, c) > now),
            forall|c: u64|
                has_cooldown(final(self).cooldowns@, c) ==> cooldown_of(final(self).cooldowns@, c)
                    == cooldown_of(old(self).cooldowns@, c),
    {
        let timeout = self.config.round_timeout_ms;
        let ghost orig = self.rounds@;
        let mut work: Vec<(u64, RoundState)> = Vec::new();
        core::mem::swap(&mut work, &mut self.rounds);
        let mut kept: Vec<(u64, RoundState)> = Vec::new();
        let mut out: Vec<u64> = Vec::new();
        let ghost mut seen: int = 0;
        while work.len() > 0
            invariant
                0 <= seen <= orig.len(),
                work@ == orig.skip(seen),
                certs_unique(orig),
                timeout == self.config.round_timeout_ms,
                forall|k: int|
                    0 <= k < kept@.len() ==> from_live(orig, #[trigger] kept@[k], seen, now, timeout),
                forall|j: int|
                    0 <= j < seen && !((#[trigger] orig[j]).1.spec_expired(now, timeout))
                        ==> kept@.contains(orig[j]),
                forall|j: int|
                    0 <= j < seen && ((#[trigger] orig[j]).1.spec_expired(now, timeout))
                        ==> out@.contains(orig[j].0),
                forall|k: int|
                    0 <= k < out@.len() ==> from_expired(orig, #[trigger] out@[k], seen, now, timeout),
                certs_unique(kept@),
            decreases work@.len(),
        {
            let ghost work_prev = work@;
            let ghost kept_prev = kept@;
            let ghost out_prev = out@;
            let (cert, rs) = work.remove(0);
            proof {
                assert(work@ =~= work_prev.drop_first());
                assert((cert, rs) == orig[seen]);
                assert(work@ =~= orig.skip(seen + 1));
            }
            let expired = rs.is_expired(now, timeout);
            if expired {
                out.push(cert);
                proof {
                    assert(out@[out_prev.len() as int] == orig[seen].0);
                    assert(forall|k: int| 0 <= k < out_prev.len() ==> out@[k] == out_prev[k]);
                    assert(forall|k: int| 0 <= k < kept@.len() ==> kept@[k] == kept_prev[k]);
                    assert forall|k: int|
                        0 <= k < out@.len() implies from_expired(
                        orig,
                        #[trigger] out@[k],
                        seen + 1,
                        now,
                        timeout,
                    ) by {
                        if k < out_prev.len() {
                            let j = from_expired_j(orig, out_prev[k], seen, now, timeout);
                            assert(orig[j].0 == out@[k]);
                        } else {
                            assert(orig[seen].0 == out@[k] && orig[seen].1.spec_expired(
                                now,
                                timeout,
                            ));
                        }
                    }
                    assert forall|k: int|
                        0 <= k < kept@.len() implies from_live(
                        orig,
                        #[trigger] kept@[k],
                        seen + 1,
                        now,
                        timeout,
                    ) by {
                        let j = from_live_j(orig, kept_prev[k], seen, now, timeout);
                        assert(orig[j] == kept@[k]);
                    }
                    assert forall|j: int|
                        0 <= j < seen + 1 && ((#[trigger] orig[j]).1.spec_expired(now, timeout))
                            implies out@.contains(orig[j].0) by {
                        if j < seen {
                            let k = choose|k: int|
                                0 <= k < out_prev.len() && out_prev[k] == orig[j].0;
                            assert(out@[k] == orig[j].0);
                        } else {
                            assert(out@[out_prev.len() as int] == orig[j].0);
                        }
                    }
                }
            } else {
                proof {
                    assert(!has_round(kept_prev, cert)) by {
                        if has_round(kept_prev, cert) {
                            let k = choose|k: int|
                                0 <= k < kept_prev.len() && (#[trigger] kept_prev[k]).0 == cert;
                            let j = from_live_j(orig, kept_prev[k], seen, now, timeout);
                            assert(orig[j].0 == orig[seen].0);
                        }
                    }
                }
                kept.push((cert, rs));
                proof {
                    assert(kept@[kept_prev.len() as int] == orig[seen]);
                    assert(forall|k: int| 0 <= k < kept_prev.len() ==> kept@[k] == kept_prev[k]);
                    assert(forall|k: int| 0 <= k < out@.len() ==> out@[k] == out_prev[k]);
                    assert forall|k: int|
                        0 <= k < kept@.len() implies from_live(
                        orig,
                        #[trigger] kept@[k],
                        seen + 1,
                        now,
                        timeout,
                    ) by {
                        if k < kept_prev.len() {
                            let j = from_live_j(orig, kept_prev[k], seen, now, timeout);
                            assert(orig[j] == kept@[k]);
                        } else {
                            assert(orig[seen] == kept@[k] && !orig[seen].1.spec_expired(
                                now,
                                timeout,
                            ));
                        }
                    }
                    assert forall|k: int|
                        0 <= k < out@.len() implies from_expired(
                        orig,
                        #[trigger] out@[k],
                        seen + 1,
                        now,
                        timeout,
                    ) by {
                        let j = from_expired_j(orig, out_prev[k], seen, now, timeout);
                        assert(orig[j].0 == out@[k]);
                    }
                    assert forall|j: int|
                        0 <= j < seen + 1 && !((#[trigger] orig[j]).1.spec_expired(now, timeout))
                            implies kept@.contains(orig[j]) by {
                        if j < seen {
                            let k = choose|k: int|
                                0 <= k < kept_prev.len() && kept_prev[k] == orig[j];
                            assert(kept@[k] == orig[j]);
                        } else {
                            assert(kept@[kept_prev.len() as int] == orig[j]);
                        }
                    }
                    assert forall|i2: int, j2: int|
                        0 <= i2 < kept@.len() && 0 <= j2 < kept@.len() && (
                        #[trigger] kept@[i2]).0 == (#[trigger] kept@[j2]).0 implies i2 == j2 by {
                        if i2 < kept_prev.len() && j2 == kept_prev.len() {
                            assert(has_round(kept_prev, cert));
                        } else if j2 < kept_prev.len() && i2 == kept_prev.len() {
                            assert(has_round(kept_prev, cert));
                        }
                    }
                }
            }
            proof {
                seen = seen + 1;
            }
        }
        proof {
            assert(orig.skip(seen).len() == 0);
            assert(seen == orig.len());
        }
        self.rounds = kept;
        let ghost final_rounds = self.rounds@;
        proof {
            assert forall|c: u64|
                has_round(final_rounds, c) <==> (has_round(orig, c) && !round_of(
                    orig,
                    c,
                ).spec_expired(now, timeout)) by {
                if has_round(final_rounds, c) {
                    let k = choose|k: int|
                        0 <= k < final_rounds.len() && (#[trigger] final_rounds[k]).0 == c;
                    let j = from_live_j(orig, final_rounds[k], seen, now, timeout);
                    assert(orig[j].0 == c);
                    assert(has_round(orig, c));
                    let ji = round_idx(orig, c);
                    assert(0 <= ji < orig.len() && orig[ji].0 == c);
                    assert(ji == j);
                }
                if has_round(orig, c) && !round_of(orig, c).spec_expired(now, timeout) {
                    let ji = round_idx(orig, c);
                    assert(0 <= ji < orig.len() && orig[ji].0 == c);
                    assert(final_rounds.contains(orig[ji]));
                    let k = choose|k: int|
                        0 <= k < final_rounds.len() && final_rounds[k] == orig[ji];
                    assert(final_rounds[k].0 == c);
                    assert(has_round(final_rounds, c));
                }
            }
            assert forall|c: u64|
                has_round(final_rounds, c) implies round_of(final_rounds, c) == round_of(
                    orig,
                    c,
                ) by {
                let k = round_idx(final_rounds, c);
                assert(0 <= k < final_rounds.len() && final_rounds[k].0 == c);
                let j = from_live_j(orig, final_rounds[k], seen, now, timeout);
                let ji = round_idx(orig, c);
                assert(0 <= ji < orig.len() && orig[ji].0 == c);
                assert(ji == j);
            }
            assert forall|c: u64| #[trigger]
                out@.contains(c) implies (has_round(orig, c) && round_of(orig, c).spec_expired(
                    now,
                    timeout,
                )) by {
                let k = choose|k: int| 0 <= k < out@.len() && out@[k] == c;
                let j = from_expired_j(orig, out@[k], seen, now, timeout);
                assert(orig[j].0 == c);
                assert(has_round(orig, c));
                let ji = round_idx(orig, c);
                assert(ji == j);
            }
            assert forall|c: u64|
                (has_round(orig, c) && round_of(orig, c).spec_expired(now, timeout)) implies
                #[trigger] out@.contains(c) by {
                let ji = round_idx(orig, c);
                assert(0 <= ji < orig.len() && orig[ji].0 == c);
            }
        }
        // Purge cooldown entries that have run out.
        let ghost orig_cd = self.cooldowns@;
        let mut work_cd: Vec<(u64, u64)> = Vec::new();
        core::mem::swap(&mut work_cd, &mut self.cooldowns);
        let mut kept_cd: Vec<(u64, u64)> = Vec::new();
        let ghost mut seen_cd: int = 0;
        while work_cd.len() > 0
            invariant
                0 <= seen_cd <= orig_cd.len(),
                work_cd@ == orig_cd.skip(seen_cd),
                cooldowns_unique(orig_cd),
                cooldowns_unique(kept_cd@),
                forall|k2: int|
                    0 <= k2 < kept_cd@.len() ==> cd_from_prefix(
                        orig_cd,
                        #[trigger] kept_cd@[k2],
                        seen_cd,
                    ),
                forall|k2: int| 0 <= k2 < kept_cd@.len() ==> (#[trigger] kept_cd@[k2]).1 > now,
                forall|j: int|
                    0 <= j < seen_cd && (#[trigger] orig_cd[j]).1 > now ==> kept_cd@.contains(
                        orig_cd[j],
                    ),
            decreases work_cd@.len(),
        {
            let ghost work_prev = work_cd@;
            let ghost prev_cd = kept_cd@;
            let (cert, until) = work_cd.remove(0);
            proof {
                assert(work_cd@ =~= work_prev.drop_first());
                assert((cert, until) == orig_cd[seen_cd]);
                assert(work_cd@ =~= orig_cd.skip(seen_cd + 1));
            }
            if until > now {
                proof {
                    assert(!has_cooldown(prev_cd, cert)) by {
                        if has_cooldown(prev_cd, cert) {
                            let k = choose|k: int|
                                0 <= k < prev_cd.len() && (#[trigger] prev_cd[k]).0 == cert;
                            let j = cd_from_j(orig_cd, prev_cd[k], seen_cd);
                            assert(orig_cd[j].0 == orig_cd[seen_cd].0);
                        }
                    }
                }
                kept_cd.push((cert, until));
                proof {
                    assert(kept_cd@[prev_cd.len() as int] == orig_cd[seen_cd]);
                    assert(forall|k2: int|
                        0 <= k2 < prev_cd.len() ==> kept_cd@[k2] == prev_cd[k2]);
                    assert forall|k2: int|
                        0 <= k2 < kept_cd@.len() implies cd_from_prefix(
                        orig_cd,
                        #[trigger] kept_cd@[k2],
                        seen_cd + 1,
                    ) by {
                        if k2 < prev_cd.len() {
                            let j = cd_from_j(orig_cd, prev_cd[k2], seen_cd);
                            assert(orig_cd[j] == kept_cd@[k2]);
                        } else {
                            assert(orig_cd[seen_cd] == kept_cd@[k2]);
                        }
                    }
                    assert forall|j: int|
                        0 <= j < seen_cd + 1 && (#[trigger] orig_cd[j]).1 > now
                            implies kept_cd@.contains(orig_cd[j]) by {
                        if j < seen_cd {
                            let k2 = choose|k2: int|
                                0 <= k2 < prev_cd.len() && prev_cd[k2] == orig_cd[j];
                            assert(kept_cd@[k2] == orig_cd[j]);
                        } else {
                            assert(kept_cd@[prev_cd.len() as int] == orig_cd[j]);
                        }
                    }
                    assert forall|i2: int, j2: int|
                        0 <= i2 < kept_cd@.len() && 0 <= j2 < kept_cd@.len() && (
                        #[trigger] kept_cd@[i2]).0 == (#[trigger] kept_cd@[j2]).0 implies i2
                        == j2 by {
                        if i2 < prev_cd.len() && j2 == prev_cd.len() {
                            assert(has_cooldown(prev_cd, cert));
                        } else if j2 < prev_cd.len() && i2 == prev_cd.len() {
                            assert(has_cooldown(prev_cd, cert));
                        }
                    }
                }
            }
            proof {
                seen_cd = seen_cd + 1;
            }
        }
        proof {
            assert(orig_cd.skip(seen_cd).len() == 0);
            assert(seen_cd == orig_cd.len());
            assert forall|c: u64|
                has_cooldown(kept_cd@, c) <==> (has_cooldown(orig_cd, c) && cooldown_of(
                    orig_cd,
                    c,
                ) > now) by {
                if has_cooldown(kept_cd@, c) {
                    let k = choose|k: int|
                        0 <= k < kept_cd@.len() && (#[trigger] kept_cd@[k]).0 == c;
                    let j = cd_from_j(orig_cd, kept_cd@[k], seen_cd);
                    assert(orig_cd[j].0 == c);
                    assert(has_cooldown(orig_cd, c));
                    let ji = cooldown_idx(orig_cd, c);
                    assert(0 <= ji < orig_cd.len() && orig_cd[ji].0 == c);
                    assert(ji == j);
                    assert(cooldown_of(orig_cd, c) == kept_cd@[k].1);
                }
                if has_cooldown(orig_cd, c) && cooldown_of(orig_cd, c) > now {
                    let ji = cooldown_idx(orig_cd, c);
                    assert(0 <= ji < orig_cd.len() && orig_cd[ji].0 == c);
                    assert(orig_cd[ji].1 > now);
                    assert(kept_cd@.contains(orig_cd[ji]));
                    let k = choose|k: int| 0 <= k < kept_cd@.len() && kept_cd@[k] == orig_cd[ji];
                    assert(kept_cd@[k].0 == c);
                    assert(has_cooldown(kept_cd@, c));
                }
            }
            assert forall|c: u64|
                has_cooldown(kept_cd@, c) implies cooldown_of(kept_cd@, c) == cooldown_of(
                    orig_cd,
                    c,
                ) by {
                let k = cooldown_idx(kept_cd@, c);
                assert(0 <= k < kept_cd@.len() && kept_cd@[k].0 == c);
                let j = cd_from_j(orig_cd, kept_cd@[k], seen_cd);
                let ji = cooldown_idx(orig_cd, c);
                assert(0 <= ji < orig_cd.len() && orig_cd[ji].0 == c);
                assert(ji == j);
            }
        }
        self.cooldowns = kept_cd;
        out
    }
}



/// Round single-ownership: under the engine invariant, at most one live
/// round exists for any peer certificate at any instant — any two table
/// entries for the same certificate are the same entry.
pub proof fn lemma_round_single_ownership(g: ShardedGossipLocal, cert: u64)
    requires
        g.wf(),
    ensures
        forall|i: int, j: int|
            0 <= i < g.rounds@.len() && 0 <= j < g.rounds@.len() && (#[trigger] g.rounds@[i]).0
                == cert && (#[trigger] g.rounds@[j]).0 == cert ==> i == j,
{
}


} // verus!
