//! The node-local store the engine reconciles against.
//!
//! The store is the engine's view of the storage collaborator: agent-info
//! records keyed by agent, and ops keyed by content hash. Both merge
//! operations are idempotent — storing a known op again, or an older or
//! duplicate agent-info record, changes nothing — so duplicate delivery
//! from bloom false positives or retried rounds is harmless.

use vstd::prelude::*;

use crate::arc::ArcSet;
use crate::arc::SPACE_LEN;
use crate::hashing::agent_loc;
use crate::hashing::spec_agent_loc;
use crate::types::AgentInfo;
use crate::types::Op;

verus! {

/// Whether some record in `s` is for `agent`.
pub open spec fn has_agent(s: Seq<AgentInfo>, agent: u64) -> bool {
    exists|i: int| 0 <= i < s.len() && s[i].agent == agent
}

/// The index of the record for `agent`; meaningful when [`has_agent`]
/// holds and the records are unique per agent.
pub open spec fn agent_idx(s: Seq<AgentInfo>, agent: u64) -> int {
    choose|i: int| 0 <= i < s.len() && s[i].agent == agent
}

/// At most one record per agent.
pub open spec fn agents_unique(s: Seq<AgentInfo>) -> bool {
    forall|i: int, j: int|
        0 <= i < s.len() && 0 <= j < s.len() && s[i].agent == s[j].agent ==> i == j
}

/// What storing one agent-info record does: a record for a new agent is
/// appended; a strictly newer record replaces the agent's old one; an
/// older or equally old record changes nothing (last write wins, by
/// signing time).
pub open spec fn store_agent_step(s: Seq<AgentInfo>, info: AgentInfo) -> Seq<AgentInfo> {
    if !has_agent(s, info.agent) {
        s.push(info)
    } else if info.signed_at > s[agent_idx(s, info.agent)].signed_at {
        s.update(agent_idx(s, info.agent), info)
    } else {
        s
    }
}

/// Whether some op in `s` has content hash `h`.
pub open spec fn has_op(s: Seq<Op>, h: u64) -> bool {
    exists|i: int| 0 <= i < s.len() && s[i].hash == h
}

/// At most one op per content hash.
pub open spec fn ops_unique(s: Seq<Op>) -> bool {
    forall|i: int, j: int|
        0 <= i < s.len() && 0 <= j < s.len() && s[i].hash == s[j].hash ==> i == j
}

/// What storing one op does: a new hash is appended, a known hash changes
/// nothing. Ops are immutable, so there is nothing to replace.
pub open spec fn store_op_step(s: Seq<Op>, op: Op) -> Seq<Op> {
    if has_op(s, op.hash) {
        s
    } else {
        s.push(op)
    }
}


/// The records eligible for an arc set, in store order: those whose
/// agent sits inside it, one each.
pub open spec fn eligible_agents(s: Seq<AgentInfo>, arcs: ArcSet) -> Seq<AgentInfo>
    decreases s.len(),
{
    if s.len() == 0 {
        Seq::empty()
    } else {
        let rest = eligible_agents(s.drop_last(), arcs);
        if arcs.covers(spec_agent_loc(s.last().agent) as int) {
            rest.push(s.last())
        } else {
            rest
        }
    }
}

/// Whether one op is eligible for an arc set and a time window.
pub open spec fn op_in_window(op: Op, arcs: ArcSet, since: u64, until: u64) -> bool {
    arcs.covers(op.basis as int) && since <= op.stored_at <= until
}

/// The hashes of the eligible ops, in store order, one each.
pub open spec fn eligible_op_hashes(s: Seq<Op>, arcs: ArcSet, since: u64, until: u64) -> Seq<u64>
    decreases s.len(),
{
    if s.len() == 0 {
        Seq::empty()
    } else {
        let rest = eligible_op_hashes(s.drop_last(), arcs, since, until);
        if op_in_window(s.last(), arcs, since, until) {
            rest.push(s.last().hash)
        } else {
            rest
        }
    }
}

/// The index of the op with hash `h`; meaningful when [`has_op`] holds
/// and hashes are unique.
pub open spec fn op_idx(s: Seq<Op>, h: u64) -> int {
    choose|i: int| 0 <= i < s.len() && s[i].hash == h
}

/// The spec form of claimed-hash and payload pairs.
pub open spec fn op_data_form(v: Seq<(u64, Vec<u8>)>) -> Seq<(u64, Seq<u8>)> {
    Seq::new(v.len(), |i: int| (v[i].0, v[i].1@))
}

/// What a payload fetch answers: one pair per requested hash the store
/// holds, in request order; absent hashes contribute nothing.
pub open spec fn spec_op_data(ops: Seq<Op>, hashes: Seq<u64>) -> Seq<(u64, Seq<u8>)>
    decreases hashes.len(),
{
    if hashes.len() == 0 {
        Seq::empty()
    } else {
        let rest = spec_op_data(ops, hashes.drop_last());
        let h = hashes.last();
        if has_op(ops, h) {
            rest.push((h, ops[op_idx(ops, h)].payload@))
        } else {
            rest
        }
    }
}

/// Idempotent merge of agent-info: once a record for an agent is stored,
/// storing the same record again — or any record for that agent that is
/// not strictly newer — leaves the stored records exactly as they were.
pub proof fn lemma_agent_merge_idempotent(s: Seq<AgentInfo>, a: AgentInfo, b: AgentInfo)
    requires
        agents_unique(s),
        b.agent == a.agent,
        b.signed_at <= a.signed_at,
    ensures
        store_agent_step(store_agent_step(s, a), b) == store_agent_step(s, a),
{
    let s1 = store_agent_step(s, a);
    if !has_agent(s, a.agent) {
        assert(s1 == s.push(a));
        assert(s1[s.len() as int].agent == a.agent);
        assert(has_agent(s1, b.agent));
        let j = agent_idx(s1, b.agent);
        assert(0 <= j < s1.len() && s1[j].agent == b.agent);
        assert forall|i: int| 0 <= i < s.len() implies s[i].agent != a.agent by {
            assert(!has_agent(s, a.agent));
        }
        assert(j == s.len());
        assert(s1[j].signed_at == a.signed_at);
        assert(!(b.signed_at > s1[j].signed_at));
    } else {
        let i0 = agent_idx(s, a.agent);
        assert(0 <= i0 < s.len() && s[i0].agent == a.agent);
        if a.signed_at > s[i0].signed_at {
            assert(s1 == s.update(i0, a));
            assert(s1[i0].agent == b.agent);
            assert(has_agent(s1, b.agent));
            let j = agent_idx(s1, b.agent);
            assert(0 <= j < s1.len() && s1[j].agent == b.agent);
            assert(j == i0) by {
                if j != i0 {
                    assert(s[j].agent == s1[j].agent);
                    assert(s[j].agent == s[i0].agent);
                }
            }
            assert(s1[j].signed_at == a.signed_at);
            assert(!(b.signed_at > s1[j].signed_at));
        } else {
            assert(s1 == s);
            assert(has_agent(s1, b.agent));
            let j = agent_idx(s1, b.agent);
            assert(0 <= j < s1.len() && s1[j].agent == b.agent);
            assert(j == i0);
            assert(!(b.signed_at > s1[j].signed_at));
        }
    }
}

/// Idempotent merge of ops: storing an op whose hash is already stored —
/// in particular, storing the same op twice — leaves the stored ops
/// exactly as they were after the first store.
pub proof fn lemma_op_merge_idempotent(s: Seq<Op>, a: Op, b: Op)
    requires
        b.hash == a.hash,
    ensures
        store_op_step(store_op_step(s, a), b) == store_op_step(s, a),
{
    let s1 = store_op_step(s, a);
    if has_op(s, a.hash) {
        assert(s1 == s);
        assert(has_op(s1, b.hash));
    } else {
        assert(s1 == s.push(a));
        assert(s1[s.len() as int].hash == b.hash);
        assert(has_op(s1, b.hash));
    }
}

/// The node-local store: agent-info records, unique per agent, and valid
/// ops, unique per content hash.
#[derive(Clone, Debug)]
pub struct GossipStore {
    /// The gossip space all records belong to.
    pub space: u64,
    /// One record per known agent.
    pub agents: Vec<AgentInfo>,
    /// One op per content hash.
    pub ops: Vec<Op>,
}

impl GossipStore {
    /// Store invariant: uniqueness of both keys, and every op valid.
    pub open spec fn wf(self) -> bool {
        &&& agents_unique(self.agents@)
        &&& ops_unique(self.ops@)
        &&& forall|i: int| 0 <= i < self.ops@.len() ==> (#[trigger] self.ops@[i]).wf()
    }

    /// An empty store for one space.
    pub fn new(space: u64) -> (r: GossipStore)
        ensures
            r.wf(),
            r.space == space,
            r.agents@.len() == 0,
            r.ops@.len() == 0,
    {
        GossipStore { space, agents: Vec::new(), ops: Vec::new() }
    }

    /// Find the index of the record for `agent`, if any.
    fn find_agent(&self, agent: u64) -> (r: Option<usize>)
        ensures
            match r {
                Some(i) => i < self.agents@.len() && self.agents@[i as int].agent == agent,
                None => !has_agent(self.agents@, agent),
            },
    {
        let n = self.agents.len();
        let mut i: usize = 0;
        while i < n
            invariant
                0 <= i <= n,
                n == self.agents@.len(),
                forall|j: int| 0 <= j < i ==> self.agents@[j].agent != agent,
            decreases n - i,
        {
            if self.agents[i].agent == agent {
                return Some(i);
            }
            i += 1;
        }
        None
    }

    /// Find the index of the op with hash `h`, if any.
    fn find_op(&self, h: u64) -> (r: Option<usize>)
        ensures
            match r {
                Some(i) => i < self.ops@.len() && self.ops@[i as int].hash == h,
                None => !has_op(self.ops@, h),
            },
    {
        let n = self.ops.len();
        let mut i: usize = 0;
        while i < n
            invariant
                0 <= i <= n,
                n == self.ops@.len(),
                forall|j: int| 0 <= j < i ==> self.ops@[j].hash != h,
            decreases n - i,
        {
            if self.ops[i].hash == h {
                return Some(i);
            }
            i += 1;
        }
        None
    }

    /// Merge one agent-info record, last-write-wins by signing time.
    pub fn store_agent_info(&mut self, info: AgentInfo)
        requires
            old(self).wf(),
        ensures
            final(self).wf(),
            final(self).space == old(self).space,
            final(self).ops@ == old(self).ops@,
            final(self).agents@ == store_agent_step(old(self).agents@, info),
    {
        let ghost s = self.agents@;
        match self.find_agent(info.agent) {
            None => {
                self.agents.push(info);
                proof {
                    assert(!has_agent(s, info.agent));
                    assert(self.agents@ == store_agent_step(s, info));
                    assert forall|i: int, j: int|
                        0 <= i < self.agents@.len() && 0 <= j < self.agents@.len()
                            && self.agents@[i].agent == self.agents@[j].agent implies i == j by {
                        if i < s.len() && j < s.len() {
                        } else if i < s.len() && j == s.len() {
                            assert(s[i].agent == info.agent);
                            assert(has_agent(s, info.agent));
                        } else if j < s.len() && i == s.len() {
                            assert(s[j].agent == info.agent);
                            assert(has_agent(s, info.agent));
                        }
                    }
                }
            },
            Some(i) => {
                proof {
                    assert(has_agent(s, info.agent));
                    let j = agent_idx(s, info.agent);
                    assert(0 <= j < s.len() && s[j].agent == info.agent);
                    assert(j == i);
                }
                if info.signed_at > self.agents[i].signed_at {
                    self.agents.set(i, info);
                    proof {
                        assert(self.agents@ == s.update(i as int, info));
                        assert forall|i2: int, j2: int|
                            0 <= i2 < self.agents@.len() && 0 <= j2 < self.agents@.len()
                                && self.agents@[i2].agent == self.agents@[j2].agent implies i2
                            == j2 by {
                            assert(self.agents@[i2].agent == s[i2].agent);
                            assert(self.agents@[j2].agent == s[j2].agent);
                        }
                    }
                }
            },
        }
    }

    /// Merge one op. The caller must hand a valid op, one whose hash was
    /// checked against its payload.
    pub fn store_op(&mut self, op: Op)
        requires
            old(self).wf(),
            op.wf(),
        ensures
            final(self).wf(),
            final(self).space == old(self).space,
            final(self).agents@ == old(self).agents@,
            final(self).ops@ == store_op_step(old(self).ops@, op),
    {
        let ghost s = self.ops@;
        match self.find_op(op.hash) {
            Some(_) => {
                proof {
                    assert(has_op(s, op.hash));
                }
            },
            None => {
                let ghost h = op.hash;
                self.ops.push(op);
                proof {
                    assert(self.ops@ == store_op_step(s, self.ops@[s.len() as int]));
                    assert forall|i: int, j: int|
                        0 <= i < self.ops@.len() && 0 <= j < self.ops@.len() && self.ops@[i].hash
                            == self.ops@[j].hash implies i == j by {
                        if i < s.len() && j == s.len() {
                            assert(s[i].hash == h);
                            assert(has_op(s, h));
                        } else if j < s.len() && i == s.len() {
                            assert(s[j].hash == h);
                            assert(has_op(s, h));
                        }
                    }
                }
            },
        }
    }

    /// Look up the record for one agent.
    pub fn get_agent_info(&self, agent: u64) -> (r: Option<AgentInfo>)
        requires
            self.wf(),
        ensures
            match r {
                Some(info) => has_agent(self.agents@, agent) && info == self.agents@[agent_idx(
                    self.agents@,
                    agent,
                )] && info.agent == agent,
                None => !has_agent(self.agents@, agent),
            },
    {
        match self.find_agent(agent) {
            Some(i) => {
                let info = self.agents[i];
                proof {
                    assert(has_agent(self.agents@, agent));
                    let j = agent_idx(self.agents@, agent);
                    assert(0 <= j < self.agents@.len() && self.agents@[j].agent == agent);
                    assert(j == i);
                }
                Some(info)
            },
            None => None,
        }
    }

    /// All known agent-info records.
    pub fn query_agent_info(&self) -> (r: Vec<AgentInfo>)
        ensures
            r@ == self.agents@,
    {
        let n = self.agents.len();
        let mut r: Vec<AgentInfo> = Vec::new();
        let mut i: usize = 0;
        while i < n
            invariant
                0 <= i <= n,
                n == self.agents@.len(),
                r@ == self.agents@.take(i as int),
            decreases n - i,
        {
            r.push(self.agents[i]);
            proof {
                assert(r@ =~= self.agents@.take(i + 1 as int));
            }
            i += 1;
        }
        proof {
            assert(self.agents@.take(n as int) =~= self.agents@);
        }
        r
    }

    /// Look up one op's payload by content hash.
    pub fn get_op(&self, h: u64) -> (r: Option<&Op>)
        ensures
            match r {
                Some(op) => has_op(self.ops@, h) && self.ops@.contains(*op) && op.hash == h,
                None => !has_op(self.ops@, h),
            },
    {
        match self.find_op(h) {
            Some(i) => {
                let op = &self.ops[i];
                Some(op)
            },
            None => None,
        }
    }

    /// The agent-info records eligible for an arc set: those whose agent
    /// sits inside it.
    pub fn agent_info_in_arc(&self, arcs: &ArcSet) -> (r: Vec<AgentInfo>)
        ensures
            r@ == eligible_agents(self.agents@, *arcs),
            forall|a: AgentInfo| #[trigger]
                r@.contains(a) <==> (self.agents@.contains(a) && arcs.covers(
                    spec_agent_loc(a.agent) as int,
                )),
    {
        let n = self.agents.len();
        let mut r: Vec<AgentInfo> = Vec::new();
        let mut i: usize = 0;
        while i < n
            invariant
                0 <= i <= n,
                n == self.agents@.len(),
                r@ == eligible_agents(self.agents@.take(i as int), *arcs),
                forall|a: AgentInfo| #[trigger]
                    r@.contains(a) <==> (self.agents@.take(i as int).contains(a) && arcs.covers(
                        spec_agent_loc(a.agent) as int,
                    )),
            decreases n - i,
        {
            let ghost prev = r@;
            let info = self.agents[i];
            let loc = agent_loc(info.agent);
            if arcs.contains(loc) {
                r.push(info);
            }
            proof {
                assert(self.agents@.take(i + 1 as int) =~= self.agents@.take(i as int).push(info));
                assert(self.agents@.take(i + 1 as int).drop_last() =~= self.agents@.take(i as int));
                assert(r@ == eligible_agents(self.agents@.take(i + 1 as int), *arcs));
                assert forall|a: AgentInfo| #[trigger]
                    r@.contains(a) <==> (self.agents@.take(i + 1 as int).contains(a)
                        && arcs.covers(spec_agent_loc(a.agent) as int)) by {
                    lemma_contains_push(self.agents@.take(i as int), info, a);
                    if arcs.covers(spec_agent_loc(info.agent) as int) {
                        lemma_contains_push(prev, info, a);
                    }
                }
            }
            i += 1;
        }
        proof {
            assert(self.agents@.take(n as int) =~= self.agents@);
        }
        r
    }

    /// The hashes of the ops eligible for an arc set and a time window:
    /// basis inside the arcs, stored within the window.
    pub fn op_hashes_in_arc(&self, arcs: &ArcSet, since: u64, until: u64) -> (r: Vec<u64>)
        requires
            self.wf(),
        ensures
            r@ == eligible_op_hashes(self.ops@, *arcs, since, until),
            forall|h: u64| #[trigger]
                r@.contains(h) <==> (exists|i: int|
                    0 <= i < self.ops@.len() && (#[trigger] self.ops@[i]).hash == h && arcs.covers(
                        self.ops@[i].basis as int,
                    ) && since <= self.ops@[i].stored_at <= until),
    {
        let n = self.ops.len();
        let mut r: Vec<u64> = Vec::new();
        let mut i: usize = 0;
        while i < n
            invariant
                0 <= i <= n,
                n == self.ops@.len(),
                r@ == eligible_op_hashes(self.ops@.take(i as int), *arcs, since, until),
                forall|h: u64| #[trigger]
                    r@.contains(h) <==> (exists|k: int|
                        0 <= k < i && (#[trigger] self.ops@[k]).hash == h && arcs.covers(
                            self.ops@[k].basis as int,
                        ) && since <= self.ops@[k].stored_at <= until),
            decreases n - i,
        {
            let ghost prev = r@;
            let eligible = arcs.contains(self.ops[i].basis) && since <= self.ops[i].stored_at
                && self.ops[i].stored_at <= until;
            let h = self.ops[i].hash;
            if eligible {
                r.push(h);
            }
            proof {
                assert(self.ops@.take(i + 1 as int) =~= self.ops@.take(i as int).push(
                    self.ops@[i as int],
                ));
                assert(self.ops@.take(i + 1 as int).drop_last() =~= self.ops@.take(i as int));
                assert(r@ == eligible_op_hashes(self.ops@.take(i + 1 as int), *arcs, since, until));
                assert forall|h2: u64| #[trigger]
                    r@.contains(h2) <==> (exists|k: int|
                        0 <= k < i + 1 && (#[trigger] self.ops@[k]).hash == h2 && arcs.covers(
                            self.ops@[k].basis as int,
                        ) && since <= self.ops@[k].stored_at <= until) by {
                    if eligible {
                        lemma_contains_push_u64(prev, h, h2);
                        if h2 == h {
                            assert(self.ops@[i as int].hash == h2);
                        }
                    }
                    if r@.contains(h2) && !prev.contains(h2) {
                    }
                    if exists|k: int|
                        0 <= k < i + 1 && (#[trigger] self.ops@[k]).hash == h2 && arcs.covers(
                            self.ops@[k].basis as int,
                        ) && since <= self.ops@[k].stored_at <= until {
                        let k = choose|k: int|
                            0 <= k < i + 1 && (#[trigger] self.ops@[k]).hash == h2 && arcs.covers(
                                self.ops@[k].basis as int,
                            ) && since <= self.ops@[k].stored_at <= until;
                        if k < i {
                            assert(prev.contains(h2));
                        } else {
                            assert(k == i && h2 == h && eligible);
                        }
                    }
                }
            }
            i += 1;
        }
        proof {
            assert(self.ops@.take(n as int) =~= self.ops@);
        }
        r
    }

    /// The payloads of the requested ops, as claimed-hash and payload
    /// pairs; hashes the store does not hold are skipped, every held one
    /// is answered.
    pub fn op_data(&self, hashes: &Vec<u64>) -> (r: Vec<(u64, Vec<u8>)>)
        requires
            self.wf(),
        ensures
            op_data_form(r@) == spec_op_data(self.ops@, hashes@),
            forall|k: int|
                0 <= k < r@.len() ==> has_op(self.ops@, (#[trigger] r@[k]).0) && hashes@.contains(
                    r@[k].0,
                ),
            forall|k: int|
                0 <= k < r@.len() ==> (#[trigger] r@[k]).0 == crate::hashing::spec_content_hash(
                    r@[k].1@,
                ),
            forall|i: int|
                0 <= i < hashes@.len() && has_op(self.ops@, #[trigger] hashes@[i]) ==> (exists|
                    k: int,
                |
                    0 <= k < r@.len() && (#[trigger] r@[k]).0 == hashes@[i]),
    {
        let n = hashes.len();
        let mut r: Vec<(u64, Vec<u8>)> = Vec::new();
        let mut i: usize = 0;
        while i < n
            invariant
                0 <= i <= n,
                n == hashes@.len(),
                self.wf(),
                op_data_form(r@) == spec_op_data(self.ops@, hashes@.take(i as int)),
                forall|k: int|
                    0 <= k < r@.len() ==> has_op(self.ops@, (#[trigger] r@[k]).0)
                        && hashes@.contains(r@[k].0),
                forall|k: int|
                    0 <= k < r@.len() ==> (#[trigger] r@[k]).0
                        == crate::hashing::spec_content_hash(r@[k].1@),
                forall|i2: int|
                    0 <= i2 < i && has_op(self.ops@, #[trigger] hashes@[i2]) ==> (exists|k: int|
                        0 <= k < r@.len() && (#[trigger] r@[k]).0 == hashes@[i2]),
            decreases n - i,
        {
            let ghost prev = r@;
            let h = hashes[i];
            match self.find_op(h) {
                Some(idx) => {
                    let payload = clone_bytes(&self.ops[idx].payload);
                    proof {
                        assert(self.ops@[idx as int].wf());
                        assert(hashes@[i as int] == h);
                    }
                    r.push((h, payload));
                    proof {
                        assert(has_op(self.ops@, h));
                        let j = op_idx(self.ops@, h);
                        assert(0 <= j < self.ops@.len() && self.ops@[j].hash == h);
                        assert(j == idx);
                        assert(op_data_form(r@) =~= op_data_form(prev).push(
                            (h, self.ops@[idx as int].payload@),
                        ));
                    }
                },
                None => {},
            }
            proof {
                assert(hashes@.take(i + 1 as int).drop_last() =~= hashes@.take(i as int));
                assert(hashes@.take(i + 1 as int).last() == hashes@[i as int]);
                assert(op_data_form(r@) == spec_op_data(self.ops@, hashes@.take(i + 1 as int)));
                assert forall|i2: int|
                    0 <= i2 < i + 1 && has_op(self.ops@, #[trigger] hashes@[i2]) implies (exists|
                    k: int,
                |
                    0 <= k < r@.len() && (#[trigger] r@[k]).0 == hashes@[i2]) by {
                    if i2 < i {
                        let k = choose|k: int|
                            0 <= k < prev.len() && (#[trigger] prev[k]).0 == hashes@[i2];
                        assert(r@[k].0 == hashes@[i2]);
                    } else {
                        assert(r@[r@.len() - 1].0 == hashes@[i2]);
                    }
                }
            }
            i += 1;
        }
        proof {
            assert(hashes@.take(n as int) =~= hashes@);
        }
        r
    }

    /// The union of the arcs that the given local agents claim, by their
    /// stored records: the node's own coverage.
    pub fn local_arcs(&self, local_agents: &Vec<u64>) -> (r: ArcSet)
        ensures
            forall|p: int|
                0 <= p < SPACE_LEN ==> (r.covers(p) <==> (exists|i: int|
                    0 <= i < self.agents@.len() && local_agents@.contains(
                        (#[trigger] self.agents@[i]).agent,
                    ) && self.agents@[i].storage_arc.spec_contains(p))),
    {
        let n = self.agents.len();
        let mut r = ArcSet::new_empty();
        let mut i: usize = 0;
        while i < n
            invariant
                0 <= i <= n,
                n == self.agents@.len(),
                forall|p: int|
                    0 <= p < SPACE_LEN ==> (r.covers(p) <==> (exists|k: int|
                        0 <= k < i && local_agents@.contains((#[trigger] self.agents@[k]).agent)
                            && self.agents@[k].storage_arc.spec_contains(p))),
            decreases n - i,
        {
            let info = self.agents[i];
            let is_local = contains_u64(local_agents, info.agent);
            let ghost prev = r;
            if is_local {
                let one = ArcSet::from_arc(&info.storage_arc);
                r = prev_union(r, one);
            }
            proof {
                assert forall|p: int|
                    0 <= p < SPACE_LEN implies (r.covers(p) <==> (exists|k: int|
                    0 <= k < i + 1 && local_agents@.contains((#[trigger] self.agents@[k]).agent)
                        && self.agents@[k].storage_arc.spec_contains(p))) by {
                    if r.covers(p) {
                        if prev.covers(p) {
                            let k = choose|k: int|
                                0 <= k < i && local_agents@.contains(
                                    (#[trigger] self.agents@[k]).agent,
                                ) && self.agents@[k].storage_arc.spec_contains(p);
                            assert(0 <= k < i + 1 && local_agents@.contains(
                                self.agents@[k].agent,
                            ) && self.agents@[k].storage_arc.spec_contains(p));
                        } else {
                            assert(is_local && info.storage_arc.spec_contains(p));
                            assert(0 <= i < i + 1 && local_agents@.contains(
                                self.agents@[i as int].agent,
                            ) && self.agents@[i as int].storage_arc.spec_contains(p));
                        }
                    }
                    if exists|k: int|
                        0 <= k < i + 1 && local_agents@.contains(
                            (#[trigger] self.agents@[k]).agent,
                        ) && self.agents@[k].storage_arc.spec_contains(p) {
                        let k = choose|k: int|
                            0 <= k < i + 1 && local_agents@.contains(
                                (#[trigger] self.agents@[k]).agent,
                            ) && self.agents@[k].storage_arc.spec_contains(p);
                        if k < i {
                            assert(prev.covers(p));
                            assert(r.covers(p));
                        } else {
                            assert(is_local && info.storage_arc.spec_contains(p));
                            assert(r.covers(p));
                        }
                    }
                }
            }
            i += 1;
        }
        r
    }
}

/// Union step helper, so the loop can rebind its accumulator by value.
fn prev_union(a: ArcSet, b: ArcSet) -> (r: ArcSet)
    ensures
        forall|p: int| 0 <= p < SPACE_LEN ==> (r.covers(p) <==> (a.covers(p) || b.covers(p))),
{
    a.union(&b)
}

/// Copy a byte vector.
pub fn clone_bytes(v: &Vec<u8>) -> (r: Vec<u8>)
    ensures
        r@ == v@,
{
    let n = v.len();
    let mut r: Vec<u8> = Vec::new();
    let mut i: usize = 0;
    while i < n
        invariant
            0 <= i <= n,
            n == v@.len(),
            r@ == v@.take(i as int),
        decreases n - i,
    {
        r.push(v[i]);
        proof {
            assert(r@ =~= v@.take(i + 1 as int));
        }
        i += 1;
    }
    proof {
        assert(v@.take(n as int) =~= v@);
    }
    r
}

/// Whether a list of agent identifiers holds one.
pub fn contains_u64(v: &Vec<u64>, x: u64) -> (r: bool)
    ensures
        r == v@.contains(x),
{
    let n = v.len();
    let mut i: usize = 0;
    while i < n
        invariant
            0 <= i <= n,
            n == v@.len(),
            forall|j: int| 0 <= j < i ==> v@[j] != x,
        decreases n - i,
    {
        if v[i] == x {
            proof {
                assert(v@[i as int] == x);
            }
            return true;
        }
        i += 1;
    }
    false
}

proof fn lemma_contains_push(s: Seq<AgentInfo>, x: AgentInfo, y: AgentInfo)
    ensures
        s.push(x).contains(y) <==> (s.contains(y) || x == y),
{
    if s.contains(y) {
        let i = choose|i: int| 0 <= i < s.len() && s[i] == y;
        assert(s.push(x)[i] == y);
    }
    if x == y {
        assert(s.push(x)[s.len() as int] == y);
    }
    if s.push(x).contains(y) {
        let i = choose|i: int| 0 <= i < s.push(x).len() && s.push(x)[i] == y;
        if i < s.len() {
            assert(s[i] == y);
        }
    }
}

pub(crate) proof fn lemma_contains_push_u64(s: Seq<u64>, x: u64, y: u64)
    ensures
        s.push(x).contains(y) <==> (s.contains(y) || x == y),
{
    if s.contains(y) {
        let i = choose|i: int| 0 <= i < s.len() && s[i] == y;
        assert(s.push(x)[i] == y);
    }
    if x == y {
        assert(s.push(x)[s.len() as int] == y);
    }
    if s.push(x).contains(y) {
        let i = choose|i: int| 0 <= i < s.push(x).len() && s.push(x)[i] == y;
        if i < s.len() {
            assert(s[i] == y);
        }
    }
}

} // verus!
