//! The gossip scheduler's bookkeeping.
//!
//! One driver per space keeps a list of pending gossip pairs — a local
//! agent to speak and a peer to speak to — refills it from the known
//! agents when it runs dry, and hands out one pair per tick. The engine
//! itself enforces the one-round-per-peer rule and the concurrency cap;
//! the scheduler only decides who is tried next, so a slow peer costs
//! its own slot and nothing else.

use vstd::prelude::*;

use crate::store::lemma_contains_push_u64;

verus! {

/// The scheduler's queue of gossip attempts waiting to be made.
#[derive(Clone, Debug)]
pub struct GossipData {
    /// Pending `(local agent, remote agent)` pairs, next attempt first.
    pub pending_gossip_list: Vec<(u64, u64)>,
}

impl GossipData {
    /// A scheduler with nothing pending.
    pub fn new() -> (r: GossipData)
        ensures
            r.pending_gossip_list@.len() == 0,
    {
        GossipData { pending_gossip_list: Vec::new() }
    }

    /// Refill the queue with every combination worth trying: each pair
    /// of distinct local agents once, and each local agent against each
    /// remote agent. Every queued pair is such a combination, every such
    /// combination is queued, and — for duplicate-free, disjoint agent
    /// lists — each exactly once.
    pub fn fetch_pending_gossip_list(&mut self, local_agents: &Vec<u64>, remote_agents: &Vec<u64>)
        requires
            old(self).pending_gossip_list@.len() == 0,
        ensures
            refilled_ok(final(self).pending_gossip_list@, local_agents@, remote_agents@),
    {
        let ghost locals = local_agents@;
        let ghost remotes = remote_agents@;
        let ghost di = distinct_inputs(locals, remotes);
        let n = local_agents.len();
        let m = remote_agents.len();
        let mut i: usize = 0;
        while i < n
            invariant
                0 <= i <= n,
                n == locals.len(),
                m == remotes.len(),
                locals == local_agents@,
                remotes == remote_agents@,
                di == distinct_inputs(locals, remotes),
                forall|k: int|
                    0 <= k < self.pending_gossip_list@.len() ==> pair_ok(
                        #[trigger] self.pending_gossip_list@[k],
                        locals,
                        remotes,
                    ),
                forall|i2: int, j2: int|
                    0 <= i2 < i && i2 < j2 < locals.len() && locals[i2] != locals[j2]
                        ==> self.pending_gossip_list@.contains((locals[i2], locals[j2])),
                forall|i2: int, j2: int|
                    0 <= i2 < i && 0 <= j2 < remotes.len() ==> self.pending_gossip_list@.contains(
                        (locals[i2], remotes[j2]),
                    ),
                di ==> self.pending_gossip_list@.no_duplicates(),
                di ==> (forall|k: int|
                    0 <= k < self.pending_gossip_list@.len() ==> locals.take(i as int).contains(
                        (#[trigger] self.pending_gossip_list@[k]).0,
                    )),
            decreases n - i,
        {
            let a1 = local_agents[i];
            let ghost row_start = self.pending_gossip_list@.len() as int;
            let mut j: usize = i;
            while j < n
                invariant
                    0 <= i <= j <= n,
                    n == locals.len(),
                    m == remotes.len(),
                    locals == local_agents@,
                    remotes == remote_agents@,
                    di == distinct_inputs(locals, remotes),
                    a1 == locals[i as int],
                    0 <= row_start <= self.pending_gossip_list@.len(),
                    forall|k: int|
                        0 <= k < self.pending_gossip_list@.len() ==> pair_ok(
                            #[trigger] self.pending_gossip_list@[k],
                            locals,
                            remotes,
                        ),
                    forall|i2: int, j2: int|
                        0 <= i2 < i && i2 < j2 < locals.len() && locals[i2] != locals[j2]
                            ==> self.pending_gossip_list@.contains((locals[i2], locals[j2])),
                    forall|i2: int, j2: int|
                        0 <= i2 < i && 0 <= j2 < remotes.len()
                            ==> self.pending_gossip_list@.contains((locals[i2], remotes[j2])),
                    forall|j2: int|
                        (i as int) < j2 < j && locals[i as int] != locals[j2]
                            ==> self.pending_gossip_list@.contains((locals[i as int], locals[j2])),
                    di ==> self.pending_gossip_list@.no_duplicates(),
                    di ==> (forall|k: int|
                        0 <= k < row_start ==> locals.take(i as int).contains(
                            (#[trigger] self.pending_gossip_list@[k]).0,
                        )),
                    di ==> (forall|k: int|
                        row_start <= k < self.pending_gossip_list@.len() ==> (
                        #[trigger] self.pending_gossip_list@[k]).0 == a1 && locals.subrange(
                            i as int,
                            j as int,
                        ).contains(self.pending_gossip_list@[k].1)),
                decreases n - j,
            {
                let a2 = local_agents[j];
                let ghost prev = self.pending_gossip_list@;
                if a1 != a2 {
                    self.pending_gossip_list.push((a1, a2));
                    proof {
                        assert(self.pending_gossip_list@[prev.len() as int] == (a1, a2));
                        lemma_pending_grows(prev, self.pending_gossip_list@);
                        if di {
                            assert forall|k: int| 0 <= k < prev.len() implies prev[k] != (
                            a1,
                            a2,
                            ) by {
                                if k < row_start {
                                    assert(locals.take(i as int).contains(prev[k].0));
                                    if prev[k].0 == a1 {
                                        let k2 = choose|k2: int|
                                            0 <= k2 < i && locals.take(i as int)[k2] == a1;
                                        assert(locals[k2] == locals[i as int]);
                                    }
                                } else {
                                    assert(locals.subrange(i as int, j as int).contains(
                                        prev[k].1,
                                    ));
                                    if prev[k].1 == a2 {
                                        let k2 = choose|k2: int|
                                            0 <= k2 < j - i && locals.subrange(
                                                i as int,
                                                j as int,
                                            )[k2] == a2;
                                        assert(locals[i + k2] == locals[j as int]);
                                    }
                                }
                            }
                            assert(self.pending_gossip_list@.no_duplicates());
                        }
                    }
                }
                proof {
                    if di {
                        assert forall|k: int|
                            row_start <= k < self.pending_gossip_list@.len() implies (
                        #[trigger] self.pending_gossip_list@[k]).0 == a1 && locals.subrange(
                            i as int,
                            j + 1 as int,
                        ).contains(self.pending_gossip_list@[k].1) by {
                            if k < prev.len() {
                                let x = prev[k].1;
                                let k2 = choose|k2: int|
                                    0 <= k2 < j - i && locals.subrange(i as int, j as int)[k2]
                                        == x;
                                assert(locals.subrange(i as int, j + 1 as int)[k2] == x);
                            } else {
                                assert(locals.subrange(i as int, j + 1 as int)[j - i] == locals[j as int]);
                            }
                        }
                    }
                }
                j += 1;
            }
            let mut j2: usize = 0;
            while j2 < m
                invariant
                    0 <= i < n,
                    0 <= j2 <= m,
                    n == locals.len(),
                    m == remotes.len(),
                    locals == local_agents@,
                    remotes == remote_agents@,
                    di == distinct_inputs(locals, remotes),
                    a1 == locals[i as int],
                    0 <= row_start <= self.pending_gossip_list@.len(),
                    forall|k: int|
                        0 <= k < self.pending_gossip_list@.len() ==> pair_ok(
                            #[trigger] self.pending_gossip_list@[k],
                            locals,
                            remotes,
                        ),
                    forall|i2: int, j3: int|
                        0 <= i2 < i && i2 < j3 < locals.len() && locals[i2] != locals[j3]
                            ==> self.pending_gossip_list@.contains((locals[i2], locals[j3])),
                    forall|i2: int, j3: int|
                        0 <= i2 < i && 0 <= j3 < remotes.len()
                            ==> self.pending_gossip_list@.contains((locals[i2], remotes[j3])),
                    forall|j3: int|
                        (i as int) < j3 < locals.len() && locals[i as int] != locals[j3]
                            ==> self.pending_gossip_list@.contains((locals[i as int], locals[j3])),
                    forall|j3: int|
                        0 <= j3 < j2 ==> self.pending_gossip_list@.contains(
                            (locals[i as int], remotes[j3]),
                        ),
                    di ==> self.pending_gossip_list@.no_duplicates(),
                    di ==> (forall|k: int|
                        0 <= k < row_start ==> locals.take(i as int).contains(
                            (#[trigger] self.pending_gossip_list@[k]).0,
                        )),
                    di ==> (forall|k: int|
                        row_start <= k < self.pending_gossip_list@.len() ==> (
                        #[trigger] self.pending_gossip_list@[k]).0 == a1 && (locals.contains(
                            self.pending_gossip_list@[k].1,
                        ) || remotes.take(j2 as int).contains(self.pending_gossip_list@[k].1))),
                decreases m - j2,
            {
                let a2 = remote_agents[j2];
                let ghost prev = self.pending_gossip_list@;
                self.pending_gossip_list.push((a1, a2));
                proof {
                    assert(self.pending_gossip_list@[prev.len() as int] == (a1, a2));
                    lemma_pending_grows(prev, self.pending_gossip_list@);
                    if di {
                        assert(!locals.contains(a2)) by {
                            assert(remotes[j2 as int] == a2);
                        }
                        assert forall|k: int| 0 <= k < prev.len() implies prev[k] != (a1, a2) by {
                            if k < row_start {
                                assert(locals.take(i as int).contains(prev[k].0));
                                if prev[k].0 == a1 {
                                    let k2 = choose|k2: int|
                                        0 <= k2 < i && locals.take(i as int)[k2] == a1;
                                    assert(locals[k2] == locals[i as int]);
                                }
                            } else {
                                if prev[k].1 == a2 {
                                    if locals.contains(prev[k].1) {
                                    } else {
                                        let k2 = choose|k2: int|
                                            0 <= k2 < j2 && remotes.take(j2 as int)[k2] == a2;
                                        assert(remotes[k2] == remotes[j2 as int]);
                                    }
                                }
                            }
                        }
                        assert(self.pending_gossip_list@.no_duplicates());
                        assert forall|k: int|
                            row_start <= k < self.pending_gossip_list@.len() implies (
                        #[trigger] self.pending_gossip_list@[k]).0 == a1 && (locals.contains(
                            self.pending_gossip_list@[k].1,
                        ) || remotes.take(j2 + 1 as int).contains(
                            self.pending_gossip_list@[k].1,
                        )) by {
                            if k < prev.len() {
                                if !locals.contains(prev[k].1) {
                                    let x = prev[k].1;
                                    let k2 = choose|k2: int|
                                        0 <= k2 < j2 && remotes.take(j2 as int)[k2] == x;
                                    assert(remotes.take(j2 + 1 as int)[k2] == x);
                                }
                            } else {
                                assert(remotes.take(j2 + 1 as int)[j2 as int] == a2);
                            }
                        }
                    }
                }
                j2 += 1;
            }
            proof {
                if di {
                    assert forall|k: int|
                        0 <= k < self.pending_gossip_list@.len() implies locals.take(
                        i + 1 as int,
                    ).contains((#[trigger] self.pending_gossip_list@[k]).0) by {
                        if k < row_start {
                            let x = self.pending_gossip_list@[k].0;
                            let k2 = choose|k2: int|
                                0 <= k2 < i && locals.take(i as int)[k2] == x;
                            assert(locals.take(i + 1 as int)[k2] == x);
                        } else {
                            assert(locals.take(i + 1 as int)[i as int] == a1);
                        }
                    }
                }
            }
            i += 1;
        }
    }

    /// One scheduler step: with nothing pending, refill from the known
    /// agents and report no attempt; otherwise hand out the front pair.
    pub fn take_action(&mut self, local_agents: &Vec<u64>, remote_agents: &Vec<u64>) -> (r: Option<
        (u64, u64),
    >)
        ensures
            old(self).pending_gossip_list@.len() == 0 ==> r is None && refilled_ok(
                final(self).pending_gossip_list@,
                local_agents@,
                remote_agents@,
            ),
            old(self).pending_gossip_list@.len() > 0 ==> r == Some(
                old(self).pending_gossip_list@[0],
            ) && final(self).pending_gossip_list@ == old(self).pending_gossip_list@.drop_first(),
    {
        if self.pending_gossip_list.len() == 0 {
            self.fetch_pending_gossip_list(local_agents, remote_agents);
            None
        } else {
            let ghost prev = self.pending_gossip_list@;
            let pair = self.pending_gossip_list.remove(0);
            proof {
                assert(self.pending_gossip_list@ =~= prev.drop_first());
            }
            Some(pair)
        }
    }
}

/// Agent lists in their canonical shape: no duplicate agents, and no
/// agent listed both locally and remotely.
pub open spec fn distinct_inputs(locals: Seq<u64>, remotes: Seq<u64>) -> bool {
    &&& locals.no_duplicates()
    &&& remotes.no_duplicates()
    &&& forall|k: int| 0 <= k < remotes.len() ==> !locals.contains(#[trigger] remotes[k])
}

/// What a refill leaves in the queue: only pairs worth gossiping, every
/// distinct local pair and every local-remote pair among them, and — for
/// canonical inputs — each pair exactly once.
pub open spec fn refilled_ok(q: Seq<(u64, u64)>, locals: Seq<u64>, remotes: Seq<u64>) -> bool {
    &&& forall|k: int| 0 <= k < q.len() ==> pair_ok(#[trigger] q[k], locals, remotes)
    &&& forall|i: int, j: int|
        0 <= i < j < locals.len() && locals[i] != locals[j] ==> q.contains((locals[i], locals[j]))
    &&& forall|i: int, j: int|
        0 <= i < locals.len() && 0 <= j < remotes.len() ==> q.contains((locals[i], remotes[j]))
    &&& distinct_inputs(locals, remotes) ==> q.no_duplicates()
}

/// A pair worth gossiping: a local agent speaking to another local agent
/// or to a remote agent, never to itself.
pub open spec fn pair_ok(p: (u64, u64), locals: Seq<u64>, remotes: Seq<u64>) -> bool {
    locals.contains(p.0) && (remotes.contains(p.1) || (locals.contains(p.1) && p.0 != p.1))
}


/// The values of `candidates`, in order, that `held` lacks.
pub open spec fn missing_from_seq(candidates: Seq<u64>, held: Seq<u64>) -> Seq<u64>
    decreases candidates.len(),
{
    if candidates.len() == 0 {
        Seq::empty()
    } else {
        let rest = missing_from_seq(candidates.drop_last(), held);
        if !held.contains(candidates.last()) {
            rest.push(candidates.last())
        } else {
            rest
        }
    }
}

/// The two directions of one full-sync exchange, from the two sides' op
/// hash lists: first what the initiating side lacks (the peer has it,
/// the initiator does not), then what the peer lacks — each side's list
/// walking the other side's hashes in order, one entry per hash lacked.
/// The bloom-based rounds compute the same sets probabilistically; this
/// is the exact form the full-sync driver pushes.
pub fn diff_needs(from_has: &Vec<u64>, to_has: &Vec<u64>) -> (r: (Vec<u64>, Vec<u64>))
    ensures
        r.0@ == missing_from_seq(to_has@, from_has@),
        r.1@ == missing_from_seq(from_has@, to_has@),
        forall|h: u64| #[trigger]
            r.0@.contains(h) <==> (to_has@.contains(h) && !from_has@.contains(h)),
        forall|h: u64| #[trigger]
            r.1@.contains(h) <==> (from_has@.contains(h) && !to_has@.contains(h)),
{
    let from_needs = missing_from(to_has, from_has);
    let to_needs = missing_from(from_has, to_has);
    (from_needs, to_needs)
}

/// The values of `candidates` that `held` lacks.
fn missing_from(candidates: &Vec<u64>, held: &Vec<u64>) -> (r: Vec<u64>)
    ensures
        r@ == missing_from_seq(candidates@, held@),
        forall|h: u64| #[trigger]
            r@.contains(h) <==> (candidates@.contains(h) && !held@.contains(h)),
{
    let n = candidates.len();
    let mut r: Vec<u64> = Vec::new();
    let mut i: usize = 0;
    while i < n
        invariant
            0 <= i <= n,
            n == candidates@.len(),
            r@ == missing_from_seq(candidates@.take(i as int), held@),
            forall|h: u64| #[trigger]
                r@.contains(h) <==> (candidates@.take(i as int).contains(h) && !held@.contains(
                    h,
                )),
        decreases n - i,
    {
        let ghost prev = r@;
        let h = candidates[i];
        if !crate::store::contains_u64(held, h) {
            r.push(h);
        }
        proof {
            assert(candidates@.take(i + 1 as int) =~= candidates@.take(i as int).push(h));
            assert(candidates@.take(i + 1 as int).drop_last() =~= candidates@.take(i as int));
            assert(r@ == missing_from_seq(candidates@.take(i + 1 as int), held@));
            assert forall|h2: u64| #[trigger]
                r@.contains(h2) <==> (candidates@.take(i + 1 as int).contains(h2)
                    && !held@.contains(h2)) by {
                lemma_contains_push_u64(candidates@.take(i as int), h, h2);
                if !held@.contains(h) {
                    lemma_contains_push_u64(prev, h, h2);
                }
            }
        }
        i += 1;
    }
    proof {
        assert(candidates@.take(n as int) =~= candidates@);
    }
    r
}


proof fn lemma_pending_grows(prev: Seq<(u64, u64)>, cur: Seq<(u64, u64)>)
    requires
        cur.len() == prev.len() + 1,
        forall|k: int| 0 <= k < prev.len() ==> cur[k] == prev[k],
    ensures
        forall|p: (u64, u64)| prev.contains(p) ==> cur.contains(p),
{
    assert forall|p: (u64, u64)| prev.contains(p) implies cur.contains(p) by {
        let k = choose|k: int| 0 <= k < prev.len() && prev[k] == p;
        assert(cur[k] == p);
    }
}

} // verus!
