//! Validating and integrating incoming ops.
//!
//! Payloads pushed by a peer arrive with a claimed content hash. Before
//! anything is merged, the hash is recomputed from the payload; an item
//! whose claim does not match is dropped, and the rest of the batch is
//! still merged — one bad item never aborts a round. Merging is the
//! idempotent op store step, so a batch can be replayed harmlessly.

use vstd::prelude::*;

use crate::hashing::content_hash;
use crate::hashing::spec_basis_of;
use crate::hashing::spec_content_hash;
use crate::store::GossipStore;
use crate::store::has_op;
use crate::store::store_op_step;
use crate::types::Op;

verus! {

/// What integrating a batch does to the stored ops: each item in order,
/// a valid item merged by the idempotent op step, an invalid item
/// skipped.
pub open spec fn integrate_step(ops: Seq<Op>, items: Seq<(u64, Vec<u8>)>, now: u64) -> Seq<Op>
    decreases items.len(),
{
    if items.len() == 0 {
        ops
    } else {
        let item = items[0];
        let rest = items.drop_first();
        if item.0 == spec_content_hash(item.1@) {
            integrate_step(
                store_op_step(
                    ops,
                    Op {
                        hash: item.0,
                        basis: spec_basis_of(item.0),
                        payload: item.1,
                        stored_at: now,
                    },
                ),
                rest,
                now,
            )
        } else {
            integrate_step(ops, rest, now)
        }
    }
}

/// A hash the store holds is never lost by integrating a batch.
pub proof fn lemma_integrate_keeps_ops(ops: Seq<Op>, items: Seq<(u64, Vec<u8>)>, now: u64, h: u64)
    requires
        has_op(ops, h),
    ensures
        has_op(integrate_step(ops, items, now), h),
    decreases items.len(),
{
    if items.len() > 0 {
        let item = items[0];
        let rest = items.drop_first();
        if item.0 == spec_content_hash(item.1@) {
            let op = Op {
                hash: item.0,
                basis: spec_basis_of(item.0),
                payload: item.1,
                stored_at: now,
            };
            let s1 = store_op_step(ops, op);
            assert(has_op(s1, h)) by {
                if !has_op(ops, op.hash) {
                    let i = choose|i: int| 0 <= i < ops.len() && ops[i].hash == h;
                    assert(s1[i].hash == h);
                }
            }
            lemma_integrate_keeps_ops(s1, rest, now, h);
        } else {
            lemma_integrate_keeps_ops(ops, rest, now, h);
        }
    }
}

/// What a batch leaves in the store, exactly: a hash is stored afterwards
/// iff it was stored before or some item of the batch carried it with a
/// payload that really hashes to it. In particular an item whose claimed
/// hash does not match its payload adds nothing, and the other items of
/// its batch are still merged.
pub proof fn lemma_integrate_characterizes(
    ops: Seq<Op>,
    items: Seq<(u64, Vec<u8>)>,
    now: u64,
    h: u64,
)
    ensures
        has_op(integrate_step(ops, items, now), h) <==> (has_op(ops, h) || exists|k: int|
            0 <= k < items.len() && (#[trigger] items[k]).0 == h && items[k].0
                == spec_content_hash(items[k].1@)),
    decreases items.len(),
{
    if items.len() == 0 {
    } else {
        let item = items[0];
        let rest = items.drop_first();
        if item.0 == spec_content_hash(item.1@) {
            let op = Op {
                hash: item.0,
                basis: spec_basis_of(item.0),
                payload: item.1,
                stored_at: now,
            };
            let s1 = store_op_step(ops, op);
            lemma_integrate_characterizes(s1, rest, now, h);
            assert(has_op(s1, h) <==> (has_op(ops, h) || h == op.hash)) by {
                if has_op(ops, h) {
                    let i = choose|i: int| 0 <= i < ops.len() && ops[i].hash == h;
                    assert(s1[i].hash == h);
                }
                if !has_op(ops, op.hash) && h == op.hash {
                    assert(s1[ops.len() as int].hash == h);
                }
                if has_op(s1, h) && s1 != ops {
                    let i = choose|i: int| 0 <= i < s1.len() && s1[i].hash == h;
                    if i < ops.len() {
                        assert(ops[i].hash == h);
                    }
                }
            }
            assert forall|k: int|
                0 <= k < items.len() && (#[trigger] items[k]).0 == h && items[k].0
                    == spec_content_hash(items[k].1@) implies (has_op(ops, h) || h == op.hash
                || exists|k2: int|
                0 <= k2 < rest.len() && (#[trigger] rest[k2]).0 == h && rest[k2].0
                    == spec_content_hash(rest[k2].1@)) by {
                if k > 0 {
                    assert(rest[k - 1] == items[k]);
                }
            }
            assert forall|k2: int|
                0 <= k2 < rest.len() && (#[trigger] rest[k2]).0 == h && rest[k2].0
                    == spec_content_hash(rest[k2].1@) implies (exists|k: int|
                0 <= k < items.len() && (#[trigger] items[k]).0 == h && items[k].0
                    == spec_content_hash(items[k].1@)) by {
                assert(items[k2 + 1] == rest[k2]);
            }
            if h == op.hash {
                assert(items[0].0 == h && items[0].0 == spec_content_hash(items[0].1@));
            }
        } else {
            lemma_integrate_characterizes(ops, rest, now, h);
            assert forall|k: int|
                0 <= k < items.len() && (#[trigger] items[k]).0 == h && items[k].0
                    == spec_content_hash(items[k].1@) implies (has_op(ops, h) || exists|k2: int|
                0 <= k2 < rest.len() && (#[trigger] rest[k2]).0 == h && rest[k2].0
                    == spec_content_hash(rest[k2].1@)) by {
                if k > 0 {
                    assert(rest[k - 1] == items[k]);
                } else {
                    assert(false);
                }
            }
            assert forall|k2: int|
                0 <= k2 < rest.len() && (#[trigger] rest[k2]).0 == h && rest[k2].0
                    == spec_content_hash(rest[k2].1@) implies (exists|k: int|
                0 <= k < items.len() && (#[trigger] items[k]).0 == h && items[k].0
                    == spec_content_hash(items[k].1@)) by {
                assert(items[k2 + 1] == rest[k2]);
            }
        }
    }
}

/// The staging area for ops waiting to be integrated: claimed hash and
/// payload pairs, drained in order by the workflow.
pub struct IntegrateDhtOpsWorkspace {
    /// The queued batch, oldest first.
    pub integration_queue: Vec<(u64, Vec<u8>)>,
}

impl IntegrateDhtOpsWorkspace {
    /// An empty workspace.
    pub fn new() -> (r: IntegrateDhtOpsWorkspace)
        ensures
            r.integration_queue@.len() == 0,
    {
        IntegrateDhtOpsWorkspace { integration_queue: Vec::new() }
    }

    /// Queue one incoming item.
    pub fn queue_op(&mut self, claimed_hash: u64, payload: Vec<u8>)
        ensures
            final(self).integration_queue@ == old(self).integration_queue@.push(
                (claimed_hash, payload),
            ),
    {
        self.integration_queue.push((claimed_hash, payload));
    }
}

/// Drain the workspace into the store: each queued item is validated by
/// recomputing its hash, merged if the claim holds, dropped if not.
/// Returns how many were merged as new ops and how many were rejected.
pub fn integrate_dht_ops_workflow(
    workspace: &mut IntegrateDhtOpsWorkspace,
    store: &mut GossipStore,
    now: u64,
) -> (r: (usize, usize))
    requires
        old(store).wf(),
    ensures
        final(store).wf(),
        final(store).space == old(store).space,
        final(store).agents@ == old(store).agents@,
        final(store).ops@ == integrate_step(
            old(store).ops@,
            old(workspace).integration_queue@,
            now,
        ),
        final(workspace).integration_queue@.len() == 0,
        r.0 + r.1 <= old(workspace).integration_queue@.len(),
{
    let ghost items = workspace.integration_queue@;
    let mut queue: Vec<(u64, Vec<u8>)> = Vec::new();
    core::mem::swap(&mut queue, &mut workspace.integration_queue);
    let n = queue.len();
    proof {
        assert(items.len() == n <= usize::MAX);
    }
    let mut integrated: usize = 0;
    let mut rejected: usize = 0;
    while queue.len() > 0
        invariant
            store.wf(),
            store.space == old(store).space,
            store.agents@ == old(store).agents@,
            integrate_step(old(store).ops@, items, now) == integrate_step(store.ops@, queue@, now),
            integrated + rejected + queue@.len() <= items.len(),
            items.len() <= usize::MAX,
        decreases queue@.len(),
    {
        let ghost prev_queue = queue@;
        let ghost pre_ops = store.ops@;
        let (claimed, payload) = queue.remove(0);
        proof {
            assert(queue@ =~= prev_queue.drop_first());
            assert((claimed, payload) == prev_queue[0]);
        }
        let computed = content_hash(payload.as_slice());
        if computed == claimed {
            let had = store.get_op(claimed).is_some();
            let op = Op::new(payload, now);
            store.store_op(op);
            if !had {
                integrated += 1;
            }
        } else {
            rejected += 1;
        }
    }
    proof {
        assert(integrate_step(store.ops@, queue@, now) == store.ops@);
    }
        (integrated, rejected)
}

/// Author one op locally: hash the payload, store it, give back its hash.
/// The general way any content enters the node's own store.
pub fn create(store: &mut GossipStore, payload: Vec<u8>, now: u64) -> (r: u64)
    requires
        old(store).wf(),
    ensures
        final(store).wf(),
        r == spec_content_hash(payload@),
        final(store).agents@ == old(store).agents@,
        final(store).ops@ == store_op_step(
            old(store).ops@,
            (Op { hash: r, basis: spec_basis_of(r), payload: payload, stored_at: now }),
        ),
        has_op(final(store).ops@, r),
{
    let op = Op::new(payload, now);
    let h = op.hash;
    let ghost pre = store.ops@;
    store.store_op(op);
    proof {
        if has_op(pre, h) {
            let i = choose|i: int| 0 <= i < pre.len() && pre[i].hash == h;
            assert(store.ops@[i].hash == h);
        } else {
            assert(store.ops@[pre.len() as int].hash == h);
        }
    }
    h
}

} // verus!
