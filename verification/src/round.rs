//! Per-peer round state.
//!
//! One [`RoundState`] tracks one in-progress exchange with one peer
//! connection. A round is created by initiating or accepting, walks
//! through the agent diff and the op diff in both directions, and is torn
//! down on completion, on a protocol error, or when its deadline passes
//! with no progress. The engine keeps at most one live round per peer
//! certificate.

use vstd::prelude::*;

use crate::arc::ArcSet;

verus! {

/// Where a round stands. `Complete`, `TimedOut` and `Errored` are
/// terminal: a round reaching them is removed from the engine's table.
#[derive(Clone, Copy, Debug, PartialEq, Eq, Structural)]
pub enum RoundPhase {
    /// We sent the opening message and wait for the peer's answer.
    Initiated,
    /// We answered a peer's opening message.
    Accepted,
    /// Agent-info diffs have crossed in both directions.
    AgentDiffExchanged,
    /// Op diffs have crossed in both directions.
    OpsDiffExchanged,
    /// Both diffs done in both directions; the round is torn down.
    Complete,
    /// The deadline passed with no progress; the round is torn down.
    TimedOut,
    /// The peer broke the protocol; the round is torn down.
    Errored,
}

/// The mutable record of one in-progress round with one peer.
#[derive(Clone, Debug)]
pub struct RoundState {
    /// The local agent speaking in this round.
    pub local_agent: u64,
    /// The remote agent on the other side.
    pub remote_agent: u64,
    /// The intersection of the two sides' claimed arcs; only items inside
    /// it are exchanged.
    pub common_arc_set: ArcSet,
    /// When the round began, as its initiator stamped it; ties between
    /// concurrent rounds are broken with this.
    pub started_at: u64,
    /// Last time a message of this round arrived or left.
    pub last_touched_at: u64,
    /// Digest of the arc intervals we sent, echoed back by an Accept.
    pub sent_intervals_digest: u64,
    /// Whether our side opened the round.
    pub initiated_by_us: bool,
    /// We sent our agent diff (missing agents, or nothing missing).
    pub agent_diff_sent: bool,
    /// The peer sent us its agent diff.
    pub agent_diff_received: bool,
    /// We sent our op diff.
    pub ops_diff_sent: bool,
    /// The peer sent us its op diff.
    pub ops_diff_received: bool,
}

impl RoundState {
    /// Both diffs have crossed in both directions: nothing is left to do.
    pub open spec fn spec_is_complete(self) -> bool {
        self.agent_diff_sent && self.agent_diff_received && self.ops_diff_sent
            && self.ops_diff_received
    }

    /// The phase a live round is in, read off its progress flags.
    pub open spec fn spec_phase(self) -> RoundPhase {
        if self.spec_is_complete() {
            RoundPhase::Complete
        } else if self.ops_diff_sent && self.ops_diff_received {
            RoundPhase::OpsDiffExchanged
        } else if self.agent_diff_sent && self.agent_diff_received {
            RoundPhase::AgentDiffExchanged
        } else if self.initiated_by_us {
            RoundPhase::Initiated
        } else {
            RoundPhase::Accepted
        }
    }

    /// Past its deadline: no progress for longer than the timeout.
    pub open spec fn spec_expired(self, now: u64, timeout_ms: u64) -> bool {
        now > self.last_touched_at + timeout_ms
    }

    /// Both diffs have crossed in both directions.
    pub fn is_complete(&self) -> (r: bool)
        ensures
            r == self.spec_is_complete(),
    {
        self.agent_diff_sent && self.agent_diff_received && self.ops_diff_sent
            && self.ops_diff_received
    }

    /// The phase this round is in.
    pub fn phase(&self) -> (r: RoundPhase)
        ensures
            r == self.spec_phase(),
    {
        if self.is_complete() {
            RoundPhase::Complete
        } else if self.ops_diff_sent && self.ops_diff_received {
            RoundPhase::OpsDiffExchanged
        } else if self.agent_diff_sent && self.agent_diff_received {
            RoundPhase::AgentDiffExchanged
        } else if self.initiated_by_us {
            RoundPhase::Initiated
        } else {
            RoundPhase::Accepted
        }
    }

    /// Whether the round is past its deadline.
    pub fn is_expired(&self, now: u64, timeout_ms: u64) -> (r: bool)
        ensures
            r == self.spec_expired(now, timeout_ms),
    {
        (now as u128) > (self.last_touched_at as u128) + (timeout_ms as u128)
    }
}

} // verus!
