//! Plain data types of the engine: agent-info records, ops, configuration
//! and errors.

use vstd::prelude::*;

use crate::arc::DhtArc;
use crate::hashing::spec_basis_of;
use crate::hashing::spec_content_hash;
use crate::hashing::basis_of;
use crate::hashing::content_hash;

verus! {

/// A signed presence record for one agent: which space it is in, which arc
/// it claims, and when it signed the record. Records for the same agent
/// supersede each other by `signed_at`, newest wins. The transport address
/// list and the signature are opaque to the engine — it never looks inside
/// either — so the record carries them as opaque words that the hosting
/// service resolves to the real blobs; signature checking is the host's
/// single verification call, made before a record is handed to the engine.
#[derive(Clone, Copy, Debug, PartialEq, Eq, Structural)]
pub struct AgentInfo {
    /// The agent this record describes.
    pub agent: u64,
    /// The gossip space the record belongs to.
    pub space: u64,
    /// The arc of the key space the agent claims.
    pub storage_arc: DhtArc,
    /// When the agent signed the record; newer records supersede older.
    pub signed_at: u64,
    /// When the record stops being valid.
    pub expires_at: u64,
    /// Opaque word standing for the agent's transport addresses.
    pub addr: u64,
    /// Opaque word standing for the record's signature blob.
    pub signature: u64,
}

/// An immutable, content-addressed data record. The hash identifies the
/// op; the basis is where the op sits on the ring, and decides which arcs
/// it belongs to.
#[derive(Clone, Debug, PartialEq)]
pub struct Op {
    /// Content hash of the payload.
    pub hash: u64,
    /// Point of the key space the op belongs to.
    pub basis: u32,
    /// The op's bytes.
    pub payload: Vec<u8>,
    /// When this node stored the op (not part of the content).
    pub stored_at: u64,
}

impl Op {
    /// A valid op: its hash really is the content hash of its payload, and
    /// its basis is derived from the hash.
    pub open spec fn wf(self) -> bool {
        self.hash == spec_content_hash(self.payload@) && self.basis == spec_basis_of(self.hash)
    }

    /// Author an op from its payload.
    pub fn new(payload: Vec<u8>, now: u64) -> (r: Op)
        ensures
            r.wf(),
            r.hash == spec_content_hash(payload@),
            r.payload == payload,
            r.basis == spec_basis_of(r.hash),
            r.stored_at == now,
    {
        let hash = content_hash(payload.as_slice());
        let basis = basis_of(hash);
        Op { hash, basis, payload, stored_at: now }
    }
}

/// Tuning of the engine. Every field has a usable default, so the engine
/// runs with no configuration at all.
#[derive(Clone, Copy, Debug, PartialEq, Eq, Structural)]
pub struct GossipConfig {
    /// How often the scheduler ticks, in milliseconds.
    pub tick_interval_ms: u64,
    /// Most rounds allowed to run at once.
    pub max_concurrent_rounds: usize,
    /// A round with no progress for this long is timed out.
    pub round_timeout_ms: u64,
    /// How long a peer rests after a round before it is picked again.
    pub cooldown_ms: u64,
    /// Bloom filter bits spent per item.
    pub bloom_bits_per_item: u32,
    /// Bloom filter probe hashes per key.
    pub bloom_num_hashes: u32,
    /// Half-length given to an agent that has not declared an arc.
    pub default_arc_half_length: u32,
}

impl GossipConfig {
    /// Bounds the bloom sizing arithmetic relies on.
    pub open spec fn wf(self) -> bool {
        &&& 1 <= self.bloom_bits_per_item <= 64
        &&& 1 <= self.bloom_num_hashes <= 64
        &&& self.max_concurrent_rounds >= 1
    }
}

impl Default for GossipConfig {
    /// The zero-configuration defaults: a one-second tick, eight parallel
    /// rounds, a thirty-second round timeout, and bloom parameters aimed
    /// at about a one percent false-positive rate.
    fn default() -> (r: GossipConfig)
        ensures
            r.wf(),
            r.tick_interval_ms == 1000,
            r.max_concurrent_rounds == 8,
            r.round_timeout_ms == 30000,
            r.cooldown_ms == 1000,
            r.bloom_bits_per_item == 10,
            r.bloom_num_hashes == 7,
            r.default_arc_half_length == u32::MAX,
    {
        GossipConfig {
            tick_interval_ms: 1000,
            max_concurrent_rounds: 8,
            round_timeout_ms: 30000,
            cooldown_ms: 1000,
            bloom_bits_per_item: 10,
            bloom_num_hashes: 7,
            default_arc_half_length: u32::MAX,
        }
    }
}

/// Why the engine refused a call or ended a round.
#[derive(Clone, Copy, Debug, PartialEq, Eq, Structural)]
pub enum GossipError {
    /// This node has no local agent, so no round can be run.
    NoLocalAgents,
    /// The engine holds no agent-info record for the requested peer.
    UnknownPeer,
    /// A round is already live for this peer connection.
    RoundAlreadyActive,
    /// A message arrived for a peer connection with no live round.
    NoRoundForPeer,
    /// A message arrived that the round's phase does not allow.
    UnexpectedMessage,
    /// The peer's view of the common arc set disagrees with ours.
    ArcDigestMismatch,
    /// The incoming bytes are not a well-formed message.
    BadWireData,
}

} // verus!
