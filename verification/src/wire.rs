//! The wire protocol: the messages one gossip round exchanges, and their
//! binary codec.
//!
//! Messages are tagged variants with little-endian fields and
//! length-prefixed lists. `encode` produces exactly the byte form that the
//! specification functions describe, and `decode` is proven equal to a
//! deterministic specification parser, so a malformed or truncated message
//! is rejected rather than misread, and a well-formed one is read back
//! field for field.

use vstd::prelude::*;

use crate::arc::ArcInterval;
use crate::bloom::BloomFilter;
use crate::bloom::MAX_BLOOM_BITS;
use crate::hashing::content_hash;
use crate::hashing::push_u64_le;
use crate::hashing::spec_content_hash;
use crate::hashing::u64_le_bytes;
use crate::types::AgentInfo;
use crate::types::GossipError;

verus! {

/// Spec form of a bloom filter: its dimensions and its packed bits.
pub struct BloomForm {
    pub num_bits: u64,
    pub num_hashes: u32,
    pub bits: Seq<u8>,
}

impl BloomForm {
    /// A form a well-formed filter can have.
    pub open spec fn wf(self) -> bool {
        &&& 1 <= self.num_bits <= MAX_BLOOM_BITS
        &&& 1 <= self.num_hashes <= 64
        &&& self.bits.len() == (self.num_bits + 7) / 8
    }
}

impl BloomFilter {
    /// The spec form of this filter.
    pub open spec fn form(self) -> BloomForm {
        BloomForm { num_bits: self.num_bits, num_hashes: self.num_hashes, bits: self.bits@ }
    }
}

/// One message of a gossip round.
#[derive(Clone, Debug)]
pub enum ShardedGossipWire {
    /// Open a round: the initiator's arc coverage, identity, start time,
    /// and its two filters over the common arc set it computed.
    Initiate {
        intervals: Vec<ArcInterval>,
        initiator_agent: u64,
        started_at: u64,
        agent_bloom: BloomFilter,
        ops_bloom: BloomFilter,
    },
    /// Answer an Initiate: the acceptor's coverage, a digest of the common
    /// arc set it computed, and its own two filters.
    Accept {
        intervals: Vec<ArcInterval>,
        common_digest: u64,
        agent_bloom: BloomFilter,
        ops_bloom: BloomFilter,
    },
    /// A fresh agent filter, to resume the agent diff.
    Agents { bloom: BloomFilter },
    /// Agent-info records the sender holds that the peer seems to lack.
    MissingAgents { agents: Vec<AgentInfo> },
    /// The sender has no agents to reconcile.
    NoAgents,
    /// A fresh op filter, to resume the op diff.
    Ops { bloom: BloomFilter },
    /// Op payloads the sender holds that the peer seems to lack, each with
    /// its claimed content hash; `finished` closes the sender's op diff.
    MissingOps { ops: Vec<(u64, Vec<u8>)>, finished: bool },
}

/// Every bloom filter carried by a message is well-formed.
pub open spec fn wire_blooms_wf(m: ShardedGossipWire) -> bool {
    match m {
        ShardedGossipWire::Initiate { agent_bloom, ops_bloom, .. } => agent_bloom.wf()
            && ops_bloom.wf(),
        ShardedGossipWire::Accept { agent_bloom, ops_bloom, .. } => agent_bloom.wf()
            && ops_bloom.wf(),
        ShardedGossipWire::Agents { bloom } => bloom.wf(),
        ShardedGossipWire::Ops { bloom } => bloom.wf(),
        _ => true,
    }
}

/// Spec form of a message: the same variants over spec sequences.
pub enum WireForm {
    Initiate {
        intervals: Seq<ArcInterval>,
        initiator_agent: u64,
        started_at: u64,
        agent_bloom: BloomForm,
        ops_bloom: BloomForm,
    },
    Accept {
        intervals: Seq<ArcInterval>,
        common_digest: u64,
        agent_bloom: BloomForm,
        ops_bloom: BloomForm,
    },
    Agents { bloom: BloomForm },
    MissingAgents { agents: Seq<AgentInfo> },
    NoAgents,
    Ops { bloom: BloomForm },
    MissingOps { ops: Seq<(u64, Seq<u8>)>, finished: bool },
}

impl ShardedGossipWire {
    /// The spec form of this message.
    pub open spec fn form(self) -> WireForm {
        match self {
            ShardedGossipWire::Initiate {
                intervals,
                initiator_agent,
                started_at,
                agent_bloom,
                ops_bloom,
            } => WireForm::Initiate {
                intervals: intervals@,
                initiator_agent,
                started_at,
                agent_bloom: agent_bloom.form(),
                ops_bloom: ops_bloom.form(),
            },
            ShardedGossipWire::Accept { intervals, common_digest, agent_bloom, ops_bloom } => {
                WireForm::Accept {
                    intervals: intervals@,
                    common_digest,
                    agent_bloom: agent_bloom.form(),
                    ops_bloom: ops_bloom.form(),
                }
            },
            ShardedGossipWire::Agents { bloom } => WireForm::Agents { bloom: bloom.form() },
            ShardedGossipWire::MissingAgents { agents } => WireForm::MissingAgents {
                agents: agents@,
            },
            ShardedGossipWire::NoAgents => WireForm::NoAgents,
            ShardedGossipWire::Ops { bloom } => WireForm::Ops { bloom: bloom.form() },
            ShardedGossipWire::MissingOps { ops, finished } => WireForm::MissingOps {
                ops: Seq::new(ops@.len(), |i: int| (ops@[i].0, ops@[i].1@)),
                finished,
            },
        }
    }
}

// ---------------------------------------------------------------------
// Spec encoders
// ---------------------------------------------------------------------

/// The four little-endian bytes of a `u32`.
pub open spec fn u32_le_bytes(v: u32) -> Seq<u8> {
    seq![
        (v % 256) as u8,
        ((v / 0x100) % 256) as u8,
        ((v / 0x1_0000) % 256) as u8,
        ((v / 0x100_0000) % 256) as u8,
    ]
}

/// Byte form of one interval.
pub open spec fn enc_interval(iv: ArcInterval) -> Seq<u8> {
    match iv {
        ArcInterval::Empty => seq![0u8],
        ArcInterval::Full => seq![1u8],
        ArcInterval::Bounded { start, end } => seq![2u8] + u32_le_bytes(start) + u32_le_bytes(end),
    }
}

/// Byte form of a list of intervals, without its count.
pub open spec fn enc_interval_items(s: Seq<ArcInterval>) -> Seq<u8>
    decreases s.len(),
{
    if s.len() == 0 {
        Seq::empty()
    } else {
        enc_interval_items(s.drop_last()) + enc_interval(s.last())
    }
}

/// Byte form of a list of intervals: count, then each interval.
pub open spec fn enc_intervals(s: Seq<ArcInterval>) -> Seq<u8> {
    u64_le_bytes(s.len() as u64) + enc_interval_items(s)
}

/// Byte form of a bloom filter: dimensions, then the packed bits.
pub open spec fn enc_bloom(b: BloomForm) -> Seq<u8> {
    u64_le_bytes(b.num_bits) + u32_le_bytes(b.num_hashes) + b.bits
}

/// Byte form of one agent-info record.
pub open spec fn enc_agent(a: AgentInfo) -> Seq<u8> {
    u64_le_bytes(a.agent) + u64_le_bytes(a.space) + u32_le_bytes(a.storage_arc.center)
        + u32_le_bytes(a.storage_arc.half_length) + u64_le_bytes(a.signed_at) + u64_le_bytes(
        a.expires_at,
    ) + u64_le_bytes(a.addr) + u64_le_bytes(a.signature)
}

/// Byte form of a list of agent-info records, without its count.
pub open spec fn enc_agent_items(s: Seq<AgentInfo>) -> Seq<u8>
    decreases s.len(),
{
    if s.len() == 0 {
        Seq::empty()
    } else {
        enc_agent_items(s.drop_last()) + enc_agent(s.last())
    }
}

/// Byte form of one pushed op: claimed hash, payload length, payload.
pub open spec fn enc_op_item(o: (u64, Seq<u8>)) -> Seq<u8> {
    u64_le_bytes(o.0) + u64_le_bytes(o.1.len() as u64) + o.1
}

/// Byte form of a list of pushed ops, without its count.
pub open spec fn enc_op_items(s: Seq<(u64, Seq<u8>)>) -> Seq<u8>
    decreases s.len(),
{
    if s.len() == 0 {
        Seq::empty()
    } else {
        enc_op_items(s.drop_last()) + enc_op_item(s.last())
    }
}

/// The full byte form of a message.
pub open spec fn spec_encode(f: WireForm) -> Seq<u8> {
    match f {
        WireForm::Initiate { intervals, initiator_agent, started_at, agent_bloom, ops_bloom } => {
            seq![1u8] + enc_intervals(intervals) + u64_le_bytes(initiator_agent) + u64_le_bytes(
                started_at,
            ) + enc_bloom(agent_bloom) + enc_bloom(ops_bloom)
        },
        WireForm::Accept { intervals, common_digest, agent_bloom, ops_bloom } => {
            seq![2u8] + enc_intervals(intervals) + u64_le_bytes(common_digest) + enc_bloom(
                agent_bloom,
            ) + enc_bloom(ops_bloom)
        },
        WireForm::Agents { bloom } => seq![3u8] + enc_bloom(bloom),
        WireForm::MissingAgents { agents } => {
            seq![4u8] + u64_le_bytes(agents.len() as u64) + enc_agent_items(agents)
        },
        WireForm::NoAgents => seq![5u8],
        WireForm::Ops { bloom } => seq![6u8] + enc_bloom(bloom),
        WireForm::MissingOps { ops, finished } => {
            seq![7u8] + u64_le_bytes(ops.len() as u64) + enc_op_items(ops) + seq![
                if finished {
                    1u8
                } else {
                    0u8
                },
            ]
        },
    }
}

/// The digest two peers compare to agree on the common arc set: the
/// content hash of the set's encoded intervals.
pub open spec fn spec_arc_digest(s: Seq<ArcInterval>) -> u64 {
    spec_content_hash(enc_interval_items(s))
}

// ---------------------------------------------------------------------
// Spec parser
// ---------------------------------------------------------------------

/// The value of eight little-endian bytes.
pub open spec fn u64_from_le(s: Seq<u8>) -> u64 {
    ((s[0] as int) + (s[1] as int) * 0x100 + (s[2] as int) * 0x1_0000 + (s[3] as int) * 0x100_0000
        + (s[4] as int) * 0x1_0000_0000 + (s[5] as int) * 0x100_0000_0000 + (s[6] as int)
        * 0x1_0000_0000_0000 + (s[7] as int) * 0x100_0000_0000_0000) as u64
}

/// The value of four little-endian bytes.
pub open spec fn u32_from_le(s: Seq<u8>) -> u32 {
    ((s[0] as int) + (s[1] as int) * 0x100 + (s[2] as int) * 0x1_0000 + (s[3] as int)
        * 0x100_0000) as u32
}

/// Read one byte.
pub open spec fn sp_u8(b: Seq<u8>, pos: int) -> Option<(u8, int)> {
    if 0 <= pos && pos + 1 <= b.len() {
        Some((b[pos], pos + 1))
    } else {
        None
    }
}

/// Read a little-endian `u32`.
pub open spec fn sp_u32(b: Seq<u8>, pos: int) -> Option<(u32, int)> {
    if 0 <= pos && pos + 4 <= b.len() {
        Some((u32_from_le(b.subrange(pos, pos + 4)), pos + 4))
    } else {
        None
    }
}

/// Read a little-endian `u64`.
pub open spec fn sp_u64(b: Seq<u8>, pos: int) -> Option<(u64, int)> {
    if 0 <= pos && pos + 8 <= b.len() {
        Some((u64_from_le(b.subrange(pos, pos + 8)), pos + 8))
    } else {
        None
    }
}

/// Read `n` raw bytes.
pub open spec fn sp_bytes(b: Seq<u8>, pos: int, n: int) -> Option<(Seq<u8>, int)> {
    if 0 <= pos && 0 <= n && pos + n <= b.len() {
        Some((b.subrange(pos, pos + n), pos + n))
    } else {
        None
    }
}

/// Read one interval.
pub open spec fn sp_interval(b: Seq<u8>, pos: int) -> Option<(ArcInterval, int)> {
    match sp_u8(b, pos) {
        None => None,
        Some((tag, p1)) => if tag == 0 {
            Some((ArcInterval::Empty, p1))
        } else if tag == 1 {
            Some((ArcInterval::Full, p1))
        } else if tag == 2 {
            match sp_u32(b, p1) {
                None => None,
                Some((start, p2)) => match sp_u32(b, p2) {
                    None => None,
                    Some((end, p3)) => Some((ArcInterval::Bounded { start, end }, p3)),
                },
            }
        } else {
            None
        },
    }
}

/// Read `n` intervals.
pub open spec fn sp_interval_items(b: Seq<u8>, pos: int, n: nat) -> Option<(Seq<ArcInterval>, int)>
    decreases n,
{
    if n == 0 {
        Some((Seq::empty(), pos))
    } else {
        match sp_interval(b, pos) {
            None => None,
            Some((iv, p1)) => match sp_interval_items(b, p1, (n - 1) as nat) {
                None => None,
                Some((s, p2)) => Some((seq![iv] + s, p2)),
            },
        }
    }
}

/// Read a counted list of intervals.
pub open spec fn sp_intervals(b: Seq<u8>, pos: int) -> Option<(Seq<ArcInterval>, int)> {
    match sp_u64(b, pos) {
        None => None,
        Some((n, p1)) => sp_interval_items(b, p1, n as nat),
    }
}

/// Read a bloom filter, refusing out-of-range dimensions.
pub open spec fn sp_bloom(b: Seq<u8>, pos: int) -> Option<(BloomForm, int)> {
    match sp_u64(b, pos) {
        None => None,
        Some((num_bits, p1)) => match sp_u32(b, p1) {
            None => None,
            Some((num_hashes, p2)) => if 1 <= num_bits <= MAX_BLOOM_BITS && 1 <= num_hashes <= 64 {
                match sp_bytes(b, p2, ((num_bits + 7) / 8) as int) {
                    None => None,
                    Some((bits, p3)) => Some((BloomForm { num_bits, num_hashes, bits }, p3)),
                }
            } else {
                None
            },
        },
    }
}

/// Read one agent-info record.
pub open spec fn sp_agent(b: Seq<u8>, pos: int) -> Option<(AgentInfo, int)> {
    match sp_u64(b, pos) {
        None => None,
        Some((agent, p1)) => match sp_u64(b, p1) {
            None => None,
            Some((space, p2)) => match sp_u32(b, p2) {
                None => None,
                Some((center, p3)) => match sp_u32(b, p3) {
                    None => None,
                    Some((half_length, p4)) => match sp_u64(b, p4) {
                        None => None,
                        Some((signed_at, p5)) => match sp_u64(b, p5) {
                            None => None,
                            Some((expires_at, p6)) => match sp_u64(b, p6) {
                                None => None,
                                Some((addr, p7)) => match sp_u64(b, p7) {
                                    None => None,
                                    Some((signature, p8)) => Some(
                                        (
                                            AgentInfo {
                                                agent,
                                                space,
                                                storage_arc: crate::arc::DhtArc {
                                                    center,
                                                    half_length,
                                                },
                                                signed_at,
                                                expires_at,
                                                addr,
                                                signature,
                                            },
                                            p8,
                                        ),
                                    ),
                                },
                            },
                        },
                    },
                },
            },
        },
    }
}

/// Read `n` agent-info records.
pub open spec fn sp_agent_items(b: Seq<u8>, pos: int, n: nat) -> Option<(Seq<AgentInfo>, int)>
    decreases n,
{
    if n == 0 {
        Some((Seq::empty(), pos))
    } else {
        match sp_agent(b, pos) {
            None => None,
            Some((a, p1)) => match sp_agent_items(b, p1, (n - 1) as nat) {
                None => None,
                Some((s, p2)) => Some((seq![a] + s, p2)),
            },
        }
    }
}

/// Read one pushed op: claimed hash, payload length, payload.
pub open spec fn sp_op_item(b: Seq<u8>, pos: int) -> Option<((u64, Seq<u8>), int)> {
    match sp_u64(b, pos) {
        None => None,
        Some((hash, p1)) => match sp_u64(b, p1) {
            None => None,
            Some((len, p2)) => match sp_bytes(b, p2, len as int) {
                None => None,
                Some((payload, p3)) => Some(((hash, payload), p3)),
            },
        },
    }
}

/// Read `n` pushed ops.
pub open spec fn sp_op_items(b: Seq<u8>, pos: int, n: nat) -> Option<(Seq<(u64, Seq<u8>)>, int)>
    decreases n,
{
    if n == 0 {
        Some((Seq::empty(), pos))
    } else {
        match sp_op_item(b, pos) {
            None => None,
            Some((o, p1)) => match sp_op_items(b, p1, (n - 1) as nat) {
                None => None,
                Some((s, p2)) => Some((seq![o] + s, p2)),
            },
        }
    }
}

/// Read a `bool` byte, refusing anything but zero and one.
pub open spec fn sp_bool(b: Seq<u8>, pos: int) -> Option<(bool, int)> {
    match sp_u8(b, pos) {
        None => None,
        Some((v, p1)) => if v == 0 {
            Some((false, p1))
        } else if v == 1 {
            Some((true, p1))
        } else {
            None
        },
    }
}

/// The deterministic parser: the one message these bytes hold, if any.
/// Trailing bytes, a bad tag, a bad bool, out-of-range bloom dimensions
/// or a truncated field all parse to `None`.
pub open spec fn spec_decode(b: Seq<u8>) -> Option<WireForm> {
    match sp_u8(b, 0) {
        None => None,
        Some((tag, p0)) => if tag == 1 {
            match sp_intervals(b, p0) {
                None => None,
                Some((intervals, p1)) => match sp_u64(b, p1) {
                    None => None,
                    Some((initiator_agent, p2)) => match sp_u64(b, p2) {
                        None => None,
                        Some((started_at, p3)) => match sp_bloom(b, p3) {
                            None => None,
                            Some((agent_bloom, p4)) => match sp_bloom(b, p4) {
                                None => None,
                                Some((ops_bloom, p5)) => if p5 == b.len() {
                                    Some(
                                        WireForm::Initiate {
                                            intervals,
                                            initiator_agent,
                                            started_at,
                                            agent_bloom,
                                            ops_bloom,
                                        },
                                    )
                                } else {
                                    None
                                },
                            },
                        },
                    },
                },
            }
        } else if tag == 2 {
            match sp_intervals(b, p0) {
                None => None,
                Some((intervals, p1)) => match sp_u64(b, p1) {
                    None => None,
                    Some((common_digest, p2)) => match sp_bloom(b, p2) {
                        None => None,
                        Some((agent_bloom, p3)) => match sp_bloom(b, p3) {
                            None => None,
                            Some((ops_bloom, p4)) => if p4 == b.len() {
                                Some(
                                    WireForm::Accept {
                                        intervals,
                                        common_digest,
                                        agent_bloom,
                                        ops_bloom,
                                    },
                                )
                            } else {
                                None
                            },
                        },
                    },
                },
            }
        } else if tag == 3 {
            match sp_bloom(b, p0) {
                None => None,
                Some((bloom, p1)) => if p1 == b.len() {
                    Some(WireForm::Agents { bloom })
                } else {
                    None
                },
            }
        } else if tag == 4 {
            match sp_u64(b, p0) {
                None => None,
                Some((n, p1)) => match sp_agent_items(b, p1, n as nat) {
                    None => None,
                    Some((agents, p2)) => if p2 == b.len() {
                        Some(WireForm::MissingAgents { agents })
                    } else {
                        None
                    },
                },
            }
        } else if tag == 5 {
            if p0 == b.len() {
                Some(WireForm::NoAgents)
            } else {
                None
            }
        } else if tag == 6 {
            match sp_bloom(b, p0) {
                None => None,
                Some((bloom, p1)) => if p1 == b.len() {
                    Some(WireForm::Ops { bloom })
                } else {
                    None
                },
            }
        } else if tag == 7 {
            match sp_u64(b, p0) {
                None => None,
                Some((n, p1)) => match sp_op_items(b, p1, n as nat) {
                    None => None,
                    Some((ops, p2)) => match sp_bool(b, p2) {
                        None => None,
                        Some((finished, p3)) => if p3 == b.len() {
                            Some(WireForm::MissingOps { ops, finished })
                        } else {
                            None
                        },
                    },
                },
            }
        } else {
            None
        },
    }
}


// ---------------------------------------------------------------------
// Exec readers
// ---------------------------------------------------------------------

/// Read one byte.
fn read_u8(bytes: &[u8], pos: usize) -> (r: Option<(u8, usize)>)
    ensures
        match r {
            Some((v, np)) => sp_u8(bytes@, pos as int) == Some((v, np as int)),
            None => sp_u8(bytes@, pos as int) is None,
        },
{
    if pos < bytes.len() {
        Some((bytes[pos], pos + 1))
    } else {
        None
    }
}

/// Read a little-endian `u32`.
fn read_u32(bytes: &[u8], pos: usize) -> (r: Option<(u32, usize)>)
    ensures
        match r {
            Some((v, np)) => sp_u32(bytes@, pos as int) == Some((v, np as int)),
            None => sp_u32(bytes@, pos as int) is None,
        },
{
    if bytes.len() >= 4 && pos <= bytes.len() - 4 {
        let v = (bytes[pos] as u32) + (bytes[pos + 1] as u32) * 0x100 + (bytes[pos + 2] as u32)
            * 0x1_0000 + (bytes[pos + 3] as u32) * 0x100_0000;
        proof {
            let s = bytes@.subrange(pos as int, pos + 4 as int);
            assert(s[0] == bytes@[pos as int]);
            assert(s[1] == bytes@[pos + 1 as int]);
            assert(s[2] == bytes@[pos + 2 as int]);
            assert(s[3] == bytes@[pos + 3 as int]);
        }
        Some((v, pos + 4))
    } else {
        None
    }
}

/// Read a little-endian `u64`.
fn read_u64(bytes: &[u8], pos: usize) -> (r: Option<(u64, usize)>)
    ensures
        match r {
            Some((v, np)) => sp_u64(bytes@, pos as int) == Some((v, np as int)),
            None => sp_u64(bytes@, pos as int) is None,
        },
{
    if bytes.len() >= 8 && pos <= bytes.len() - 8 {
        let v = (bytes[pos] as u64) + (bytes[pos + 1] as u64) * 0x100 + (bytes[pos + 2] as u64)
            * 0x1_0000 + (bytes[pos + 3] as u64) * 0x100_0000 + (bytes[pos + 4] as u64)
            * 0x1_0000_0000 + (bytes[pos + 5] as u64) * 0x100_0000_0000 + (bytes[pos + 6] as u64)
            * 0x1_0000_0000_0000 + (bytes[pos + 7] as u64) * 0x100_0000_0000_0000;
        proof {
            let s = bytes@.subrange(pos as int, pos + 8 as int);
            assert(s[0] == bytes@[pos as int]);
            assert(s[1] == bytes@[pos + 1 as int]);
            assert(s[2] == bytes@[pos + 2 as int]);
            assert(s[3] == bytes@[pos + 3 as int]);
            assert(s[4] == bytes@[pos + 4 as int]);
            assert(s[5] == bytes@[pos + 5 as int]);
            assert(s[6] == bytes@[pos + 6 as int]);
            assert(s[7] == bytes@[pos + 7 as int]);
        }
        Some((v, pos + 8))
    } else {
        None
    }
}

/// Read `n` raw bytes into a fresh buffer.
fn read_bytes(bytes: &[u8], pos: usize, n: usize) -> (r: Option<(Vec<u8>, usize)>)
    ensures
        match r {
            Some((v, np)) => sp_bytes(bytes@, pos as int, n as int) == Some((v@, np as int)),
            None => sp_bytes(bytes@, pos as int, n as int) is None,
        },
{
    if n <= bytes.len() && pos <= bytes.len() - n {
        let mut v: Vec<u8> = Vec::new();
        let mut i: usize = 0;
        while i < n
            invariant
                0 <= i <= n,
                pos + n <= bytes@.len(),
                bytes@.len() <= usize::MAX,
                v@ == bytes@.subrange(pos as int, pos + i as int),
            decreases n - i,
        {
            v.push(bytes[pos + i]);
            proof {
                assert(v@ =~= bytes@.subrange(pos as int, pos + (i + 1) as int));
            }
            i += 1;
        }
        Some((v, pos + n))
    } else {
        None
    }
}

/// Read one interval.
fn read_interval(bytes: &[u8], pos: usize) -> (r: Option<(ArcInterval, usize)>)
    ensures
        match r {
            Some((v, np)) => sp_interval(bytes@, pos as int) == Some((v, np as int)),
            None => sp_interval(bytes@, pos as int) is None,
        },
{
    let (tag, p1) = match read_u8(bytes, pos) {
        Some(x) => x,
        None => {
            return None;
        },
    };
    if tag == 0 {
        Some((ArcInterval::Empty, p1))
    } else if tag == 1 {
        Some((ArcInterval::Full, p1))
    } else if tag == 2 {
        let (start, p2) = match read_u32(bytes, p1) {
            Some(x) => x,
            None => {
                return None;
            },
        };
        let (end, p3) = match read_u32(bytes, p2) {
            Some(x) => x,
            None => {
                return None;
            },
        };
        Some((ArcInterval::Bounded { start, end }, p3))
    } else {
        None
    }
}

/// Read a counted list of intervals.
fn read_intervals(bytes: &[u8], pos: usize) -> (r: Option<(Vec<ArcInterval>, usize)>)
    ensures
        match r {
            Some((v, np)) => sp_intervals(bytes@, pos as int) == Some((v@, np as int)),
            None => sp_intervals(bytes@, pos as int) is None,
        },
{
    let (n, p1) = match read_u64(bytes, pos) {
        Some(x) => x,
        None => {
            return None;
        },
    };
    let mut out: Vec<ArcInterval> = Vec::new();
    let mut p = p1;
    let mut i: u64 = 0;
    while i < n
        invariant
            0 <= i <= n,
            sp_intervals(bytes@, pos as int) == (match sp_interval_items(
                bytes@,
                p as int,
                (n - i) as nat,
            ) {
                Some((s, np)) => Some((out@ + s, np)),
                None => None::<(Seq<ArcInterval>, int)>,
            }),
        decreases n - i,
    {
        let (iv, p2) = match read_interval(bytes, p) {
            Some(x) => x,
            None => {
                return None;
            },
        };
        let ghost prev = out@;
        out.push(iv);
        proof {
            if sp_interval_items(bytes@, p2 as int, (n - i - 1) as nat) is Some {
                let (s, np) = sp_interval_items(bytes@, p2 as int, (n - i - 1) as nat)->Some_0;
                assert(prev + (seq![iv] + s) =~= out@ + s);
            }
        }
        p = p2;
        i += 1;
    }
    proof {
        assert(sp_interval_items(bytes@, p as int, 0) == Some(
            (Seq::<ArcInterval>::empty(), p as int),
        ));
        assert(out@ + Seq::<ArcInterval>::empty() =~= out@);
    }
    Some((out, p))
}

/// Read a bloom filter; the result is well-formed.
fn read_bloom(bytes: &[u8], pos: usize) -> (r: Option<(BloomFilter, usize)>)
    ensures
        match r {
            Some((v, np)) => sp_bloom(bytes@, pos as int) == Some((v.form(), np as int)) && v.wf(),
            None => sp_bloom(bytes@, pos as int) is None,
        },
{
    let (num_bits, p1) = match read_u64(bytes, pos) {
        Some(x) => x,
        None => {
            return None;
        },
    };
    let (num_hashes, p2) = match read_u32(bytes, p1) {
        Some(x) => x,
        None => {
            return None;
        },
    };
    if !(1 <= num_bits && num_bits <= MAX_BLOOM_BITS && 1 <= num_hashes && num_hashes <= 64) {
        return None;
    }
    let cnt = ((num_bits + 7) / 8) as usize;
    let (bits, p3) = match read_bytes(bytes, p2, cnt) {
        Some(x) => x,
        None => {
            return None;
        },
    };
    Some((BloomFilter { bits, num_bits, num_hashes }, p3))
}

/// Read one agent-info record.
fn read_agent(bytes: &[u8], pos: usize) -> (r: Option<(AgentInfo, usize)>)
    ensures
        match r {
            Some((v, np)) => sp_agent(bytes@, pos as int) == Some((v, np as int)),
            None => sp_agent(bytes@, pos as int) is None,
        },
{
    let (agent, p1) = match read_u64(bytes, pos) {
        Some(x) => x,
        None => {
            return None;
        },
    };
    let (space, p2) = match read_u64(bytes, p1) {
        Some(x) => x,
        None => {
            return None;
        },
    };
    let (center, p3) = match read_u32(bytes, p2) {
        Some(x) => x,
        None => {
            return None;
        },
    };
    let (half_length, p4) = match read_u32(bytes, p3) {
        Some(x) => x,
        None => {
            return None;
        },
    };
    let (signed_at, p5) = match read_u64(bytes, p4) {
        Some(x) => x,
        None => {
            return None;
        },
    };
    let (expires_at, p6) = match read_u64(bytes, p5) {
        Some(x) => x,
        None => {
            return None;
        },
    };
    let (addr, p7) = match read_u64(bytes, p6) {
        Some(x) => x,
        None => {
            return None;
        },
    };
    let (signature, p8) = match read_u64(bytes, p7) {
        Some(x) => x,
        None => {
            return None;
        },
    };
    Some(
        (
            AgentInfo {
                agent,
                space,
                storage_arc: crate::arc::DhtArc { center, half_length },
                signed_at,
                expires_at,
                addr,
                signature,
            },
            p8,
        ),
    )
}

/// Read `n` agent-info records.
fn read_agents(bytes: &[u8], pos: usize, n: u64) -> (r: Option<(Vec<AgentInfo>, usize)>)
    ensures
        match r {
            Some((v, np)) => sp_agent_items(bytes@, pos as int, n as nat) == Some(
                (v@, np as int),
            ),
            None => sp_agent_items(bytes@, pos as int, n as nat) is None,
        },
{
    let mut out: Vec<AgentInfo> = Vec::new();
    let mut p = pos;
    let mut i: u64 = 0;
    while i < n
        invariant
            0 <= i <= n,
            sp_agent_items(bytes@, pos as int, n as nat) == (match sp_agent_items(
                bytes@,
                p as int,
                (n - i) as nat,
            ) {
                Some((s, np)) => Some((out@ + s, np)),
                None => None::<(Seq<AgentInfo>, int)>,
            }),
        decreases n - i,
    {
        let (a, p2) = match read_agent(bytes, p) {
            Some(x) => x,
            None => {
                return None;
            },
        };
        let ghost prev = out@;
        out.push(a);
        proof {
            if sp_agent_items(bytes@, p2 as int, (n - i - 1) as nat) is Some {
                let (s, np) = sp_agent_items(bytes@, p2 as int, (n - i - 1) as nat)->Some_0;
                assert(prev + (seq![a] + s) =~= out@ + s);
            }
        }
        p = p2;
        i += 1;
    }
    proof {
        assert(sp_agent_items(bytes@, p as int, 0) == Some((Seq::<AgentInfo>::empty(), p as int)));
        assert(out@ + Seq::<AgentInfo>::empty() =~= out@);
    }
    Some((out, p))
}

/// The spec form of a list of pushed ops.
pub open spec fn ops_form(v: Seq<(u64, Vec<u8>)>) -> Seq<(u64, Seq<u8>)> {
    Seq::new(v.len(), |i: int| (v[i].0, v[i].1@))
}

/// Read one pushed op.
fn read_op_item(bytes: &[u8], pos: usize) -> (r: Option<((u64, Vec<u8>), usize)>)
    ensures
        match r {
            Some((v, np)) => sp_op_item(bytes@, pos as int) == Some(((v.0, v.1@), np as int)),
            None => sp_op_item(bytes@, pos as int) is None,
        },
{
    let (hash, p1) = match read_u64(bytes, pos) {
        Some(x) => x,
        None => {
            return None;
        },
    };
    let (len, p2) = match read_u64(bytes, p1) {
        Some(x) => x,
        None => {
            return None;
        },
    };
    if len > bytes.len() as u64 {
        return None;
    }
    let (payload, p3) = match read_bytes(bytes, p2, len as usize) {
        Some(x) => x,
        None => {
            return None;
        },
    };
    Some(((hash, payload), p3))
}

/// Read `n` pushed ops.
fn read_op_items(bytes: &[u8], pos: usize, n: u64) -> (r: Option<(Vec<(u64, Vec<u8>)>, usize)>)
    ensures
        match r {
            Some((v, np)) => sp_op_items(bytes@, pos as int, n as nat) == Some(
                (ops_form(v@), np as int),
            ),
            None => sp_op_items(bytes@, pos as int, n as nat) is None,
        },
{
    let mut out: Vec<(u64, Vec<u8>)> = Vec::new();
    let mut p = pos;
    let mut i: u64 = 0;
    while i < n
        invariant
            0 <= i <= n,
            sp_op_items(bytes@, pos as int, n as nat) == (match sp_op_items(
                bytes@,
                p as int,
                (n - i) as nat,
            ) {
                Some((s, np)) => Some((ops_form(out@) + s, np)),
                None => None::<(Seq<(u64, Seq<u8>)>, int)>,
            }),
        decreases n - i,
    {
        let (o, p2) = match read_op_item(bytes, p) {
            Some(x) => x,
            None => {
                return None;
            },
        };
        let ghost prev = out@;
        out.push(o);
        proof {
            if sp_op_items(bytes@, p2 as int, (n - i - 1) as nat) is Some {
                let (s, np) = sp_op_items(bytes@, p2 as int, (n - i - 1) as nat)->Some_0;
                assert(ops_form(prev) + (seq![(o.0, o.1@)] + s) =~= ops_form(out@) + s);
            }
        }
        p = p2;
        i += 1;
    }
    proof {
        assert(sp_op_items(bytes@, p as int, 0) == Some(
            (Seq::<(u64, Seq<u8>)>::empty(), p as int),
        ));
        assert(ops_form(out@) + Seq::<(u64, Seq<u8>)>::empty() =~= ops_form(out@));
    }
    Some((out, p))
}

/// Decode one message. Succeeds exactly when the specification parser
/// reads one whole message from the bytes, and returns exactly the
/// message it reads; any bloom filter inside is well-formed.
pub fn decode(bytes: &[u8]) -> (r: Result<ShardedGossipWire, GossipError>)
    ensures
        match r {
            Ok(m) => spec_decode(bytes@) == Some(m.form()) && wire_blooms_wf(m),
            Err(e) => spec_decode(bytes@) is None && e == GossipError::BadWireData,
        },
{
    let (tag, p0) = match read_u8(bytes, 0) {
        Some(x) => x,
        None => {
            return Err(GossipError::BadWireData);
        },
    };
    if tag == 1 {
        let (intervals, p1) = match read_intervals(bytes, p0) {
            Some(x) => x,
            None => {
                return Err(GossipError::BadWireData);
            },
        };
        let (initiator_agent, p2) = match read_u64(bytes, p1) {
            Some(x) => x,
            None => {
                return Err(GossipError::BadWireData);
            },
        };
        let (started_at, p3) = match read_u64(bytes, p2) {
            Some(x) => x,
            None => {
                return Err(GossipError::BadWireData);
            },
        };
        let (agent_bloom, p4) = match read_bloom(bytes, p3) {
            Some(x) => x,
            None => {
                return Err(GossipError::BadWireData);
            },
        };
        let (ops_bloom, p5) = match read_bloom(bytes, p4) {
            Some(x) => x,
            None => {
                return Err(GossipError::BadWireData);
            },
        };
        if p5 != bytes.len() {
            return Err(GossipError::BadWireData);
        }
        Ok(
            ShardedGossipWire::Initiate {
                intervals,
                initiator_agent,
                started_at,
                agent_bloom,
                ops_bloom,
            },
        )
    } else if tag == 2 {
        let (intervals, p1) = match read_intervals(bytes, p0) {
            Some(x) => x,
            None => {
                return Err(GossipError::BadWireData);
            },
        };
        let (common_digest, p2) = match read_u64(bytes, p1) {
            Some(x) => x,
            None => {
                return Err(GossipError::BadWireData);
            },
        };
        let (agent_bloom, p3) = match read_bloom(bytes, p2) {
            Some(x) => x,
            None => {
                return Err(GossipError::BadWireData);
            },
        };
        let (ops_bloom, p4) = match read_bloom(bytes, p3) {
            Some(x) => x,
            None => {
                return Err(GossipError::BadWireData);
            },
        };
        if p4 != bytes.len() {
            return Err(GossipError::BadWireData);
        }
        Ok(ShardedGossipWire::Accept { intervals, common_digest, agent_bloom, ops_bloom })
    } else if tag == 3 {
        let (bloom, p1) = match read_bloom(bytes, p0) {
            Some(x) => x,
            None => {
                return Err(GossipError::BadWireData);
            },
        };
        if p1 != bytes.len() {
            return Err(GossipError::BadWireData);
        }
        Ok(ShardedGossipWire::Agents { bloom })
    } else if tag == 4 {
        let (n, p1) = match read_u64(bytes, p0) {
            Some(x) => x,
            None => {
                return Err(GossipError::BadWireData);
            },
        };
        let (agents, p2) = match read_agents(bytes, p1, n) {
            Some(x) => x,
            None => {
                return Err(GossipError::BadWireData);
            },
        };
        if p2 != bytes.len() {
            return Err(GossipError::BadWireData);
        }
        Ok(ShardedGossipWire::MissingAgents { agents })
    } else if tag == 5 {
        if p0 != bytes.len() {
            return Err(GossipError::BadWireData);
        }
        Ok(ShardedGossipWire::NoAgents)
    } else if tag == 6 {
        let (bloom, p1) = match read_bloom(bytes, p0) {
            Some(x) => x,
            None => {
                return Err(GossipError::BadWireData);
            },
        };
        if p1 != bytes.len() {
            return Err(GossipError::BadWireData);
        }
        Ok(ShardedGossipWire::Ops { bloom })
    } else if tag == 7 {
        let (n, p1) = match read_u64(bytes, p0) {
            Some(x) => x,
            None => {
                return Err(GossipError::BadWireData);
            },
        };
        let (ops, p2) = match read_op_items(bytes, p1, n) {
            Some(x) => x,
            None => {
                return Err(GossipError::BadWireData);
            },
        };
        let (finished, p3) = match read_u8(bytes, p2) {
            Some(x) => x,
            None => {
                return Err(GossipError::BadWireData);
            },
        };
        if finished > 1 {
            return Err(GossipError::BadWireData);
        }
        if p3 != bytes.len() {
            return Err(GossipError::BadWireData);
        }
        Ok(ShardedGossipWire::MissingOps { ops, finished: finished == 1 })
    } else {
        Err(GossipError::BadWireData)
    }
}



// ---------------------------------------------------------------------
// Exec writers
// ---------------------------------------------------------------------

/// Append a `u32` in little-endian order.
fn push_u32_le(buf: &mut Vec<u8>, v: u32)
    ensures
        final(buf)@ == old(buf)@ + u32_le_bytes(v),
{
    let ghost prev = buf@;
    buf.push((v % 256) as u8);
    buf.push(((v / 0x100) % 256) as u8);
    buf.push(((v / 0x1_0000) % 256) as u8);
    buf.push(((v / 0x100_0000) % 256) as u8);
    proof {
        assert(buf@ =~= prev + u32_le_bytes(v));
    }
}

/// Append raw bytes.
pub fn push_bytes(buf: &mut Vec<u8>, v: &[u8])
    ensures
        final(buf)@ == old(buf)@ + v@,
{
    let ghost prev = buf@;
    let n = v.len();
    let mut i: usize = 0;
    while i < n
        invariant
            0 <= i <= n,
            n == v@.len(),
            buf@ == prev + v@.take(i as int),
        decreases n - i,
    {
        buf.push(v[i]);
        proof {
            assert(buf@ =~= prev + v@.take(i + 1 as int));
        }
        i += 1;
    }
    proof {
        assert(v@.take(n as int) =~= v@);
    }
}

/// Append one interval.
fn push_interval(buf: &mut Vec<u8>, iv: &ArcInterval)
    ensures
        final(buf)@ == old(buf)@ + enc_interval(*iv),
{
    let ghost prev = buf@;
    match iv {
        ArcInterval::Empty => {
            buf.push(0);
            proof {
                assert(buf@ =~= prev + enc_interval(*iv));
            }
        },
        ArcInterval::Full => {
            buf.push(1);
            proof {
                assert(buf@ =~= prev + enc_interval(*iv));
            }
        },
        ArcInterval::Bounded { start, end } => {
            buf.push(2);
            push_u32_le(buf, *start);
            push_u32_le(buf, *end);
            proof {
                assert(buf@ =~= prev + enc_interval(*iv));
            }
        },
    }
}

/// Append a list of intervals, without its count.
fn push_interval_items(buf: &mut Vec<u8>, v: &Vec<ArcInterval>)
    ensures
        final(buf)@ == old(buf)@ + enc_interval_items(v@),
{
    let ghost prev = buf@;
    let n = v.len();
    let mut i: usize = 0;
    while i < n
        invariant
            0 <= i <= n,
            n == v@.len(),
            buf@ == prev + enc_interval_items(v@.take(i as int)),
        decreases n - i,
    {
        push_interval(buf, &v[i]);
        proof {
            assert(v@.take(i + 1 as int).drop_last() =~= v@.take(i as int));
            assert(v@.take(i + 1 as int).last() == v@[i as int]);
            assert(buf@ =~= prev + enc_interval_items(v@.take(i + 1 as int)));
        }
        i += 1;
    }
    proof {
        assert(v@.take(n as int) =~= v@);
    }
}

/// Append a counted list of intervals.
fn push_intervals(buf: &mut Vec<u8>, v: &Vec<ArcInterval>)
    ensures
        final(buf)@ == old(buf)@ + enc_intervals(v@),
{
    let ghost prev = buf@;
    push_u64_le(buf, v.len() as u64);
    push_interval_items(buf, v);
    proof {
        assert(buf@ =~= prev + enc_intervals(v@));
    }
}

/// Append a bloom filter.
fn push_bloom(buf: &mut Vec<u8>, b: &BloomFilter)
    ensures
        final(buf)@ == old(buf)@ + enc_bloom(b.form()),
{
    let ghost prev = buf@;
    push_u64_le(buf, b.num_bits);
    push_u32_le(buf, b.num_hashes);
    push_bytes(buf, b.bits.as_slice());
    proof {
        assert(buf@ =~= prev + enc_bloom(b.form()));
    }
}

/// Append one agent-info record.
#[verifier::rlimit(100)]
fn push_agent(buf: &mut Vec<u8>, a: &AgentInfo)
    ensures
        final(buf)@ == old(buf)@ + enc_agent(*a),
{
    let ghost prev = buf@;
    push_u64_le(buf, a.agent);
    push_u64_le(buf, a.space);
    push_u32_le(buf, a.storage_arc.center);
    push_u32_le(buf, a.storage_arc.half_length);
    push_u64_le(buf, a.signed_at);
    push_u64_le(buf, a.expires_at);
    push_u64_le(buf, a.addr);
    push_u64_le(buf, a.signature);
    proof {
        assert(buf@ =~= prev + enc_agent(*a));
    }
}

/// Append a list of agent-info records, without its count.
fn push_agent_items(buf: &mut Vec<u8>, v: &Vec<AgentInfo>)
    ensures
        final(buf)@ == old(buf)@ + enc_agent_items(v@),
{
    let ghost prev = buf@;
    let n = v.len();
    let mut i: usize = 0;
    while i < n
        invariant
            0 <= i <= n,
            n == v@.len(),
            buf@ == prev + enc_agent_items(v@.take(i as int)),
        decreases n - i,
    {
        push_agent(buf, &v[i]);
        proof {
            assert(v@.take(i + 1 as int).drop_last() =~= v@.take(i as int));
            assert(v@.take(i + 1 as int).last() == v@[i as int]);
            assert(buf@ =~= prev + enc_agent_items(v@.take(i + 1 as int)));
        }
        i += 1;
    }
    proof {
        assert(v@.take(n as int) =~= v@);
    }
}

/// Append one pushed op.
fn push_op_item(buf: &mut Vec<u8>, o: &(u64, Vec<u8>))
    ensures
        final(buf)@ == old(buf)@ + enc_op_item((o.0, o.1@)),
{
    let ghost prev = buf@;
    push_u64_le(buf, o.0);
    push_u64_le(buf, o.1.len() as u64);
    push_bytes(buf, o.1.as_slice());
    proof {
        assert(buf@ =~= prev + enc_op_item((o.0, o.1@)));
    }
}

/// Append a list of pushed ops, without its count.
fn push_op_items(buf: &mut Vec<u8>, v: &Vec<(u64, Vec<u8>)>)
    ensures
        final(buf)@ == old(buf)@ + enc_op_items(ops_form(v@)),
{
    let ghost prev = buf@;
    let n = v.len();
    let mut i: usize = 0;
    while i < n
        invariant
            0 <= i <= n,
            n == v@.len(),
            buf@ == prev + enc_op_items(ops_form(v@.take(i as int))),
        decreases n - i,
    {
        push_op_item(buf, &v[i]);
        proof {
            assert(ops_form(v@.take(i + 1 as int)).drop_last() =~= ops_form(v@.take(i as int)));
            assert(ops_form(v@.take(i + 1 as int)).last() == (v@[i as int].0, v@[i as int].1@));
            assert(ops_form(v@.take(i + 1 as int)).len() == i + 1);
            assert(buf@ =~= prev + enc_op_items(ops_form(v@.take(i + 1 as int))));
        }
        i += 1;
    }
    proof {
        assert(ops_form(v@.take(n as int)) =~= ops_form(v@));
    }
}

/// Encode one message to its exact byte form.
pub fn encode(msg: &ShardedGossipWire) -> (r: Vec<u8>)
    ensures
        r@ == spec_encode(msg.form()),
{
    let mut buf: Vec<u8> = Vec::new();
    match msg {
        ShardedGossipWire::Initiate {
            intervals,
            initiator_agent,
            started_at,
            agent_bloom,
            ops_bloom,
        } => {
            buf.push(1);
            push_intervals(&mut buf, intervals);
            push_u64_le(&mut buf, *initiator_agent);
            push_u64_le(&mut buf, *started_at);
            push_bloom(&mut buf, agent_bloom);
            push_bloom(&mut buf, ops_bloom);
            proof {
                assert(buf@ =~= spec_encode(msg.form()));
            }
        },
        ShardedGossipWire::Accept { intervals, common_digest, agent_bloom, ops_bloom } => {
            buf.push(2);
            push_intervals(&mut buf, intervals);
            push_u64_le(&mut buf, *common_digest);
            push_bloom(&mut buf, agent_bloom);
            push_bloom(&mut buf, ops_bloom);
            proof {
                assert(buf@ =~= spec_encode(msg.form()));
            }
        },
        ShardedGossipWire::Agents { bloom } => {
            buf.push(3);
            push_bloom(&mut buf, bloom);
            proof {
                assert(buf@ =~= spec_encode(msg.form()));
            }
        },
        ShardedGossipWire::MissingAgents { agents } => {
            buf.push(4);
            push_u64_le(&mut buf, agents.len() as u64);
            push_agent_items(&mut buf, agents);
            proof {
                assert(buf@ =~= spec_encode(msg.form()));
            }
        },
        ShardedGossipWire::NoAgents => {
            buf.push(5);
            proof {
                assert(buf@ =~= spec_encode(msg.form()));
            }
        },
        ShardedGossipWire::Ops { bloom } => {
            buf.push(6);
            push_bloom(&mut buf, bloom);
            proof {
                assert(buf@ =~= spec_encode(msg.form()));
            }
        },
        ShardedGossipWire::MissingOps { ops, finished } => {
            buf.push(7);
            push_u64_le(&mut buf, ops.len() as u64);
            push_op_items(&mut buf, ops);
            if *finished {
                buf.push(1);
            } else {
                buf.push(0);
            }
            proof {
                assert(ops_form(ops@).len() == ops@.len());
                assert(buf@ =~= spec_encode(msg.form()));
            }
        },
    }
    buf
}

/// Compute the digest of an arc set's intervals.
pub fn arc_set_digest(v: &Vec<ArcInterval>) -> (r: u64)
    ensures
        r == spec_arc_digest(v@),
{
    let mut buf: Vec<u8> = Vec::new();
    push_interval_items(&mut buf, v);
    content_hash(buf.as_slice())
}



// ---------------------------------------------------------------------
// Round trip: parsing an encoding gives back exactly what was encoded.
// ---------------------------------------------------------------------

/// A form the codec can carry faithfully: well-formed filters and list
/// lengths that fit their length prefixes.
pub open spec fn form_wf(f: WireForm) -> bool {
    match f {
        WireForm::Initiate { intervals, agent_bloom, ops_bloom, .. } => intervals.len()
            <= u64::MAX && agent_bloom.wf() && ops_bloom.wf(),
        WireForm::Accept { intervals, agent_bloom, ops_bloom, .. } => intervals.len() <= u64::MAX
            && agent_bloom.wf() && ops_bloom.wf(),
        WireForm::Agents { bloom } => bloom.wf(),
        WireForm::MissingAgents { agents } => agents.len() <= u64::MAX,
        WireForm::NoAgents => true,
        WireForm::Ops { bloom } => bloom.wf(),
        WireForm::MissingOps { ops, .. } => ops.len() <= u64::MAX && (forall|k: int|
            0 <= k < ops.len() ==> (#[trigger] ops[k]).1.len() <= u64::MAX),
    }
}

proof fn lemma_u64_le_roundtrip(v: u64)
    ensures
        u64_from_le(u64_le_bytes(v)) == v,
{
    assert((v % 256) + ((v / 0x100) % 256) * 0x100 + ((v / 0x1_0000) % 256) * 0x1_0000 + ((v
        / 0x100_0000) % 256) * 0x100_0000 + ((v / 0x1_0000_0000) % 256) * 0x1_0000_0000 + ((v
        / 0x100_0000_0000) % 256) * 0x100_0000_0000 + ((v / 0x1_0000_0000_0000) % 256)
        * 0x1_0000_0000_0000 + ((v / 0x100_0000_0000_0000) % 256) * 0x100_0000_0000_0000
        == v) by (bit_vector);
}

proof fn lemma_u32_roundtrip_here(v: u32)
    ensures
        u32_from_le(u32_le_bytes(v)) == v,
{
    assert((v % 256) + ((v / 0x100) % 256) * 0x100 + ((v / 0x1_0000) % 256) * 0x1_0000 + ((v
        / 0x100_0000) % 256) * 0x100_0000 == v) by (bit_vector);
}

proof fn lemma_parse_u8(b: Seq<u8>, pos: int, x: u8)
    requires
        0 <= pos,
        pos + 1 <= b.len(),
        b[pos] == x,
    ensures
        sp_u8(b, pos) == Some((x, pos + 1)),
{
}

proof fn lemma_parse_u32(b: Seq<u8>, pos: int, v: u32)
    requires
        0 <= pos,
        pos + 4 <= b.len(),
        b.subrange(pos, pos + 4) == u32_le_bytes(v),
    ensures
        sp_u32(b, pos) == Some((v, pos + 4)),
{
    lemma_u32_roundtrip_here(v);
}

proof fn lemma_parse_u64(b: Seq<u8>, pos: int, v: u64)
    requires
        0 <= pos,
        pos + 8 <= b.len(),
        b.subrange(pos, pos + 8) == u64_le_bytes(v),
    ensures
        sp_u64(b, pos) == Some((v, pos + 8)),
{
    lemma_u64_le_roundtrip(v);
}

proof fn lemma_prefix_subrange(b: Seq<u8>, c: int, a2: int, c2: int)
    requires
        0 <= a2 <= c2 <= c <= b.len(),
    ensures
        b.subrange(a2, c2) == b.subrange(0, c).subrange(a2, c2),
{
    assert(b.subrange(a2, c2) =~= b.subrange(0, c).subrange(a2, c2));
}

proof fn lemma_concat_parts(x: Seq<u8>, y: Seq<u8>)
    ensures
        (x + y).subrange(0, x.len() as int) == x,
        (x + y).subrange(x.len() as int, (x + y).len() as int) == y,
{
    assert((x + y).subrange(0, x.len() as int) =~= x);
    assert((x + y).subrange(x.len() as int, (x + y).len() as int) =~= y);
}

proof fn lemma_subrange_split(b: Seq<u8>, pos: int, a: int, c: int, whole: Seq<u8>)
    requires
        0 <= pos,
        0 <= a <= c <= whole.len(),
        pos + whole.len() <= b.len(),
        b.subrange(pos, pos + whole.len()) == whole,
    ensures
        b.subrange(pos + a, pos + c) == whole.subrange(a, c),
{
    assert forall|i: int|
        0 <= i < c - a implies b.subrange(pos + a, pos + c)[i] == whole.subrange(a, c)[i] by {
        assert(b.subrange(pos, pos + whole.len())[a + i] == whole[a + i]);
    }
    assert(b.subrange(pos + a, pos + c) =~= whole.subrange(a, c));
}

proof fn lemma_enc_interval_items_first(s: Seq<ArcInterval>)
    requires
        s.len() > 0,
    ensures
        enc_interval_items(s) == enc_interval(s[0]) + enc_interval_items(s.drop_first()),
    decreases s.len(),
{
    if s.len() == 1 {
        assert(s.drop_last() =~= Seq::<ArcInterval>::empty());
        assert(s.drop_first() =~= Seq::<ArcInterval>::empty());
        assert(enc_interval_items(s) =~= enc_interval(s[0]) + enc_interval_items(s.drop_first()));
    } else {
        lemma_enc_interval_items_first(s.drop_last());
        assert(s.drop_last().drop_first() =~= s.drop_first().drop_last());
        assert(s.drop_last()[0] == s[0]);
        assert(s.drop_first().last() == s.last());
        assert(enc_interval_items(s) == enc_interval_items(s.drop_last()) + enc_interval(s.last()));
        assert(enc_interval_items(s.drop_first()) == enc_interval_items(s.drop_first().drop_last())
            + enc_interval(s.drop_first().last()));
        assert(enc_interval_items(s) =~= enc_interval(s[0]) + enc_interval_items(s.drop_first()));
    }
}

proof fn lemma_parse_interval(b: Seq<u8>, pos: int, iv: ArcInterval)
    requires
        0 <= pos,
        pos + enc_interval(iv).len() <= b.len(),
        b.subrange(pos, pos + enc_interval(iv).len()) == enc_interval(iv),
    ensures
        sp_interval(b, pos) == Some((iv, pos + enc_interval(iv).len())),
{
    let e = enc_interval(iv);
    match iv {
        ArcInterval::Empty => {
            assert(b[pos] == e[0]);
            lemma_parse_u8(b, pos, 0);
        },
        ArcInterval::Full => {
            assert(b[pos] == e[0]);
            lemma_parse_u8(b, pos, 1);
        },
        ArcInterval::Bounded { start, end } => {
            assert(b[pos] == e[0]);
            lemma_parse_u8(b, pos, 2);
            lemma_subrange_split(b, pos, 1, 5, e);
            assert(e.subrange(1, 5) =~= u32_le_bytes(start));
            lemma_parse_u32(b, pos + 1, start);
            lemma_subrange_split(b, pos, 5, 9, e);
            assert(e.subrange(5, 9) =~= u32_le_bytes(end));
            lemma_parse_u32(b, pos + 5, end);
        },
    }
}

#[verifier::rlimit(100)]
proof fn lemma_parse_interval_items(b: Seq<u8>, pos: int, s: Seq<ArcInterval>)
    requires
        0 <= pos,
        pos + enc_interval_items(s).len() <= b.len(),
        b.subrange(pos, pos + enc_interval_items(s).len()) == enc_interval_items(s),
    ensures
        sp_interval_items(b, pos, s.len()) == Some((s, pos + enc_interval_items(s).len())),
    decreases s.len(),
{
    if s.len() == 0 {
        assert(Seq::<ArcInterval>::empty() =~= s);
    } else {
        lemma_enc_interval_items_first(s);
        let whole = enc_interval_items(s);
        let e0 = enc_interval(s[0]);
        let rest = enc_interval_items(s.drop_first());
        lemma_concat_parts(e0, rest);
        lemma_subrange_split(b, pos, 0, e0.len() as int, whole);
        lemma_parse_interval(b, pos, s[0]);
        lemma_subrange_split(b, pos, e0.len() as int, whole.len() as int, whole);
        lemma_parse_interval_items(b, pos + e0.len() as int, s.drop_first());
        assert(seq![s[0]] + s.drop_first() =~= s);
    }
}

proof fn lemma_parse_intervals(b: Seq<u8>, pos: int, s: Seq<ArcInterval>)
    requires
        0 <= pos,
        s.len() <= u64::MAX,
        pos + enc_intervals(s).len() <= b.len(),
        b.subrange(pos, pos + enc_intervals(s).len()) == enc_intervals(s),
    ensures
        sp_intervals(b, pos) == Some((s, pos + enc_intervals(s).len())),
{
    let whole = enc_intervals(s);
    let items = enc_interval_items(s);
    lemma_subrange_split(b, pos, 0, 8, whole);
    assert(whole.subrange(0, 8) =~= u64_le_bytes(s.len() as u64));
    lemma_parse_u64(b, pos, s.len() as u64);
    lemma_subrange_split(b, pos, 8, whole.len() as int, whole);
    assert(whole.subrange(8, whole.len() as int) =~= items);
    lemma_parse_interval_items(b, pos + 8, s);
}

proof fn lemma_parse_bloom(b: Seq<u8>, pos: int, f: BloomForm)
    requires
        0 <= pos,
        f.wf(),
        pos + enc_bloom(f).len() <= b.len(),
        b.subrange(pos, pos + enc_bloom(f).len()) == enc_bloom(f),
    ensures
        sp_bloom(b, pos) == Some((f, pos + enc_bloom(f).len())),
{
    let whole = enc_bloom(f);
    lemma_subrange_split(b, pos, 0, 8, whole);
    assert(whole.subrange(0, 8) =~= u64_le_bytes(f.num_bits));
    lemma_parse_u64(b, pos, f.num_bits);
    lemma_subrange_split(b, pos, 8, 12, whole);
    assert(whole.subrange(8, 12) =~= u32_le_bytes(f.num_hashes));
    lemma_parse_u32(b, pos + 8, f.num_hashes);
    lemma_subrange_split(b, pos, 12, whole.len() as int, whole);
    assert(whole.subrange(12, whole.len() as int) =~= f.bits);
}

#[verifier::rlimit(100)]
proof fn lemma_agent_layout(a: AgentInfo)
    ensures
        ({
            let whole = enc_agent(a);
            &&& whole.len() == 56
            &&& whole.subrange(0, 8) == u64_le_bytes(a.agent)
            &&& whole.subrange(8, 16) == u64_le_bytes(a.space)
            &&& whole.subrange(16, 20) == u32_le_bytes(a.storage_arc.center)
            &&& whole.subrange(20, 24) == u32_le_bytes(a.storage_arc.half_length)
            &&& whole.subrange(24, 32) == u64_le_bytes(a.signed_at)
            &&& whole.subrange(32, 40) == u64_le_bytes(a.expires_at)
            &&& whole.subrange(40, 48) == u64_le_bytes(a.addr)
            &&& whole.subrange(48, 56) == u64_le_bytes(a.signature)
        }),
{
    let p1 = u64_le_bytes(a.agent);
    let p2 = u64_le_bytes(a.space);
    let p3 = u32_le_bytes(a.storage_arc.center);
    let p4 = u32_le_bytes(a.storage_arc.half_length);
    let p5 = u64_le_bytes(a.signed_at);
    let p6 = u64_le_bytes(a.expires_at);
    let p7 = u64_le_bytes(a.addr);
    let p8 = u64_le_bytes(a.signature);
    let q1 = p1;
    let q2 = q1 + p2;
    let q3 = q2 + p3;
    let q4 = q3 + p4;
    let q5 = q4 + p5;
    let q6 = q5 + p6;
    let q7 = q6 + p7;
    let whole = enc_agent(a);
    lemma_concat_parts(q7, p8);
    lemma_concat_parts(q6, p7);
    lemma_prefix_subrange(whole, 48, 40, 48);
    lemma_concat_parts(q5, p6);
    lemma_prefix_subrange(whole, 48, 32, 40);
    lemma_prefix_subrange(q7, 40, 32, 40);
    lemma_concat_parts(q4, p5);
    lemma_prefix_subrange(whole, 48, 24, 32);
    lemma_prefix_subrange(q7, 40, 24, 32);
    lemma_prefix_subrange(q6, 32, 24, 32);
    lemma_concat_parts(q3, p4);
    lemma_prefix_subrange(whole, 48, 20, 24);
    lemma_prefix_subrange(q7, 40, 20, 24);
    lemma_prefix_subrange(q6, 32, 20, 24);
    lemma_prefix_subrange(q5, 24, 20, 24);
    lemma_concat_parts(q2, p3);
    lemma_prefix_subrange(whole, 48, 16, 20);
    lemma_prefix_subrange(q7, 40, 16, 20);
    lemma_prefix_subrange(q6, 32, 16, 20);
    lemma_prefix_subrange(q5, 24, 16, 20);
    lemma_prefix_subrange(q4, 20, 16, 20);
    lemma_concat_parts(q1, p2);
    lemma_prefix_subrange(whole, 48, 8, 16);
    lemma_prefix_subrange(q7, 40, 8, 16);
    lemma_prefix_subrange(q6, 32, 8, 16);
    lemma_prefix_subrange(q5, 24, 8, 16);
    lemma_prefix_subrange(q4, 20, 8, 16);
    lemma_prefix_subrange(q3, 16, 8, 16);
    lemma_prefix_subrange(whole, 48, 0, 8);
    lemma_prefix_subrange(q7, 40, 0, 8);
    lemma_prefix_subrange(q6, 32, 0, 8);
    lemma_prefix_subrange(q5, 24, 0, 8);
    lemma_prefix_subrange(q4, 20, 0, 8);
    lemma_prefix_subrange(q3, 16, 0, 8);
    lemma_prefix_subrange(q2, 8, 0, 8);
}

#[verifier::rlimit(100)]
proof fn lemma_parse_agent(b: Seq<u8>, pos: int, a: AgentInfo)
    requires
        0 <= pos,
        pos + enc_agent(a).len() <= b.len(),
        b.subrange(pos, pos + enc_agent(a).len()) == enc_agent(a),
    ensures
        sp_agent(b, pos) == Some((a, pos + enc_agent(a).len())),
{
    let whole = enc_agent(a);
    lemma_agent_layout(a);
    lemma_subrange_split(b, pos, 0, 8, whole);
    lemma_parse_u64(b, pos, a.agent);
    lemma_subrange_split(b, pos, 8, 16, whole);
    lemma_parse_u64(b, pos + 8, a.space);
    lemma_subrange_split(b, pos, 16, 20, whole);
    lemma_parse_u32(b, pos + 16, a.storage_arc.center);
    lemma_subrange_split(b, pos, 20, 24, whole);
    lemma_parse_u32(b, pos + 20, a.storage_arc.half_length);
    lemma_subrange_split(b, pos, 24, 32, whole);
    lemma_parse_u64(b, pos + 24, a.signed_at);
    lemma_subrange_split(b, pos, 32, 40, whole);
    lemma_parse_u64(b, pos + 32, a.expires_at);
    lemma_subrange_split(b, pos, 40, 48, whole);
    lemma_parse_u64(b, pos + 40, a.addr);
    lemma_subrange_split(b, pos, 48, 56, whole);
    lemma_parse_u64(b, pos + 48, a.signature);
    assert(crate::arc::DhtArc {
        center: a.storage_arc.center,
        half_length: a.storage_arc.half_length,
    } == a.storage_arc);
}

proof fn lemma_enc_agent_items_first(s: Seq<AgentInfo>)
    requires
        s.len() > 0,
    ensures
        enc_agent_items(s) == enc_agent(s[0]) + enc_agent_items(s.drop_first()),
    decreases s.len(),
{
    if s.len() == 1 {
        assert(s.drop_last() =~= Seq::<AgentInfo>::empty());
        assert(s.drop_first() =~= Seq::<AgentInfo>::empty());
        assert(enc_agent_items(s) =~= enc_agent(s[0]) + enc_agent_items(s.drop_first()));
    } else {
        lemma_enc_agent_items_first(s.drop_last());
        assert(s.drop_last().drop_first() =~= s.drop_first().drop_last());
        assert(s.drop_last()[0] == s[0]);
        assert(s.drop_first().last() == s.last());
        assert(enc_agent_items(s) =~= enc_agent(s[0]) + enc_agent_items(s.drop_first()));
    }
}

#[verifier::rlimit(100)]
#[verifier::spinoff_prover]
proof fn lemma_parse_agent_items(b: Seq<u8>, pos: int, s: Seq<AgentInfo>)
    requires
        0 <= pos,
        pos + enc_agent_items(s).len() <= b.len(),
        b.subrange(pos, pos + enc_agent_items(s).len()) == enc_agent_items(s),
    ensures
        sp_agent_items(b, pos, s.len()) == Some((s, pos + enc_agent_items(s).len())),
    decreases s.len(),
{
    if s.len() == 0 {
        assert(Seq::<AgentInfo>::empty() =~= s);
    } else {
        lemma_enc_agent_items_first(s);
        let whole = enc_agent_items(s);
        let e0 = enc_agent(s[0]);
        let rest = enc_agent_items(s.drop_first());
        lemma_concat_parts(e0, rest);
        lemma_subrange_split(b, pos, 0, e0.len() as int, whole);
        lemma_parse_agent(b, pos, s[0]);
        lemma_subrange_split(b, pos, e0.len() as int, whole.len() as int, whole);
        lemma_parse_agent_items(b, pos + e0.len() as int, s.drop_first());
        assert(seq![s[0]] + s.drop_first() =~= s);
    }
}

proof fn lemma_parse_op_item(b: Seq<u8>, pos: int, o: (u64, Seq<u8>))
    requires
        0 <= pos,
        o.1.len() <= u64::MAX,
        pos + enc_op_item(o).len() <= b.len(),
        b.subrange(pos, pos + enc_op_item(o).len()) == enc_op_item(o),
    ensures
        sp_op_item(b, pos) == Some((o, pos + enc_op_item(o).len())),
{
    let whole = enc_op_item(o);
    lemma_subrange_split(b, pos, 0, 8, whole);
    assert(whole.subrange(0, 8) =~= u64_le_bytes(o.0));
    lemma_parse_u64(b, pos, o.0);
    lemma_subrange_split(b, pos, 8, 16, whole);
    assert(whole.subrange(8, 16) =~= u64_le_bytes(o.1.len() as u64));
    lemma_parse_u64(b, pos + 8, o.1.len() as u64);
    lemma_subrange_split(b, pos, 16, whole.len() as int, whole);
    assert(whole.subrange(16, whole.len() as int) =~= o.1);
    assert((o.0, o.1) == o);
}

proof fn lemma_enc_op_items_first(s: Seq<(u64, Seq<u8>)>)
    requires
        s.len() > 0,
    ensures
        enc_op_items(s) == enc_op_item(s[0]) + enc_op_items(s.drop_first()),
    decreases s.len(),
{
    if s.len() == 1 {
        assert(s.drop_last() =~= Seq::<(u64, Seq<u8>)>::empty());
        assert(s.drop_first() =~= Seq::<(u64, Seq<u8>)>::empty());
        assert(enc_op_items(s) =~= enc_op_item(s[0]) + enc_op_items(s.drop_first()));
    } else {
        lemma_enc_op_items_first(s.drop_last());
        assert(s.drop_last().drop_first() =~= s.drop_first().drop_last());
        assert(s.drop_last()[0] == s[0]);
        assert(s.drop_first().last() == s.last());
        assert(enc_op_items(s) =~= enc_op_item(s[0]) + enc_op_items(s.drop_first()));
    }
}

#[verifier::rlimit(100)]
proof fn lemma_parse_op_items(b: Seq<u8>, pos: int, s: Seq<(u64, Seq<u8>)>)
    requires
        0 <= pos,
        forall|k: int| 0 <= k < s.len() ==> (#[trigger] s[k]).1.len() <= u64::MAX,
        pos + enc_op_items(s).len() <= b.len(),
        b.subrange(pos, pos + enc_op_items(s).len()) == enc_op_items(s),
    ensures
        sp_op_items(b, pos, s.len()) == Some((s, pos + enc_op_items(s).len())),
    decreases s.len(),
{
    if s.len() == 0 {
        assert(Seq::<(u64, Seq<u8>)>::empty() =~= s);
    } else {
        lemma_enc_op_items_first(s);
        let whole = enc_op_items(s);
        let e0 = enc_op_item(s[0]);
        let rest = enc_op_items(s.drop_first());
        lemma_concat_parts(e0, rest);
        lemma_subrange_split(b, pos, 0, e0.len() as int, whole);
        lemma_parse_op_item(b, pos, s[0]);
        lemma_subrange_split(b, pos, e0.len() as int, whole.len() as int, whole);
        assert(forall|k: int|
            0 <= k < s.drop_first().len() ==> (#[trigger] s.drop_first()[k]).1.len() <= u64::MAX);
        lemma_parse_op_items(b, pos + e0.len() as int, s.drop_first());
        assert(seq![s[0]] + s.drop_first() =~= s);
    }
}

/// Codec round trip: parsing the byte form of any well-formed message
/// gives back exactly that message. Together with the contracts of
/// `encode` and `decode`, whatever one node encodes, another decodes to
/// the same message.
pub proof fn lemma_wire_roundtrip(f: WireForm)
    requires
        form_wf(f),
    ensures
        spec_decode(spec_encode(f)) == Some(f),
{
    match f {
        WireForm::Initiate { intervals, initiator_agent, started_at, agent_bloom, ops_bloom } => {
            lemma_roundtrip_initiate(
                intervals,
                initiator_agent,
                started_at,
                agent_bloom,
                ops_bloom,
            );
        },
        WireForm::Accept { intervals, common_digest, agent_bloom, ops_bloom } => {
            lemma_roundtrip_accept(intervals, common_digest, agent_bloom, ops_bloom);
        },
        WireForm::Agents { bloom } => {
            lemma_roundtrip_agents(bloom);
        },
        WireForm::MissingAgents { agents } => {
            lemma_roundtrip_missing_agents(agents);
        },
        WireForm::NoAgents => {
            let b = spec_encode(f);
            lemma_parse_u8(b, 0, 5);
        },
        WireForm::Ops { bloom } => {
            lemma_roundtrip_ops(bloom);
        },
        WireForm::MissingOps { ops, finished } => {
            lemma_roundtrip_missing_ops(ops, finished);
        },
    }
}

#[verifier::rlimit(100)]
proof fn lemma_roundtrip_agents(bloom: BloomForm)
    requires
        bloom.wf(),
    ensures
        spec_decode(spec_encode(WireForm::Agents { bloom })) == Some(WireForm::Agents { bloom }),
{
    let b = spec_encode(WireForm::Agents { bloom });
    lemma_parse_u8(b, 0, 3);
    assert(b.subrange(1, 1 + enc_bloom(bloom).len() as int) =~= enc_bloom(bloom));
    lemma_parse_bloom(b, 1, bloom);
}

#[verifier::rlimit(100)]
proof fn lemma_roundtrip_ops(bloom: BloomForm)
    requires
        bloom.wf(),
    ensures
        spec_decode(spec_encode(WireForm::Ops { bloom })) == Some(WireForm::Ops { bloom }),
{
    let b = spec_encode(WireForm::Ops { bloom });
    lemma_parse_u8(b, 0, 6);
    assert(b.subrange(1, 1 + enc_bloom(bloom).len() as int) =~= enc_bloom(bloom));
    lemma_parse_bloom(b, 1, bloom);
}

#[verifier::rlimit(100)]
proof fn lemma_missing_agents_layout(agents: Seq<AgentInfo>)
    ensures
        ({
            let b = spec_encode(WireForm::MissingAgents { agents });
            let items = enc_agent_items(agents);
            &&& b.len() == 9 + items.len()
            &&& b[0] == 4u8
            &&& b.subrange(1, 9) == u64_le_bytes(agents.len() as u64)
            &&& b.subrange(9, b.len() as int) == items
        }),
{
    let b = spec_encode(WireForm::MissingAgents { agents });
    let items = enc_agent_items(agents);
    assert(b.subrange(1, 9) =~= u64_le_bytes(agents.len() as u64));
    assert(b.subrange(9, b.len() as int) =~= items);
}

#[verifier::rlimit(100)]
proof fn lemma_roundtrip_missing_agents(agents: Seq<AgentInfo>)
    requires
        agents.len() <= u64::MAX,
    ensures
        spec_decode(spec_encode(WireForm::MissingAgents { agents })) == Some(
            WireForm::MissingAgents { agents },
        ),
{
    let b = spec_encode(WireForm::MissingAgents { agents });
    lemma_missing_agents_layout(agents);
    lemma_parse_u8(b, 0, 4);
    lemma_parse_u64(b, 1, agents.len() as u64);
    lemma_parse_agent_items(b, 9, agents);
}

#[verifier::rlimit(100)]
proof fn lemma_missing_ops_layout(ops: Seq<(u64, Seq<u8>)>, finished: bool)
    ensures
        ({
            let b = spec_encode(WireForm::MissingOps { ops, finished });
            let items = enc_op_items(ops);
            &&& b.len() == 10 + items.len()
            &&& b[0] == 7u8
            &&& b.subrange(1, 9) == u64_le_bytes(ops.len() as u64)
            &&& b.subrange(9, 9 + items.len() as int) == items
            &&& b[9 + items.len() as int] == (if finished {
                1u8
            } else {
                0u8
            })
        }),
{
    let b = spec_encode(WireForm::MissingOps { ops, finished });
    let items = enc_op_items(ops);
    assert(b.subrange(1, 9) =~= u64_le_bytes(ops.len() as u64));
    assert(b.subrange(9, 9 + items.len() as int) =~= items);
}

#[verifier::rlimit(100)]
proof fn lemma_roundtrip_missing_ops(ops: Seq<(u64, Seq<u8>)>, finished: bool)
    requires
        ops.len() <= u64::MAX,
        forall|k: int| 0 <= k < ops.len() ==> (#[trigger] ops[k]).1.len() <= u64::MAX,
    ensures
        spec_decode(spec_encode(WireForm::MissingOps { ops, finished })) == Some(
            WireForm::MissingOps { ops, finished },
        ),
{
    let b = spec_encode(WireForm::MissingOps { ops, finished });
    let items = enc_op_items(ops);
    let fin = if finished {
        1u8
    } else {
        0u8
    };
    lemma_missing_ops_layout(ops, finished);
    lemma_parse_u8(b, 0, 7);
    lemma_parse_u64(b, 1, ops.len() as u64);
    lemma_parse_op_items(b, 9, ops);
    lemma_parse_u8(b, 9 + items.len() as int, fin);
}

#[verifier::rlimit(100)]
proof fn lemma_initiate_layout(
    intervals: Seq<ArcInterval>,
    initiator_agent: u64,
    started_at: u64,
    agent_bloom: BloomForm,
    ops_bloom: BloomForm,
)
    ensures
        ({
            let b = spec_encode(
                WireForm::Initiate {
                    intervals,
                    initiator_agent,
                    started_at,
                    agent_bloom,
                    ops_bloom,
                },
            );
            let p1 = enc_intervals(intervals);
            let p4 = enc_bloom(agent_bloom);
            let p5 = enc_bloom(ops_bloom);
            let o1 = 1 + p1.len() as int;
            &&& b.len() == 1 + p1.len() + 16 + p4.len() + p5.len()
            &&& b[0] == 1u8
            &&& b.subrange(1, o1) == p1
            &&& b.subrange(o1, o1 + 8) == u64_le_bytes(initiator_agent)
            &&& b.subrange(o1 + 8, o1 + 16) == u64_le_bytes(started_at)
            &&& b.subrange(o1 + 16, o1 + 16 + p4.len() as int) == p4
            &&& b.subrange(o1 + 16 + p4.len() as int, b.len() as int) == p5
        }),
{
    let b = spec_encode(
        WireForm::Initiate { intervals, initiator_agent, started_at, agent_bloom, ops_bloom },
    );
    let p1 = enc_intervals(intervals);
    let p4 = enc_bloom(agent_bloom);
    let p5 = enc_bloom(ops_bloom);
    let o1 = 1 + p1.len() as int;
    assert(b.subrange(1, o1) =~= p1);
    assert(b.subrange(o1, o1 + 8) =~= u64_le_bytes(initiator_agent));
    assert(b.subrange(o1 + 8, o1 + 16) =~= u64_le_bytes(started_at));
    assert(b.subrange(o1 + 16, o1 + 16 + p4.len() as int) =~= p4);
    assert(b.subrange(o1 + 16 + p4.len() as int, b.len() as int) =~= p5);
}

#[verifier::rlimit(100)]
proof fn lemma_roundtrip_initiate(
    intervals: Seq<ArcInterval>,
    initiator_agent: u64,
    started_at: u64,
    agent_bloom: BloomForm,
    ops_bloom: BloomForm,
)
    requires
        intervals.len() <= u64::MAX,
        agent_bloom.wf(),
        ops_bloom.wf(),
    ensures
        spec_decode(
            spec_encode(
                WireForm::Initiate {
                    intervals,
                    initiator_agent,
                    started_at,
                    agent_bloom,
                    ops_bloom,
                },
            ),
        ) == Some(
            WireForm::Initiate { intervals, initiator_agent, started_at, agent_bloom, ops_bloom },
        ),
{
    let b = spec_encode(
        WireForm::Initiate { intervals, initiator_agent, started_at, agent_bloom, ops_bloom },
    );
    let p1 = enc_intervals(intervals);
    let p4 = enc_bloom(agent_bloom);
    let p5 = enc_bloom(ops_bloom);
    let o1 = 1 + p1.len() as int;
    lemma_initiate_layout(intervals, initiator_agent, started_at, agent_bloom, ops_bloom);
    lemma_parse_u8(b, 0, 1);
    lemma_parse_intervals(b, 1, intervals);
    lemma_parse_u64(b, o1, initiator_agent);
    lemma_parse_u64(b, o1 + 8, started_at);
    lemma_parse_bloom(b, o1 + 16, agent_bloom);
    lemma_parse_bloom(b, o1 + 16 + p4.len() as int, ops_bloom);
}

#[verifier::rlimit(100)]
proof fn lemma_accept_layout(
    intervals: Seq<ArcInterval>,
    common_digest: u64,
    agent_bloom: BloomForm,
    ops_bloom: BloomForm,
)
    ensures
        ({
            let b = spec_encode(
                WireForm::Accept { intervals, common_digest, agent_bloom, ops_bloom },
            );
            let p1 = enc_intervals(intervals);
            let p3 = enc_bloom(agent_bloom);
            let p4 = enc_bloom(ops_bloom);
            let o1 = 1 + p1.len() as int;
            &&& b.len() == 1 + p1.len() + 8 + p3.len() + p4.len()
            &&& b[0] == 2u8
            &&& b.subrange(1, o1) == p1
            &&& b.subrange(o1, o1 + 8) == u64_le_bytes(common_digest)
            &&& b.subrange(o1 + 8, o1 + 8 + p3.len() as int) == p3
            &&& b.subrange(o1 + 8 + p3.len() as int, b.len() as int) == p4
        }),
{
    let b = spec_encode(WireForm::Accept { intervals, common_digest, agent_bloom, ops_bloom });
    let p1 = enc_intervals(intervals);
    let p3 = enc_bloom(agent_bloom);
    let p4 = enc_bloom(ops_bloom);
    let o1 = 1 + p1.len() as int;
    assert(b.subrange(1, o1) =~= p1);
    assert(b.subrange(o1, o1 + 8) =~= u64_le_bytes(common_digest));
    assert(b.subrange(o1 + 8, o1 + 8 + p3.len() as int) =~= p3);
    assert(b.subrange(o1 + 8 + p3.len() as int, b.len() as int) =~= p4);
}

#[verifier::rlimit(100)]
proof fn lemma_roundtrip_accept(
    intervals: Seq<ArcInterval>,
    common_digest: u64,
    agent_bloom: BloomForm,
    ops_bloom: BloomForm,
)
    requires
        intervals.len() <= u64::MAX,
        agent_bloom.wf(),
        ops_bloom.wf(),
    ensures
        spec_decode(
            spec_encode(WireForm::Accept { intervals, common_digest, agent_bloom, ops_bloom }),
        ) == Some(WireForm::Accept { intervals, common_digest, agent_bloom, ops_bloom }),
{
    let b = spec_encode(WireForm::Accept { intervals, common_digest, agent_bloom, ops_bloom });
    let p1 = enc_intervals(intervals);
    let p3 = enc_bloom(agent_bloom);
    let o1 = 1 + p1.len() as int;
    lemma_accept_layout(intervals, common_digest, agent_bloom, ops_bloom);
    lemma_parse_u8(b, 0, 2);
    lemma_parse_intervals(b, 1, intervals);
    lemma_parse_u64(b, o1, common_digest);
    lemma_parse_bloom(b, o1 + 8, agent_bloom);
    lemma_parse_bloom(b, o1 + 8 + p3.len() as int, ops_bloom);
}

} // verus!
