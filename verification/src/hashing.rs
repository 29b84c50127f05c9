//! Content addressing for ops and item keys.
//!
//! Every op is identified by a 64-bit content hash of its payload, and the
//! low 32 bits of that hash give the op's basis: the point of the circular
//! key space that decides which arcs the op belongs to. The hash is a
//! Fowler-Noll-Vo style fold over the payload bytes; it is deterministic,
//! so any node can recompute and check the hash a peer claims for a
//! payload.

use vstd::prelude::*;

verus! {

/// Multiplier of the hash fold.
pub const FNV_PRIME: u64 = 0x100000001b3;

/// Starting value of the content hash fold.
pub const FNV_OFFSET: u64 = 0xcbf29ce484222325;

/// One step of the hash fold: mix one byte into the state.
pub open spec fn fold_byte(state: u64, byte: u8) -> u64 {
    (((state ^ byte as u64) * FNV_PRIME) % 0x1_0000_0000_0000_0000) as u64
}

/// The hash fold over a byte sequence, from the given starting state.
pub open spec fn fold_bytes(state: u64, bytes: Seq<u8>) -> u64
    decreases bytes.len(),
{
    if bytes.len() == 0 {
        state
    } else {
        fold_byte(fold_bytes(state, bytes.drop_last()), bytes.last())
    }
}

/// The content hash of a payload.
pub open spec fn spec_content_hash(bytes: Seq<u8>) -> u64 {
    fold_bytes(FNV_OFFSET, bytes)
}

/// The basis of a content hash: where the op sits on the ring.
pub open spec fn spec_basis_of(hash: u64) -> u32 {
    (hash % 0x1_0000_0000) as u32
}

/// Compute the hash fold from a given starting state.
pub fn fold_bytes_from(state: u64, bytes: &[u8]) -> (r: u64)
    ensures
        r == fold_bytes(state, bytes@),
{
    let mut h = state;
    let mut i: usize = 0;
    while i < bytes.len()
        invariant
            0 <= i <= bytes@.len(),
            h == fold_bytes(state, bytes@.take(i as int)),
        decreases bytes@.len() - i,
    {
        let b = bytes[i];
        let x = (h ^ b as u64) as u128;
        proof {
            assert(x * (FNV_PRIME as u128) <= 0xFFFF_FFFF_FFFF_FFFFu128 * (FNV_PRIME as u128))
                by (nonlinear_arith)
                requires x <= 0xFFFF_FFFF_FFFF_FFFFu128;
        }
        h = ((x * (FNV_PRIME as u128)) % 0x1_0000_0000_0000_0000u128) as u64;
        proof {
            assert(bytes@.take(i + 1 as int).drop_last() =~= bytes@.take(i as int));
            assert(bytes@.take(i + 1 as int).last() == bytes@[i as int]);
            assert(h == fold_byte(fold_bytes(state, bytes@.take(i as int)), b));
            assert(fold_bytes(state, bytes@.take(i + 1 as int)) == fold_byte(
                fold_bytes(state, bytes@.take(i + 1 as int).drop_last()),
                bytes@.take(i + 1 as int).last(),
            ));
        }
        i += 1;
    }
    proof {
        assert(bytes@.take(bytes@.len() as int) =~= bytes@);
    }
    h
}

/// The content hash of a payload: identifies an op.
pub fn content_hash(bytes: &[u8]) -> (r: u64)
    ensures
        r == spec_content_hash(bytes@),
{
    fold_bytes_from(FNV_OFFSET, bytes)
}

/// The basis of a content hash.
pub fn basis_of(hash: u64) -> (r: u32)
    ensures
        r == spec_basis_of(hash),
{
    (hash % 0x1_0000_0000) as u32
}

/// Append a `u64` to a byte buffer in little-endian order.
pub fn push_u64_le(buf: &mut Vec<u8>, v: u64)
    ensures
        final(buf)@ == old(buf)@ + u64_le_bytes(v),
{
    let ghost prev = buf@;
    buf.push((v % 256) as u8);
    buf.push(((v / 0x100) % 256) as u8);
    buf.push(((v / 0x1_0000) % 256) as u8);
    buf.push(((v / 0x100_0000) % 256) as u8);
    buf.push(((v / 0x1_0000_0000) % 256) as u8);
    buf.push(((v / 0x100_0000_0000) % 256) as u8);
    buf.push(((v / 0x1_0000_0000_0000) % 256) as u8);
    buf.push(((v / 0x100_0000_0000_0000) % 256) as u8);
    proof {
        assert(buf@ =~= prev + u64_le_bytes(v));
    }
}

/// The eight little-endian bytes of a `u64`.
pub open spec fn u64_le_bytes(v: u64) -> Seq<u8> {
    seq![
        (v % 256) as u8,
        ((v / 0x100) % 256) as u8,
        ((v / 0x1_0000) % 256) as u8,
        ((v / 0x100_0000) % 256) as u8,
        ((v / 0x1_0000_0000) % 256) as u8,
        ((v / 0x100_0000_0000) % 256) as u8,
        ((v / 0x1_0000_0000_0000) % 256) as u8,
        ((v / 0x100_0000_0000_0000) % 256) as u8,
    ]
}

/// The key a bloom filter uses for an agent-info record: the agent
/// identifier followed by the signing time, little-endian.
pub open spec fn spec_agent_key(agent: u64, signed_at: u64) -> Seq<u8> {
    u64_le_bytes(agent) + u64_le_bytes(signed_at)
}

/// Build the bloom key of an agent-info record.
pub fn agent_key(agent: u64, signed_at: u64) -> (r: Vec<u8>)
    ensures
        r@ == spec_agent_key(agent, signed_at),
{
    let mut buf: Vec<u8> = Vec::new();
    push_u64_le(&mut buf, agent);
    push_u64_le(&mut buf, signed_at);
    buf
}

/// The key a bloom filter uses for an op: its content hash, little-endian.
pub open spec fn spec_op_key(hash: u64) -> Seq<u8> {
    u64_le_bytes(hash)
}

/// Build the bloom key of an op.
pub fn op_key(hash: u64) -> (r: Vec<u8>)
    ensures
        r@ == spec_op_key(hash),
{
    let mut buf: Vec<u8> = Vec::new();
    push_u64_le(&mut buf, hash);
    buf
}

/// Where an agent sits on the ring: the basis of its identifier's hash.
pub open spec fn spec_agent_loc(agent: u64) -> u32 {
    spec_basis_of(spec_content_hash(u64_le_bytes(agent)))
}

/// Compute where an agent sits on the ring.
pub fn agent_loc(agent: u64) -> (r: u32)
    ensures
        r == spec_agent_loc(agent),
{
    let mut buf: Vec<u8> = Vec::new();
    push_u64_le(&mut buf, agent);
    let h = content_hash(buf.as_slice());
    basis_of(h)
}

} // verus!
