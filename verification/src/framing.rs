//! Framing of direct node-to-node call payloads.
//!
//! Beside gossip rounds, peers exchange direct calls whose payload packs
//! an opaque binary attachment and a content blob into one frame: a
//! four-byte little-endian length, the attachment, then the content. A
//! frame too short for its own length claim is refused, never misread.

use vstd::prelude::*;

use crate::wire::u32_from_le;
use crate::wire::u32_le_bytes;

verus! {

/// Why a call frame was refused.
#[derive(Clone, Copy, Debug, PartialEq, Eq, Structural)]
pub enum FramingError {
    /// The frame is shorter than its length prefix.
    TooShort,
    /// The claimed attachment length overruns the frame.
    BinaryOverrun,
}

/// Pack an attachment and a content blob into one call frame.
pub fn build_message_payload(binary: &Vec<u8>, content: &Vec<u8>) -> (r: Vec<u8>)
    requires
        binary@.len() <= u32::MAX,
    ensures
        r@ == u32_le_bytes(binary@.len() as u32) + binary@ + content@,
{
    let mut buf: Vec<u8> = Vec::new();
    let len = binary.len() as u32;
    buf.push((len % 256) as u8);
    buf.push(((len / 0x100) % 256) as u8);
    buf.push(((len / 0x1_0000) % 256) as u8);
    buf.push(((len / 0x100_0000) % 256) as u8);
    crate::wire::push_bytes(&mut buf, binary.as_slice());
    crate::wire::push_bytes(&mut buf, content.as_slice());
    proof {
        assert(buf@ =~= u32_le_bytes(binary@.len() as u32) + binary@ + content@);
    }
    buf
}

/// Unpack a call frame into its attachment and its content. Succeeds
/// exactly on frames long enough for the prefix and for the attachment
/// the prefix claims; the two parts returned are exactly the frame's.
pub fn parse_message_payload(payload: &[u8]) -> (r: Result<(Vec<u8>, Vec<u8>), FramingError>)
    ensures
        payload@.len() < 4 ==> r == Err::<(Vec<u8>, Vec<u8>), FramingError>(
            FramingError::TooShort,
        ),
        payload@.len() >= 4 && payload@.len() - 4 < u32_from_le(
            payload@.subrange(0, 4),
        ) ==> r == Err::<(Vec<u8>, Vec<u8>), FramingError>(FramingError::BinaryOverrun),
        payload@.len() >= 4 && payload@.len() - 4 >= u32_from_le(payload@.subrange(0, 4)) ==> {
            let blen = u32_from_le(payload@.subrange(0, 4)) as int;
            &&& r is Ok
            &&& r->Ok_0.0@ == payload@.subrange(4, 4 + blen)
            &&& r->Ok_0.1@ == payload@.subrange(4 + blen, payload@.len() as int)
        },
{
    if payload.len() < 4 {
        return Err(FramingError::TooShort);
    }
    let blen = (payload[0] as u32) + (payload[1] as u32) * 0x100 + (payload[2] as u32) * 0x1_0000
        + (payload[3] as u32) * 0x100_0000;
    proof {
        let s = payload@.subrange(0, 4);
        assert(s[0] == payload@[0]);
        assert(s[1] == payload@[1]);
        assert(s[2] == payload@[2]);
        assert(s[3] == payload@[3]);
        assert(blen == u32_from_le(s));
    }
    if ((payload.len() - 4) as u64) < (blen as u64) {
        return Err(FramingError::BinaryOverrun);
    }
    let blen = blen as usize;
    let mut binary: Vec<u8> = Vec::new();
    let mut i: usize = 0;
    while i < blen
        invariant
            0 <= i <= blen,
            blen + 4 <= payload@.len(),
            payload@.len() <= usize::MAX,
            binary@ == payload@.subrange(4, 4 + i as int),
        decreases blen - i,
    {
        binary.push(payload[4 + i]);
        proof {
            assert(binary@ =~= payload@.subrange(4, 4 + (i + 1) as int));
        }
        i += 1;
    }
    let mut content: Vec<u8> = Vec::new();
    let mut j: usize = 4 + blen;
    while j < payload.len()
        invariant
            4 + blen <= j <= payload@.len(),
            payload@.len() <= usize::MAX,
            content@ == payload@.subrange(4 + blen as int, j as int),
        decreases payload@.len() - j,
    {
        content.push(payload[j]);
        proof {
            assert(content@ =~= payload@.subrange(4 + blen as int, j + 1 as int));
        }
        j += 1;
    }
    Ok((binary, content))
}

/// Framing round trip: a frame built from an attachment and a content
/// blob parses back to exactly those two parts.
pub proof fn lemma_framing_roundtrip(binary: Seq<u8>, content: Seq<u8>)
    requires
        binary.len() <= u32::MAX,
    ensures
        ({
            let frame = u32_le_bytes(binary.len() as u32) + binary + content;
            &&& frame.len() >= 4
            &&& u32_from_le(frame.subrange(0, 4)) == binary.len()
            &&& frame.subrange(4, 4 + binary.len() as int) == binary
            &&& frame.subrange(4 + binary.len() as int, frame.len() as int) == content
        }),
{
    let v = binary.len() as u32;
    let frame = u32_le_bytes(v) + binary + content;
    assert(frame.subrange(0, 4) =~= u32_le_bytes(v));
    lemma_u32_le_roundtrip(v);
    assert(frame.subrange(4, 4 + binary.len() as int) =~= binary);
    assert(frame.subrange(4 + binary.len() as int, frame.len() as int) =~= content);
}

/// Reading back the four little-endian bytes of a `u32` gives the value.
pub proof fn lemma_u32_le_roundtrip(v: u32)
    ensures
        u32_from_le(u32_le_bytes(v)) == v,
{
    assert((v % 256) + ((v / 0x100) % 256) * 0x100 + ((v / 0x1_0000) % 256) * 0x1_0000 + ((v
        / 0x100_0000) % 256) * 0x100_0000 == v) by (bit_vector);
}

} // verus!
