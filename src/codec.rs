use crc::{Crc, CRC_16_KERMIT};
use vstd::prelude::*;

use crate::error::MiniHFError;

verus! {

/// First byte of every packet.
pub const HEADER_BYTE: u8 = 0xAA;

/// Bytes before the payload: sync, type, sequence id (two bytes), length.
pub const HEADER_SIZE: usize = 5;

/// Largest payload that the one-byte length field can describe.
pub const MAX_PAYLOAD: usize = 255;

/// Response type that acknowledges a command.
pub const RESP_ACK: u8 = 0xFF;

/// Response type with which the device rejects a command.
pub const RESP_NACK: u8 = 0xFE;

/// The CRC-16/KERMIT checksum of a byte string.
pub uninterp spec fn kermit_crc(bytes: Seq<u8>) -> u16;

/// Relies on crc's `Crc::<u16>::checksum` with the `CRC_16_KERMIT` catalogue
/// parameters: the checksum is a function of the bytes alone.
#[verifier::external_body]
fn kermit_checksum(bytes: &[u8]) -> (r: u16)
    ensures
        r == kermit_crc(bytes@),
{
    Crc::<u16>::new(&CRC_16_KERMIT).checksum(bytes)
}

/// A 16-bit value as two bytes, least significant first.
pub open spec fn le16(v: u16) -> Seq<u8> {
    seq![(v % 256) as u8, (v / 256) as u8]
}

/// The 16-bit value of two bytes, least significant first.
pub open spec fn from_le16(lo: u8, hi: u8) -> u16 {
    (lo + hi * 256) as u16
}

/// Header and payload: the bytes that the checksum covers.
pub open spec fn packet_body(cmd_id: u8, pkt_id: u16, payload: Seq<u8>) -> Seq<u8> {
    seq![HEADER_BYTE, cmd_id].add(le16(pkt_id)).push(payload.len() as u8).add(payload)
}

/// The whole packet: header, payload, then the checksum of both.
pub open spec fn packet_bytes(cmd_id: u8, pkt_id: u16, payload: Seq<u8>) -> Seq<u8> {
    let body = packet_body(cmd_id, pkt_id, payload);
    body.add(le16(kermit_crc(body)))
}

/// What a packet holds: its type, its sequence id and its payload.
pub open spec fn parse_spec(raw: Seq<u8>) -> Option<(u8, u16, Seq<u8>)> {
    if raw.len() < HEADER_SIZE + 2 || raw[0] != HEADER_BYTE {
        None
    } else {
        let len = raw[4] as int;
        if raw.len() < HEADER_SIZE + len + 2 {
            None
        } else if kermit_crc(raw.subrange(0, HEADER_SIZE + len)) != from_le16(
            raw[HEADER_SIZE + len],
            raw[HEADER_SIZE + len + 1],
        ) {
            None
        } else {
            Some((raw[1], from_le16(raw[2], raw[3]), raw.subrange(HEADER_SIZE as int, HEADER_SIZE + len)))
        }
    }
}

/// A packet that passed every check of `parse_packet`.
pub struct ParsedPacket {
    pub ptype: u8,
    pub id: u16,
    pub payload: Vec<u8>,
}

impl ParsedPacket {
    pub open spec fn view_tuple(&self) -> (u8, u16, Seq<u8>) {
        (self.ptype, self.id, self.payload@)
    }
}

fn push_le16(buf: &mut Vec<u8>, v: u16)
    ensures
        final(buf)@ == old(buf)@.add(le16(v)),
{
    buf.push((v % 256) as u8);
    buf.push((v / 256) as u8);
    assert(final(buf)@ =~= old(buf)@.add(le16(v)));
}

fn append_bytes(buf: &mut Vec<u8>, bytes: &[u8])
    ensures
        final(buf)@ == old(buf)@.add(bytes@),
{
    let ghost start = buf@;
    let mut i: usize = 0;
    while i < bytes.len()
        invariant
            i <= bytes@.len(),
            buf@ == start.add(bytes@.subrange(0, i as int)),
        decreases bytes@.len() - i,
    {
        buf.push(bytes[i]);
        i = i + 1;
        assert(buf@ =~= start.add(bytes@.subrange(0, i as int)));
    }
    assert(bytes@.subrange(0, i as int) =~= bytes@);
}

/// Serializes a command into a checksummed packet. A payload longer than the
/// length field can describe is refused.
pub fn build_packet(cmd_id: u8, pkt_id: u16, payload: &[u8]) -> (r: Result<Vec<u8>, MiniHFError>)
    ensures
        payload@.len() <= MAX_PAYLOAD ==> (r matches Ok(p) && p@ == packet_bytes(cmd_id, pkt_id, payload@)),
        payload@.len() > MAX_PAYLOAD ==> r matches Err(MiniHFError::InvalidArgument(_)),
{
    if payload.len() > MAX_PAYLOAD {
        return Err(MiniHFError::InvalidArgument("payload too large (max 255 bytes)".to_string()));
    }
    let mut buf: Vec<u8> = Vec::new();
    buf.push(HEADER_BYTE);
    buf.push(cmd_id);
    push_le16(&mut buf, pkt_id);
    buf.push(payload.len() as u8);
    append_bytes(&mut buf, payload);
    assert(buf@ =~= packet_body(cmd_id, pkt_id, payload@));
    let checksum = kermit_checksum(buf.as_slice());
    push_le16(&mut buf, checksum);
    Ok(buf)
}

/// Validates and unpacks a candidate packet; `None` for anything that is not
/// a well-formed packet with a matching checksum. Bytes after the checksum are
/// ignored.
pub fn parse_packet(raw: &[u8]) -> (r: Option<ParsedPacket>)
    ensures
        r matches Some(p) <==> parse_spec(raw@) is Some,
        r matches Some(p) ==> parse_spec(raw@) == Some(p.view_tuple()),
{
    if raw.len() < HEADER_SIZE + 2 {
        return None;
    }
    if raw[0] != HEADER_BYTE {
        return None;
    }
    let ptype = raw[1];
    let id = (raw[2] as u16) + (raw[3] as u16) * 256;
    let length = raw[4] as usize;
    if raw.len() < HEADER_SIZE + length + 2 {
        return None;
    }
    let crc_calc = kermit_checksum(&raw[0..HEADER_SIZE + length]);
    let crc_recv = (raw[HEADER_SIZE + length] as u16) + (raw[HEADER_SIZE + length + 1] as u16) * 256;
    if crc_calc != crc_recv {
        return None;
    }
    let mut payload: Vec<u8> = Vec::new();
    append_bytes(&mut payload, &raw[HEADER_SIZE..HEADER_SIZE + length]);
    assert(payload@ =~= raw@.subrange(HEADER_SIZE as int, HEADER_SIZE + length));
    Some(ParsedPacket { ptype, id, payload })
}

/// Decoding reads back exactly what encoding wrote: the packet of a command
/// parses to that command's type, sequence id and payload.
pub proof fn lemma_parse_packet_bytes(cmd_id: u8, pkt_id: u16, payload: Seq<u8>)
    requires
        payload.len() <= MAX_PAYLOAD,
    ensures
        parse_spec(packet_bytes(cmd_id, pkt_id, payload)) == Some((cmd_id, pkt_id, payload)),
{
    let body = packet_body(cmd_id, pkt_id, payload);
    let raw = packet_bytes(cmd_id, pkt_id, payload);
    let n = payload.len() as int;
    assert(raw[4] as int == n);
    assert(raw.subrange(0, HEADER_SIZE + n) =~= body);
    assert(raw.subrange(HEADER_SIZE as int, HEADER_SIZE + n) =~= payload);
    let c = kermit_crc(body);
    assert(raw[HEADER_SIZE + n] == (c % 256) as u8);
    assert(raw[HEADER_SIZE + n + 1] == (c / 256) as u8);
    assert(from_le16((c % 256) as u8, (c / 256) as u8) == c);
    assert(from_le16((pkt_id % 256) as u8, (pkt_id / 256) as u8) == pkt_id);
}

/// `s` with bit `bit` of byte `k` inverted.
pub open spec fn flip_bit(s: Seq<u8>, k: int, bit: u8) -> Seq<u8> {
    s.update(k, s[k] ^ (1u8 << bit))
}

proof fn lemma_flip_changes(x: u8, bit: u8)
    requires
        bit < 8,
    ensures
        x ^ (1u8 << bit) != x,
{
    assert(x ^ (1u8 << bit) != x) by (bit_vector)
        requires
            bit < 8,
    ;
}

/// A packet whose checksum field took a single flipped bit is rejected.
pub proof fn lemma_checksum_flip_rejected(cmd_id: u8, pkt_id: u16, payload: Seq<u8>, k: int, bit: u8)
    requires
        payload.len() <= MAX_PAYLOAD,
        HEADER_SIZE + payload.len() <= k < HEADER_SIZE + payload.len() + 2,
        bit < 8,
    ensures
        parse_spec(flip_bit(packet_bytes(cmd_id, pkt_id, payload), k, bit)) is None,
{
    let raw = packet_bytes(cmd_id, pkt_id, payload);
    let bad = flip_bit(raw, k, bit);
    let n = payload.len() as int;
    lemma_parse_packet_bytes(cmd_id, pkt_id, payload);
    lemma_flip_changes(raw[k], bit);
    assert(bad[4] == raw[4]);
    assert(bad[0] == raw[0]);
    assert(bad.subrange(0, HEADER_SIZE + n) =~= raw.subrange(0, HEADER_SIZE + n));
    let lo = raw[HEADER_SIZE + n];
    let hi = raw[HEADER_SIZE + n + 1];
    let lo2 = bad[HEADER_SIZE + n];
    let hi2 = bad[HEADER_SIZE + n + 1];
    assert(lo != lo2 || hi != hi2);
    assert(from_le16(lo, hi) != from_le16(lo2, hi2));
}

/// A packet with a single flipped payload bit, and its checksum left as it
/// was, parses only where the checksum of the altered header and payload
/// collides with the unaltered one.
pub proof fn lemma_payload_flip_needs_collision(cmd_id: u8, pkt_id: u16, payload: Seq<u8>, k: int, bit: u8)
    requires
        payload.len() <= MAX_PAYLOAD,
        HEADER_SIZE <= k < HEADER_SIZE + payload.len(),
        bit < 8,
    ensures
        parse_spec(flip_bit(packet_bytes(cmd_id, pkt_id, payload), k, bit)) is Some ==> kermit_crc(
            flip_bit(packet_body(cmd_id, pkt_id, payload), k, bit),
        ) == kermit_crc(packet_body(cmd_id, pkt_id, payload)),
{
    let raw = packet_bytes(cmd_id, pkt_id, payload);
    let body = packet_body(cmd_id, pkt_id, payload);
    let bad = flip_bit(raw, k, bit);
    let n = payload.len() as int;
    assert(bad[4] == raw[4]);
    assert(bad.subrange(0, HEADER_SIZE + n) =~= flip_bit(body, k, bit));
    assert(bad[HEADER_SIZE + n] == raw[HEADER_SIZE + n]);
    assert(bad[HEADER_SIZE + n + 1] == raw[HEADER_SIZE + n + 1]);
    let c = kermit_crc(body);
    assert(from_le16((c % 256) as u8, (c / 256) as u8) == c);
}

} // verus!
